//! Parsing and summarising the memory map of a Linux process, as the kernel
//! reports it in `/proc/<pid>/smaps`.
pub mod app;
pub mod parser;
pub mod summary;
pub mod text;
pub mod types;
pub mod watch;
