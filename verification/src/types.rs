use vstd::prelude::*;

verus! {

/// Access flags of a mapping, as the `rwxp` column of its header shows them.
#[derive(Debug, Clone, Copy, PartialEq, Eq, Structural)]
pub struct Permissions {
    pub read: bool,
    pub write: bool,
    pub execute: bool,
    pub shared: bool,
}

impl Permissions {
    /// Readable, writable and executable at once: a classic sign of JIT code
    /// or of injected code.
    pub open spec fn spec_is_suspicious(self) -> bool {
        self.read && self.write && self.execute
    }

    pub fn is_suspicious(&self) -> (r: bool)
        ensures
            r == self.spec_is_suspicious(),
    {
        self.read && self.write && self.execute
    }
}

/// What a mapping holds, judged by its label.
#[derive(Debug, Clone, Copy, PartialEq, Eq, Structural)]
pub enum RegionType {
    Heap,
    Stack,
    SharedLib,
    Executable,
    Anonymous,
    Other,
}

/// One mapping of the process: its address range, access flags, label, and
/// how much of it is resident (`rss`), its proportional share (`pss`) and
/// its private dirty pages, all three in kB.
#[derive(Debug, Clone)]
pub struct MemoryRegion {
    pub start: u64,
    pub end: u64,
    pub size: u64,
    pub perms: Permissions,
    pub region_type: RegionType,
    pub label: String,
    pub rss: u64,
    pub pss: u64,
    pub private_dirty: u64,
}

/// A `MemoryRegion` as a mathematical value: the label as its characters.
pub ghost struct RegionModel {
    pub start: u64,
    pub end: u64,
    pub size: u64,
    pub perms: Permissions,
    pub region_type: RegionType,
    pub label: Seq<char>,
    pub rss: u64,
    pub pss: u64,
    pub private_dirty: u64,
}

impl View for MemoryRegion {
    type V = RegionModel;

    open spec fn view(&self) -> RegionModel {
        RegionModel {
            start: self.start,
            end: self.end,
            size: self.size,
            perms: self.perms,
            region_type: self.region_type,
            label: self.label@,
            rss: self.rss,
            pss: self.pss,
            private_dirty: self.private_dirty,
        }
    }
}

/// The models of a list of regions.
pub open spec fn models(rs: Seq<MemoryRegion>) -> Seq<RegionModel> {
    Seq::new(rs.len(), |i: int| rs[i]@)
}


/// A mapping is suspicious exactly when it is readable, writable and
/// executable, all three at once.
pub proof fn lemma_suspicious_means_rwx(p: Permissions)
    ensures
        p.spec_is_suspicious() <==> (p.read && p.write && p.execute),
        !p.read ==> !p.spec_is_suspicious(),
        !p.write ==> !p.spec_is_suspicious(),
        !p.execute ==> !p.spec_is_suspicious(),
{
}

} // verus!
