use memtrace::parser::{
    classify_region, parse_block, parse_header, parse_kb, parse_permissions, parse_smaps,
    split_into_blocks,
};
use memtrace::types::{MemoryRegion, Permissions, RegionType};

fn chars(s: &str) -> Vec<char> {
    s.chars().collect()
}

const SAMPLE: &str = "\
576a1b691000-576a1b6c1000 r--p 00000000 08:20 123  /usr/bin/bash
Size:                192 kB
KernelPageSize:        4 kB
Rss:                 192 kB
Pss:                  96 kB
Shared_Clean:         96 kB
Private_Dirty:         0 kB
Anonymous:             0 kB
VmFlags: rd mr mw me dw sd
576a46d75000-576a46f22000 rw-p 00000000 00:00 0                          [heap]
Size:               1716 kB
Rss:                1608 kB
Pss:                1608 kB
Private_Dirty:      1608 kB
7ffdcc706000-7ffdcc727000 rwxp 00000000 00:00 0 [stack]
Rss:                 108 kB
Pss:                 108 kB
Private_Dirty:       108 kB
7f3a2b000000-7f3a2b021000 r-xp 00000000 08:01 4242 /usr/lib/libc.so.6
Rss:                1440 kB
Pss:                  46 kB
Private_Dirty:         0 kB
7f3a2c000000-7f3a2c001000 rw-p 00000000 00:00 0
Rss:                   4 kB
";

fn region(text: &str) -> MemoryRegion {
    let rs = parse_smaps(text);
    assert_eq!(rs.len(), 1, "one region expected in {:?}", text);
    rs.into_iter().next().unwrap()
}

#[test]
fn parses_a_whole_listing() {
    let rs = parse_smaps(SAMPLE);
    assert_eq!(rs.len(), 5);

    let bash = &rs[0];
    assert_eq!(bash.start, 0x576a1b691000);
    assert_eq!(bash.end, 0x576a1b6c1000);
    assert_eq!(bash.size, 0x30000);
    assert_eq!(bash.size / 1024, 192);
    assert_eq!(bash.perms, Permissions { read: true, write: false, execute: false, shared: false });
    assert_eq!(bash.label, "/usr/bin/bash");
    assert_eq!(bash.region_type, RegionType::Other);
    assert_eq!((bash.rss, bash.pss, bash.private_dirty), (192, 96, 0));

    let heap = &rs[1];
    assert_eq!(heap.label, "[heap]");
    assert_eq!(heap.region_type, RegionType::Heap);
    assert_eq!((heap.rss, heap.pss, heap.private_dirty), (1608, 1608, 1608));

    let stack = &rs[2];
    assert_eq!(stack.region_type, RegionType::Stack);
    assert!(stack.perms.is_suspicious());

    let libc = &rs[3];
    assert_eq!(libc.region_type, RegionType::SharedLib);
    assert_eq!((libc.rss, libc.pss), (1440, 46));

    let anon = &rs[4];
    assert_eq!(anon.label, "");
    assert_eq!(anon.region_type, RegionType::Anonymous);
    assert_eq!((anon.rss, anon.pss, anon.private_dirty), (4, 0, 0));
}

#[test]
fn empty_text_has_no_regions() {
    assert!(parse_smaps("").is_empty());
    assert!(parse_smaps("\n\n").is_empty());
    assert!(split_into_blocks("").is_empty());
}

#[test]
fn a_line_starting_with_a_hex_letter_opens_a_block() {
    // `Anonymous:` starts with `A`, a hex digit: it opens a block of its own
    // that does not read as a header, so the `Rss` after it is lost.
    let r = region("1000-2000 rw-p 0 0 0 x\nRss: 4 kB\nAnonymous: 0 kB\nRss: 8 kB\n");
    assert_eq!(r.rss, 4);
    let blocks = split_into_blocks("1000-2000 rw-p 0 0 0 x\nRss: 4 kB\nAnonymous: 0 kB\nRss: 8 kB\n");
    assert_eq!(blocks.len(), 2);
    assert_eq!(blocks[0].len(), 2);
    assert_eq!(blocks[1].len(), 2);
}

#[test]
fn lines_before_the_first_header_form_a_block() {
    let blocks = split_into_blocks("Rss: 1 kB\n\n1000-2000 r--p 0 0 0\n");
    assert_eq!(blocks.len(), 2);
    assert_eq!(blocks[0], vec![chars("Rss: 1 kB"), chars("")]);
    // That leading block has no header and gives no region.
    let rs = parse_smaps("Rss: 1 kB\n\n1000-2000 r--p 0 0 0\n");
    assert_eq!(rs.len(), 1);
    assert_eq!(rs[0].start, 0x1000);
}

#[test]
fn an_indented_first_line_still_reads_as_a_header() {
    let r = region("  10-20 r--p 0 0 0 lbl\n");
    assert_eq!((r.start, r.end, r.size), (0x10, 0x20, 0x10));
    assert_eq!(r.label, "lbl");
}

#[test]
fn crlf_line_endings() {
    let r = region("1000-3000 rw-p 0 0 0 [heap]\r\nRss: 12 kB\r\nPss: 6 kB\r\n");
    assert_eq!(r.label, "[heap]");
    assert_eq!(r.region_type, RegionType::Heap);
    assert_eq!((r.rss, r.pss), (12, 6));
}

#[test]
fn last_figure_wins_and_others_are_ignored() {
    let r = region("1-2 r--p 0 0 0\nRss: 1 kB\nRss: 2 kB\n  Pss  : 3 kB\nSwap: 9 kB\nno colon\n");
    assert_eq!((r.rss, r.pss, r.private_dirty), (2, 3, 0));
}

#[test]
fn bad_headers_are_dropped() {
    assert!(parse_smaps("1000 r--p 0 0 0\nRss: 1 kB\n").is_empty());
    assert!(parse_smaps("1000-zz r--p 0 0 0\n").is_empty());
    assert!(parse_smaps("1000-2000\n").is_empty());
    assert!(parse_smaps("fffffffffffffffff-1 r--p\n").is_empty());
    assert_eq!(parse_smaps("bag-1 r\n1-2 r\n").len(), 1);
}

#[test]
fn end_below_start_wraps() {
    let r = region("2000-1000 r--p 0 0 0\n");
    assert_eq!(r.size, 0x1000u64.wrapping_sub(0x2000));
}

#[test]
fn header_fields() {
    let (s, e, p, l) = parse_header(&chars("7f3a2b000000-7f3a2b021000 r--p 00000000 08:01 123 /usr/lib/libc.so.6")).unwrap();
    assert_eq!((s, e), (0x7f3a2b000000, 0x7f3a2b021000));
    assert_eq!(p, Permissions { read: true, write: false, execute: false, shared: false });
    assert_eq!(l, "/usr/lib/libc.so.6");
    let (_, _, _, l) = parse_header(&chars("1-2 rw-p 0 0 0")).unwrap();
    assert_eq!(l, "");
    let (_, _, _, l) = parse_header(&chars("1-2 rw-p 0 0 0 /a b/c")).unwrap();
    assert_eq!(l, "/a");
    let (s, e, _, _) = parse_header(&chars("+1-+2 r")).unwrap();
    assert_eq!((s, e), (1, 2));
    assert!(parse_header(&chars("1-2")).is_none());
    assert!(parse_header(&chars("")).is_none());
    assert!(parse_header(&chars("1-2-3 r")).is_none());
    assert!(parse_header(&chars("-2 r")).is_none());
}

#[test]
fn kb_fields() {
    assert_eq!(parse_kb(&chars("  192 kB")), 192);
    assert_eq!(parse_kb(&chars("0 kB")), 0);
    assert_eq!(parse_kb(&chars("+7")), 7);
    assert_eq!(parse_kb(&chars("")), 0);
    assert_eq!(parse_kb(&chars("kB 5")), 0);
    assert_eq!(parse_kb(&chars("-5 kB")), 0);
    assert_eq!(parse_kb(&chars("99999999999999999999 kB")), 0);
    assert_eq!(parse_kb(&chars("18446744073709551615")), u64::MAX);
}

#[test]
fn permission_columns() {
    assert_eq!(
        parse_permissions(&chars("r-xp")),
        Permissions { read: true, write: false, execute: true, shared: false }
    );
    assert_eq!(
        parse_permissions(&chars("rw-s")),
        Permissions { read: true, write: true, execute: false, shared: true }
    );
    assert_eq!(
        parse_permissions(&chars("")),
        Permissions { read: false, write: false, execute: false, shared: false }
    );
    assert_eq!(
        parse_permissions(&chars("wrxs")),
        Permissions { read: false, write: false, execute: true, shared: true }
    );
}

#[test]
fn labels_tell_the_kind() {
    assert_eq!(classify_region(&chars("[heap]")), RegionType::Heap);
    assert_eq!(classify_region(&chars("[stack]")), RegionType::Stack);
    assert_eq!(classify_region(&chars("")), RegionType::Anonymous);
    assert_eq!(classify_region(&chars("/usr/lib/libc.so.6")), RegionType::SharedLib);
    assert_eq!(classify_region(&chars("/lib/ld.so")), RegionType::SharedLib);
    assert_eq!(classify_region(&chars(".so")), RegionType::SharedLib);
    assert_eq!(classify_region(&chars("/usr/bin/bash")), RegionType::Other);
    assert_eq!(classify_region(&chars("[vdso]")), RegionType::Other);
    assert_eq!(classify_region(&chars("a.s")), RegionType::Other);
    assert_eq!(classify_region(&chars("[heap] ")), RegionType::Other);
}

#[test]
fn blocks_of_lines() {
    let b = split_into_blocks(SAMPLE);
    // Five regions, and the `Anonymous:` line opens a block of its own.
    assert_eq!(b.len(), 6);
    let flat: Vec<Vec<char>> = b.iter().flatten().cloned().collect();
    let lines: Vec<Vec<char>> = SAMPLE.lines().map(chars).collect();
    assert_eq!(flat, lines);
}

#[test]
fn block_reading() {
    let block = vec![chars("10-30 rwxp 0 0 0 /tmp/jit"), chars("Rss: 5 kB"), chars("Private_Dirty: 3 kB")];
    let r = parse_block(&block).unwrap();
    assert_eq!((r.start, r.end, r.size), (0x10, 0x30, 0x20));
    assert!(r.perms.is_suspicious());
    assert_eq!((r.rss, r.pss, r.private_dirty), (5, 0, 3));
    assert!(parse_block(&[]).is_none());
    assert!(parse_block(&[chars("Rss: 5 kB")]).is_none());
}

// Laws, on concrete values.

#[test]
fn law_concatenated_listings_read_block_by_block() {
    let a = "1000-2000 r--p 0 0 0 /bin/a\nRss: 4 kB\n";
    let b = "3000-4000 rw-p 0 0 0 [heap]\nPss: 2 kB\n";
    let joined = format!("{}{}", a, b);
    let mut both = parse_smaps(a);
    both.extend(parse_smaps(b));
    let whole = parse_smaps(&joined);
    assert_eq!(whole.len(), both.len());
    for (x, y) in whole.iter().zip(both.iter()) {
        assert_eq!((x.start, x.end, x.rss, x.pss, &x.label), (y.start, y.end, y.rss, y.pss, &y.label));
    }
}

#[test]
fn law_regions_are_consistent() {
    for r in parse_smaps(SAMPLE) {
        assert_eq!(r.size, r.end.wrapping_sub(r.start));
        assert_eq!(r.region_type, classify_region(&chars(&r.label)));
        assert_ne!(r.region_type, RegionType::Executable);
    }
}
