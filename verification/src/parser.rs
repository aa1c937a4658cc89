//! Reading the text of `/proc/<pid>/smaps` into `MemoryRegion`s.
//!
//! The text is a series of blocks, one per mapping. A block opens with a
//! header line such as
//! `7f3a2b000000-7f3a2b021000 r--p 00000000 08:01 123 /usr/lib/libc.so.6`
//! and goes on with `Key: value kB` lines, of which `Rss`, `Pss` and
//! `Private_Dirty` are kept. A line opens a new block when its first
//! character is an ASCII hex digit; a block whose header does not read as one
//! is left out.
use vstd::prelude::*;
use crate::text::{
    chars_of, copy_range, find_char, lines, parse_unsigned, parse_unsigned_chars,
    same_chars, split_lines, split_once, split_words, string_of, trim, trimmed, views, words,
    lemma_pos_of, pos_of, strip_cr,
};
use crate::types::{MemoryRegion, Permissions, RegionModel, RegionType, models};

verus! {

// ---------------------------------------------------------------------------
// The format, as mathematics

/// An ASCII hex digit: `0-9`, `a-f`, `A-F`.
pub open spec fn is_hex_ascii(c: char) -> bool {
    let u = c as u32;
    (0x30 <= u <= 0x39) || (0x61 <= u <= 0x66) || (0x41 <= u <= 0x46)
}

/// A line that opens a new block.
pub open spec fn is_header_line(l: Seq<char>) -> bool {
    l.len() > 0 && is_hex_ascii(l[0])
}

/// The blocks of a list of lines: the first block starts at the first line,
/// and every later line that is a header line starts a new one.
pub open spec fn blocks(ls: Seq<Seq<char>>) -> Seq<Seq<Seq<char>>>
    decreases ls.len(),
{
    if ls.len() == 0 {
        seq![]
    } else {
        let prev = blocks(ls.drop_last());
        if ls.len() == 1 || is_header_line(ls.last()) {
            prev.push(seq![ls.last()])
        } else {
            prev.update(prev.len() - 1, prev.last().push(ls.last()))
        }
    }
}

/// The access flags that a `rwxp` column gives.
pub open spec fn perms_of(p: Seq<char>) -> Permissions {
    Permissions {
        read: p.len() > 0 && p[0] == 'r',
        write: p.len() > 1 && p[1] == 'w',
        execute: p.len() > 2 && p[2] == 'x',
        shared: p.len() > 3 && p[3] == 's',
    }
}

/// What a header line says: start and end address (hex), access flags, and
/// the label, which is the sixth word or empty where there is none.
pub open spec fn header_fields(line: Seq<char>) -> Option<(u64, u64, Permissions, Seq<char>)> {
    let ws = words(line);
    if ws.len() < 2 {
        None
    } else {
        match split_once(ws[0], '-') {
            None => None,
            Some((a, b)) => match (parse_unsigned(a, 16), parse_unsigned(b, 16)) {
                (Some(start), Some(end)) => Some(
                    (start, end, perms_of(ws[1]), if ws.len() > 5 {
                        ws[5]
                    } else {
                        seq![]
                    }),
                ),
                _ => None,
            },
        }
    }
}

/// The number in a `  192 kB` field: its first word read as a decimal number,
/// or 0 where that fails.
pub open spec fn kb_value(v: Seq<char>) -> u64 {
    let ws = words(v);
    if ws.len() == 0 {
        0
    } else {
        match parse_unsigned(ws[0], 10) {
            Some(n) => n,
            None => 0,
        }
    }
}

pub open spec fn rss_key() -> Seq<char> {
    seq!['R', 's', 's']
}

pub open spec fn pss_key() -> Seq<char> {
    seq!['P', 's', 's']
}

pub open spec fn private_dirty_key() -> Seq<char> {
    seq!['P', 'r', 'i', 'v', 'a', 't', 'e', '_', 'D', 'i', 'r', 't', 'y']
}

/// The (rss, pss, private dirty) figures after one more line of a block: a
/// `Key: value` line whose trimmed key is `Rss`, `Pss` or `Private_Dirty`
/// sets that figure; any other line leaves them.
pub open spec fn stat_update(acc: (u64, u64, u64), line: Seq<char>) -> (u64, u64, u64) {
    match split_once(line, ':') {
        None => acc,
        Some((key, val)) => {
            let k = trim(key);
            if k == rss_key() {
                (kb_value(val), acc.1, acc.2)
            } else if k == pss_key() {
                (acc.0, kb_value(val), acc.2)
            } else if k == private_dirty_key() {
                (acc.0, acc.1, kb_value(val))
            } else {
                acc
            }
        },
    }
}

/// The (rss, pss, private dirty) figures of a block's lines after its
/// header: each starts at 0 and the last line that sets it wins.
pub open spec fn stats(ls: Seq<Seq<char>>) -> (u64, u64, u64)
    decreases ls.len(),
{
    if ls.len() == 0 {
        (0, 0, 0)
    } else {
        stat_update(stats(ls.drop_last()), ls.last())
    }
}

pub open spec fn heap_label() -> Seq<char> {
    seq!['[', 'h', 'e', 'a', 'p', ']']
}

pub open spec fn stack_label() -> Seq<char> {
    seq!['[', 's', 't', 'a', 'c', 'k', ']']
}

/// `l` ends with `.so`.
pub open spec fn ends_with_so(l: Seq<char>) -> bool {
    l.len() >= 3 && l.skip(l.len() - 3) == seq!['.', 's', 'o']
}

/// `l` contains `.so.`.
pub open spec fn contains_so_dot(l: Seq<char>) -> bool {
    exists|i: int| 0 <= i && i + 4 <= l.len() && #[trigger] l.subrange(i, i + 4) == seq!['.', 's', 'o', '.']
}

/// The kind of a mapping, told by its label.
pub open spec fn classify(l: Seq<char>) -> RegionType {
    if l == heap_label() {
        RegionType::Heap
    } else if l == stack_label() {
        RegionType::Stack
    } else if l.len() == 0 {
        RegionType::Anonymous
    } else if ends_with_so(l) || contains_so_dot(l) {
        RegionType::SharedLib
    } else {
        RegionType::Other
    }
}

/// The region that a block describes, where its first line reads as a
/// header. Its size is `end - start`, wrapping below zero as `u64`
/// subtraction does in a release build.
pub open spec fn region_of(b: Seq<Seq<char>>) -> Option<RegionModel> {
    if b.len() == 0 {
        None
    } else {
        match header_fields(b[0]) {
            None => None,
            Some((start, end, perms, label)) => {
                let st = stats(b.drop_first());
                Some(
                    RegionModel {
                        start,
                        end,
                        size: end.wrapping_sub(start),
                        perms,
                        region_type: classify(label),
                        label,
                        rss: st.0,
                        pss: st.1,
                        private_dirty: st.2,
                    },
                )
            },
        }
    }
}

/// The regions of a list of blocks, in order, leaving out the blocks that
/// describe none.
pub open spec fn regions_of(bs: Seq<Seq<Seq<char>>>) -> Seq<RegionModel>
    decreases bs.len(),
{
    if bs.len() == 0 {
        seq![]
    } else {
        match region_of(bs.last()) {
            Some(r) => regions_of(bs.drop_last()).push(r),
            None => regions_of(bs.drop_last()),
        }
    }
}

/// The regions that an smaps text describes.
pub open spec fn smaps_regions(s: Seq<char>) -> Seq<RegionModel> {
    regions_of(blocks(lines(s)))
}


// ---------------------------------------------------------------------------
// Reading the format

/// Reads a `rwxp` column: `r`, `w`, `x` in the first three places and `s`
/// (shared) in the fourth set the flags; anything else clears them.
pub fn parse_permissions(s: &[char]) -> (p: Permissions)
    ensures
        p == perms_of(s@),
{
    Permissions {
        read: s.len() > 0 && s[0] == 'r',
        write: s.len() > 1 && s[1] == 'w',
        execute: s.len() > 2 && s[2] == 'x',
        shared: s.len() > 3 && s[3] == 's',
    }
}

/// Reads the number of a `  192 kB` field, or 0 where its first word is no
/// decimal number.
pub fn parse_kb(s: &[char]) -> (n: u64)
    ensures
        n == kb_value(s@),
{
    let ws = split_words(s);
    if ws.len() == 0 {
        0
    } else {
        assert(ws@[0]@ == words(s@)[0]);
        match parse_unsigned_chars(&ws[0], 10) {
            Some(n) => n,
            None => 0,
        }
    }
}

/// Tells the kind of a mapping by its label: `[heap]`, `[stack]`, no label
/// (anonymous), a shared library (`.so` at the end or `.so.` inside), or
/// anything else.
pub fn classify_region(label: &[char]) -> (t: RegionType)
    ensures
        t == classify(label@),
{
    let heap = ['[', 'h', 'e', 'a', 'p', ']'];
    let stack = ['[', 's', 't', 'a', 'c', 'k', ']'];
    assert(heap@ =~= heap_label());
    assert(stack@ =~= stack_label());
    if same_chars(label, heap.as_slice()) {
        return RegionType::Heap;
    }
    if same_chars(label, stack.as_slice()) {
        return RegionType::Stack;
    }
    let n = label.len();
    if n == 0 {
        return RegionType::Anonymous;
    }
    if n >= 3 && label[n - 3] == '.' && label[n - 2] == 's' && label[n - 1] == 'o' {
        assert(label@.skip(n - 3) =~= seq!['.', 's', 'o']);
        return RegionType::SharedLib;
    }
    assert(!ends_with_so(label@)) by {
        if n >= 3 {
            assert(label@.skip(n - 3)[0] == label@[n - 3]);
            assert(label@.skip(n - 3)[1] == label@[n - 2]);
            assert(label@.skip(n - 3)[2] == label@[n - 1]);
        }
    }
    let mut i: usize = 0;
    while i < n && n - i >= 4
        invariant
            n == label@.len(),
            i <= n,
            forall|j: int|
                0 <= j < i && j + 4 <= n ==> #[trigger] label@.subrange(j, j + 4) != seq![
                    '.',
                    's',
                    'o',
                    '.',
                ],
        decreases n - i,
    {
        if label[i] == '.' && label[i + 1] == 's' && label[i + 2] == 'o' && label[i + 3] == '.' {
            assert(label@.subrange(i as int, i + 4) =~= seq!['.', 's', 'o', '.']);
            return RegionType::SharedLib;
        }
        assert(label@.subrange(i as int, i + 4) != seq!['.', 's', 'o', '.']) by {
            let sub = label@.subrange(i as int, i + 4);
            assert(sub[0] == label@[i as int]);
            assert(sub[1] == label@[i + 1]);
            assert(sub[2] == label@[i + 2]);
            assert(sub[3] == label@[i + 3]);
        }
        i += 1;
    }
    assert(!contains_so_dot(label@));
    RegionType::Other
}

/// Reads a header line: the `start-end` range in hex, the access flags and
/// the label. `None` where there are fewer than two words or the range does
/// not read as two hex numbers.
pub fn parse_header(line: &[char]) -> (r: Option<(u64, u64, Permissions, String)>)
    ensures
        header_fields(line@) == (match r {
            Some((start, end, perms, label)) => Some((start, end, perms, label@)),
            None => None,
        }),
{
    let ws = split_words(line);
    let ghost w = words(line@);
    if ws.len() < 2 {
        return None;
    }
    let range: &Vec<char> = &ws[0];
    assert(range@ == w[0]);
    let dash = find_char(range.as_slice(), 0, '-');
    proof {
        assert(range@.skip(0) =~= range@);
        lemma_pos_of(range@, '-');
    }
    if dash == range.len() {
        return None;
    }
    let a = copy_range(range.as_slice(), 0, dash);
    let b = copy_range(range.as_slice(), dash + 1, range.len());
    assert(a@ =~= range@.take(dash as int));
    assert(b@ =~= range@.skip(dash + 1));
    let start = match parse_unsigned_chars(a.as_slice(), 16) {
        Some(v) => v,
        None => return None,
    };
    let end = match parse_unsigned_chars(b.as_slice(), 16) {
        Some(v) => v,
        None => return None,
    };
    assert(ws@[1]@ == w[1]);
    let perms = parse_permissions(ws[1].as_slice());
    let label = if ws.len() > 5 {
        assert(ws@[5]@ == w[5]);
        string_of(ws[5].as_slice())
    } else {
        String::new()
    };
    Some((start, end, perms, label))
}


/// The figures after one more line of a block, by the rule of `stat_update`.
fn update_stats(acc: (u64, u64, u64), line: &[char]) -> (r: (u64, u64, u64))
    ensures
        r == stat_update(acc, line@),
{
    let colon = find_char(line, 0, ':');
    proof {
        assert(line@.skip(0) =~= line@);
        lemma_pos_of(line@, ':');
    }
    if colon == line.len() {
        return acc;
    }
    let key = copy_range(line, 0, colon);
    let val = copy_range(line, colon + 1, line.len());
    assert(key@ =~= line@.take(colon as int));
    assert(val@ =~= line@.skip(colon + 1));
    let kb = parse_kb(val.as_slice());
    let k = trimmed(key.as_slice());
    let rss = ['R', 's', 's'];
    let pss = ['P', 's', 's'];
    let private_dirty = ['P', 'r', 'i', 'v', 'a', 't', 'e', '_', 'D', 'i', 'r', 't', 'y'];
    assert(rss@ =~= rss_key());
    assert(pss@ =~= pss_key());
    assert(private_dirty@ =~= private_dirty_key());
    if same_chars(k.as_slice(), rss.as_slice()) {
        (kb, acc.1, acc.2)
    } else if same_chars(k.as_slice(), pss.as_slice()) {
        (acc.0, kb, acc.2)
    } else if same_chars(k.as_slice(), private_dirty.as_slice()) {
        (acc.0, acc.1, kb)
    } else {
        acc
    }
}

/// Reads one block: its header, then the `Rss`, `Pss` and `Private_Dirty`
/// figures of the lines after it. `None` where the block is empty or its
/// first line does not read as a header.
pub fn parse_block(block: &[Vec<char>]) -> (r: Option<MemoryRegion>)
    ensures
        region_of(views(block@)) == (match r {
            Some(m) => Some(m@),
            None => None,
        }),
{
    let ghost b = views(block@);
    if block.len() == 0 {
        return None;
    }
    assert(block@[0]@ == b[0]);
    let (start, end, perms, label) = match parse_header(block[0].as_slice()) {
        Some(h) => h,
        None => return None,
    };
    let mut acc: (u64, u64, u64) = (0, 0, 0);
    let mut i: usize = 1;
    assert(b.drop_first().take(0) =~= Seq::<Seq<char>>::empty());
    while i < block.len()
        invariant
            1 <= i <= block@.len(),
            b == views(block@),
            acc == stats(b.drop_first().take(i - 1)),
        decreases block@.len() - i,
    {
        let ghost rest = b.drop_first();
        assert(rest.take(i as int).drop_last() =~= rest.take(i - 1));
        assert(rest.take(i as int).last() == block@[i as int]@);
        acc = update_stats(acc, block[i].as_slice());
        i += 1;
    }
    assert(b.drop_first().take(i - 1) =~= b.drop_first());
    let label_chars = chars_of(label.as_str());
    let region_type = classify_region(label_chars.as_slice());
    Some(
        MemoryRegion {
            start,
            end,
            size: end.wrapping_sub(start),
            perms,
            region_type,
            label,
            rss: acc.0,
            pss: acc.1,
            private_dirty: acc.2,
        },
    )
}


/// The line lists held by a list of blocks.
pub open spec fn block_views(v: Seq<Vec<Vec<char>>>) -> Seq<Seq<Seq<char>>> {
    Seq::new(v.len(), |i: int| views(v[i]@))
}

/// Whether a line opens a new block.
fn is_header(line: &[char]) -> (r: bool)
    ensures
        r == is_header_line(line@),
{
    if line.len() == 0 {
        return false;
    }
    let u = line[0] as u32;
    (0x30 <= u && u <= 0x39) || (0x61 <= u && u <= 0x66) || (0x41 <= u && u <= 0x46)
}

/// Splits an smaps text into its lines, then its lines into blocks by the
/// rule of `blocks`.
pub fn split_into_blocks(content: &str) -> (out: Vec<Vec<Vec<char>>>)
    ensures
        block_views(out@) == blocks(lines(content@)),
{
    let text = chars_of(content);
    let all = split_lines(text.as_slice());
    let ghost ls = views(all@);
    let mut out: Vec<Vec<Vec<char>>> = Vec::new();
    let mut current: Vec<Vec<char>> = Vec::new();
    let mut i: usize = 0;
    while i < all.len()
        invariant
            i <= all@.len(),
            ls == views(all@),
            i == 0 ==> out@.len() == 0 && current@.len() == 0,
            i > 0 ==> current@.len() > 0 && block_views(out@).push(views(current@)) == blocks(
                ls.take(i as int),
            ),
        decreases all@.len() - i,
    {
        let line = copy_range(all[i].as_slice(), 0, all[i].len());
        assert(line@ =~= ls[i as int]);
        let ghost prefix = ls.take(i + 1);
        assert(prefix.drop_last() =~= ls.take(i as int));
        assert(prefix.last() == line@);
        let ghost before_out = block_views(out@);
        let ghost before_cur = views(current@);
        if is_header(line.as_slice()) && current.len() > 0 {
            let finished = current;
            out.push(finished);
            assert(block_views(out@) =~= before_out.push(before_cur));
            current = Vec::new();
            current.push(line);
            assert(views(current@) =~= seq![line@]);
        } else {
            current.push(line);
            assert(views(current@) =~= before_cur.push(line@));
            if i == 0 {
                assert(views(current@) =~= seq![line@]);
                assert(block_views(out@) =~= Seq::<Seq<Seq<char>>>::empty());
                assert(prefix.len() == 1);
                assert(blocks(prefix.drop_last()) =~= Seq::<Seq<Seq<char>>>::empty());
                assert(blocks(prefix) =~= seq![seq![line@]]);
                assert(block_views(out@).push(views(current@)) =~= seq![seq![line@]]);
            } else {
                let ghost prev = blocks(ls.take(i as int));
                assert(prev =~= before_out.push(before_cur));
                assert(block_views(out@).push(views(current@)) =~= prev.update(
                    prev.len() - 1,
                    prev.last().push(line@),
                ));
            }
        }
        i += 1;
    }
    assert(ls.take(i as int) =~= ls);
    if current.len() > 0 {
        let ghost before_out = block_views(out@);
        let ghost cur = views(current@);
        out.push(current);
        assert(block_views(out@) =~= before_out.push(cur));
    } else {
        assert(ls.len() == 0);
        assert(block_views(out@) =~= Seq::<Seq<Seq<char>>>::empty());
    }
    out
}

/// Reads every region that an smaps text describes, in order.
pub fn parse_smaps(content: &str) -> (regions: Vec<MemoryRegion>)
    ensures
        models(regions@) == smaps_regions(content@),
{
    let bs = split_into_blocks(content);
    let ghost bv = block_views(bs@);
    let mut regions: Vec<MemoryRegion> = Vec::new();
    let mut i: usize = 0;
    assert(bv.take(0) =~= Seq::<Seq<Seq<char>>>::empty());
    assert(models(regions@) =~= Seq::<RegionModel>::empty());
    while i < bs.len()
        invariant
            i <= bs@.len(),
            bv == block_views(bs@),
            models(regions@) == regions_of(bv.take(i as int)),
        decreases bs@.len() - i,
    {
        let ghost prefix = bv.take(i + 1);
        assert(prefix.drop_last() =~= bv.take(i as int));
        assert(prefix.last() == views(bs@[i as int]@));
        let ghost before = models(regions@);
        match parse_block(bs[i].as_slice()) {
            Some(r) => {
                regions.push(r);
                assert(models(regions@) =~= before.push(r@));
            },
            None => {},
        }
        i += 1;
    }
    assert(bv.take(i as int) =~= bv);
    regions
}


// ---------------------------------------------------------------------------
// Laws

/// `blocks` never leaves out a line: a non-empty list of lines has at least
/// one block.
proof fn lemma_blocks_len(ls: Seq<Seq<char>>)
    ensures
        ls.len() == 0 <==> blocks(ls).len() == 0,
    decreases ls.len(),
{
    if ls.len() > 0 {
        lemma_blocks_len(ls.drop_last());
    }
}

/// The blocks cut the lines into runs, one region each: read in order they
/// give back every line; no block is empty; every block after the first
/// opens with a header line; and no header line stands anywhere but first in
/// its block.
pub proof fn lemma_blocks_partition(ls: Seq<Seq<char>>)
    ensures
        blocks(ls).flatten() == ls,
        forall|k: int| 0 <= k < blocks(ls).len() ==> #[trigger] blocks(ls)[k].len() > 0,
        forall|k: int| 0 < k < blocks(ls).len() ==> is_header_line(#[trigger] blocks(ls)[k][0]),
        forall|k: int, j: int|
            0 <= k < blocks(ls).len() && 0 < j < blocks(ls)[k].len() ==> !is_header_line(
                #[trigger] blocks(ls)[k][j],
            ),
    decreases ls.len(),
{
    broadcast use Seq::lemma_flatten_push;

    if ls.len() == 0 {
        assert(blocks(ls) =~= Seq::<Seq<Seq<char>>>::empty());
        assert(blocks(ls).flatten() =~= Seq::<Seq<char>>::empty());
    } else {
        let init = ls.drop_last();
        let l = ls.last();
        let prev = blocks(init);
        lemma_blocks_partition(init);
        lemma_blocks_len(init);
        if ls.len() == 1 || is_header_line(l) {
            assert(blocks(ls) == prev.push(seq![l]));
            assert(prev.push(seq![l]).flatten() =~= prev.flatten() + seq![l]);
            assert(init + seq![l] =~= ls);
            if ls.len() == 1 {
                assert(prev.len() == 0);
            }
        } else {
            let b = prev.last();
            let rest = prev.drop_last();
            assert(prev =~= rest.push(b));
            assert(blocks(ls) =~= rest.push(b.push(l)));
            assert(rest.push(b.push(l)).flatten() =~= rest.flatten() + b.push(l));
            assert(rest.push(b).flatten() =~= rest.flatten() + b);
            assert(rest.flatten() + b.push(l) =~= (rest.flatten() + b).push(l));
            assert(init.push(l) =~= ls);
            assert forall|k: int, j: int|
                0 <= k < blocks(ls).len() && 0 < j < blocks(ls)[k].len() implies !is_header_line(
                #[trigger] blocks(ls)[k][j],
            ) by {
                if k == prev.len() - 1 && j == b.len() {
                    assert(blocks(ls)[k][j] == l);
                } else {
                    assert(blocks(ls)[k][j] == prev[k][j]);
                }
            }
        }
    }
}

/// Every region read has the size `end - start` (wrapping) and the kind that
/// its label tells; none is ever classed `Executable`.
pub proof fn lemma_regions_consistent(s: Seq<char>)
    ensures
        forall|i: int|
            0 <= i < smaps_regions(s).len() ==> {
                let r = #[trigger] smaps_regions(s)[i];
                &&& r.size == r.end.wrapping_sub(r.start)
                &&& r.region_type == classify(r.label)
                &&& r.region_type != RegionType::Executable
            },
{
    lemma_regions_of_consistent(blocks(lines(s)));
}

proof fn lemma_regions_of_consistent(bs: Seq<Seq<Seq<char>>>)
    ensures
        forall|i: int|
            0 <= i < regions_of(bs).len() ==> {
                let r = #[trigger] regions_of(bs)[i];
                &&& r.size == r.end.wrapping_sub(r.start)
                &&& r.region_type == classify(r.label)
                &&& r.region_type != RegionType::Executable
            },
    decreases bs.len(),
{
    if bs.len() > 0 {
        lemma_regions_of_consistent(bs.drop_last());
    }
}

/// The regions of two lists of blocks, one after the other, are the
/// regions of each, one after the other.
pub proof fn lemma_regions_of_concat(b1: Seq<Seq<Seq<char>>>, b2: Seq<Seq<Seq<char>>>)
    ensures
        regions_of(b1 + b2) == regions_of(b1) + regions_of(b2),
    decreases b2.len(),
{
    if b2.len() == 0 {
        assert(b1 + b2 =~= b1);
        assert(regions_of(b1) + regions_of(b2) =~= regions_of(b1));
    } else {
        lemma_regions_of_concat(b1, b2.drop_last());
        assert((b1 + b2).drop_last() =~= b1 + b2.drop_last());
        assert((b1 + b2).last() == b2.last());
        match region_of(b2.last()) {
            Some(r) => {
                assert(regions_of(b1) + regions_of(b2.drop_last()).push(r) =~= (regions_of(b1)
                    + regions_of(b2.drop_last())).push(r));
            },
            None => {},
        }
    }
}

/// Lines that follow a list of lines, starting with a header line, open
/// blocks of their own.
pub proof fn lemma_blocks_concat(l1: Seq<Seq<char>>, l2: Seq<Seq<char>>)
    requires
        l2.len() > 0 ==> is_header_line(l2[0]),
    ensures
        blocks(l1 + l2) == blocks(l1) + blocks(l2),
    decreases l2.len(),
{
    if l2.len() == 0 {
        assert(l1 + l2 =~= l1);
        assert(blocks(l1) + blocks(l2) =~= blocks(l1));
    } else if l2.len() == 1 {
        assert((l1 + l2).drop_last() =~= l1);
        assert((l1 + l2).last() == l2[0]);
        assert(l2.drop_last() =~= Seq::<Seq<char>>::empty());
        assert(blocks(l2.drop_last()) =~= Seq::<Seq<Seq<char>>>::empty());
        assert(l2.last() == l2[0]);
        assert(blocks(l2) =~= seq![seq![l2[0]]]);
        assert(blocks(l1).push(seq![l2[0]]) =~= blocks(l1) + blocks(l2));
    } else {
        lemma_blocks_concat(l1, l2.drop_last());
        assert((l1 + l2).drop_last() =~= l1 + l2.drop_last());
        assert((l1 + l2).last() == l2.last());
        let p1 = blocks(l1);
        let p2 = blocks(l2.drop_last());
        lemma_blocks_len(l2.drop_last());
        if is_header_line(l2.last()) {
            assert((p1 + p2).push(seq![l2.last()]) =~= p1 + p2.push(seq![l2.last()]));
        } else {
            let both = p1 + p2;
            assert(both.last() == p2.last());
            assert(both.update(both.len() - 1, both.last().push(l2.last())) =~= p1 + p2.update(
                p2.len() - 1,
                p2.last().push(l2.last()),
            ));
        }
    }
}

/// Text after a line break splits into lines of its own.
pub proof fn lemma_lines_concat(s1: Seq<char>, s2: Seq<char>)
    requires
        s1.len() > 0 ==> s1.last() == '\n',
    ensures
        lines(s1 + s2) == lines(s1) + lines(s2),
    decreases s1.len(),
{
    if s1.len() == 0 {
        assert(s1 + s2 =~= s2);
        assert(lines(s1) + lines(s2) =~= lines(s2));
    } else {
        let s = s1 + s2;
        crate::text::lemma_pos_of(s1, '\n');
        let k = pos_of(s1, '\n');
        assert(k < s1.len());
        crate::text::lemma_pos_of_exact(s, '\n', k as int);
        assert(s.take(k as int) =~= s1.take(k as int));
        let r1 = s1.skip(k as int + 1);
        assert(s.skip(k as int + 1) =~= r1 + s2);
        if r1.len() > 0 {
            assert(r1.last() == s1.last());
        }
        lemma_lines_concat(r1, s2);
        assert(seq![strip_cr(s1.take(k as int))] + (lines(r1) + lines(s2)) =~= (seq![
            strip_cr(s1.take(k as int)),
        ] + lines(r1)) + lines(s2));
    }
}

/// Text that starts with a hex digit starts with a header line.
proof fn lemma_first_line_header(s: Seq<char>)
    requires
        s.len() > 0,
        is_hex_ascii(s[0]),
    ensures
        lines(s).len() > 0,
        is_header_line(lines(s)[0]),
{
    crate::text::lemma_pos_of(s, '\n');
    let k = pos_of(s, '\n');
    if k < s.len() {
        assert(k > 0);
        assert(s.take(k as int)[0] == s[0]);
        if k == 1 {
            assert(s.take(1).last() == s[0]);
        } else {
            assert(strip_cr(s.take(k as int))[0] == s[0]);
        }
    }
}

/// smaps texts put one after the other read as their regions one after the
/// other, where the first ends with a line break (or is empty) and the
/// second starts with a header (or is empty): each block is read by itself.
pub proof fn lemma_smaps_concat(s1: Seq<char>, s2: Seq<char>)
    requires
        s1.len() > 0 ==> s1.last() == '\n',
        s2.len() > 0 ==> is_hex_ascii(s2[0]),
    ensures
        smaps_regions(s1 + s2) == smaps_regions(s1) + smaps_regions(s2),
{
    lemma_lines_concat(s1, s2);
    if s2.len() > 0 {
        lemma_first_line_header(s2);
    } else {
        assert(lines(s2) =~= Seq::<Seq<char>>::empty());
    }
    lemma_blocks_concat(lines(s1), lines(s2));
    lemma_regions_of_concat(blocks(lines(s1)), blocks(lines(s2)));
}


/// A line opens a block exactly when its first character is an ASCII hex
/// digit: one of `0`-`9`, `a`-`f`, `A`-`F`. An empty line never does.
pub proof fn lemma_header_lines(l: Seq<char>)
    ensures
        is_header_line(l) <==> (l.len() > 0 && (('0' <= l[0] && l[0] <= '9') || ('a' <= l[0]
            && l[0] <= 'f') || ('A' <= l[0] && l[0] <= 'F'))),
{
    if l.len() > 0 {
        lemma_hex_chars(l[0]);
    }
}

/// The ASCII hex digits by their characters.
proof fn lemma_hex_chars(c: char)
    ensures
        is_hex_ascii(c) <==> (('0' <= c && c <= '9') || ('a' <= c && c <= 'f') || ('A' <= c && c
            <= 'F')),
{
    let u = c as u32;
    assert('0' as u32 == 0x30 && '9' as u32 == 0x39);
    assert('a' as u32 == 0x61 && 'f' as u32 == 0x66);
    assert('A' as u32 == 0x41 && 'F' as u32 == 0x46);
    assert(('0' <= c && c <= '9') <==> (0x30 <= u && u <= 0x39));
    assert(('a' <= c && c <= 'f') <==> (0x61 <= u && u <= 0x66));
    assert(('A' <= c && c <= 'F') <==> (0x41 <= u && u <= 0x46));
}

/// A line that starts with an ASCII hex digit (`0`-`9`, `a`-`f`, `A`-`F`),
/// coming after other lines, opens a block of its own; any other line is
/// added to the block before it.
pub proof fn lemma_line_opens_or_joins_block(ls: Seq<Seq<char>>, l: Seq<char>)
    requires
        ls.len() > 0,
    ensures
        (l.len() > 0 && (('0' <= l[0] && l[0] <= '9') || ('a' <= l[0] && l[0] <= 'f') || ('A'
            <= l[0] && l[0] <= 'F'))) ==> blocks(ls.push(l)) == blocks(ls).push(seq![l]),
        !(l.len() > 0 && (('0' <= l[0] && l[0] <= '9') || ('a' <= l[0] && l[0] <= 'f') || ('A'
            <= l[0] && l[0] <= 'F'))) ==> {
            let prev = blocks(ls);
            &&& prev.len() > 0
            &&& blocks(ls.push(l)) == prev.update(prev.len() - 1, prev.last().push(l))
        },
{
    lemma_blocks_len(ls);
    lemma_header_lines(l);
    assert(ls.push(l).drop_last() =~= ls);
    assert(ls.push(l).last() == l);
}

/// A `Key: value` line with no other colon in its key splits at that colon.
proof fn lemma_split_key_line(key: Seq<char>, val: Seq<char>)
    requires
        forall|i: int| 0 <= i < key.len() ==> key[i] != ':',
    ensures
        split_once(key + seq![':'] + val, ':') == Some((key, val)),
{
    let line = key + seq![':'] + val;
    crate::text::lemma_pos_of_exact(line, ':', key.len() as int);
    assert(line.take(key.len() as int) =~= key);
    assert(line.skip(key.len() as int + 1) =~= val);
}

/// In a block's `Key: value` lines only three keys count, each matched
/// exactly once its surrounding whitespace is trimmed: `Rss` sets the rss
/// figure, `Pss` the pss figure and `Private_Dirty` the private dirty figure,
/// each to the value's kB number, leaving the other two; a line with any
/// other key (such as `SwapPss` or `Pss_Dirty`), or with no colon, changes
/// nothing.
pub proof fn lemma_stat_keys(acc: (u64, u64, u64), key: Seq<char>, val: Seq<char>, other: Seq<char>)
    requires
        forall|i: int| 0 <= i < key.len() ==> key[i] != ':',
    ensures
        trim(key) == seq!['R', 's', 's'] ==> stat_update(acc, key + seq![':'] + val) == (
            kb_value(val),
            acc.1,
            acc.2,
        ),
        trim(key) == seq!['P', 's', 's'] ==> stat_update(acc, key + seq![':'] + val) == (
            acc.0,
            kb_value(val),
            acc.2,
        ),
        trim(key) == seq!['P', 'r', 'i', 'v', 'a', 't', 'e', '_', 'D', 'i', 'r', 't', 'y']
            ==> stat_update(acc, key + seq![':'] + val) == (acc.0, acc.1, kb_value(val)),
        (trim(key) != seq!['R', 's', 's'] && trim(key) != seq!['P', 's', 's'] && trim(key)
            != seq!['P', 'r', 'i', 'v', 'a', 't', 'e', '_', 'D', 'i', 'r', 't', 'y']) ==> stat_update(
            acc,
            key + seq![':'] + val,
        ) == acc,
        (forall|i: int| 0 <= i < other.len() ==> other[i] != ':') ==> stat_update(acc, other)
            == acc,
{
    lemma_split_key_line(key, val);
    assert(rss_key() =~= seq!['R', 's', 's']);
    assert(pss_key() =~= seq!['P', 's', 's']);
    assert(private_dirty_key() =~= seq!['P', 'r', 'i', 'v', 'a', 't', 'e', '_', 'D', 'i', 'r', 't', 'y']);
    if forall|i: int| 0 <= i < other.len() ==> other[i] != ':' {
        crate::text::lemma_pos_of_exact(other, ':', other.len() as int);
    }
}

/// Every label that has `.so.` in it, anywhere, is a shared library (unless
/// it is `[heap]` or `[stack]`, which have no `.so.`), and so is every label
/// that ends with `.so`.
pub proof fn lemma_shared_library_labels(p: Seq<char>, q: Seq<char>)
    ensures
        classify(p + seq!['.', 's', 'o', '.'] + q) == RegionType::SharedLib,
        classify(p + seq!['.', 's', 'o']) == RegionType::SharedLib,
{
    lemma_so_dot_inside(p, q);
    lemma_so_at_end(p);
}

proof fn lemma_no_dot_in_labels(l: Seq<char>, i: int)
    requires
        0 <= i < l.len(),
        l[i] == '.',
    ensures
        l != heap_label(),
        l != stack_label(),
{
    if l == heap_label() {
        assert(heap_label()[i] != '.');
    }
    if l == stack_label() {
        assert(stack_label()[i] != '.');
    }
}

proof fn lemma_so_dot_inside(p: Seq<char>, q: Seq<char>)
    ensures
        classify(p + seq!['.', 's', 'o', '.'] + q) == RegionType::SharedLib,
{
    let l = p + seq!['.', 's', 'o', '.'] + q;
    let i = p.len() as int;
    assert(l[i] == '.');
    assert(l.subrange(i, i + 4) =~= seq!['.', 's', 'o', '.']);
    assert(contains_so_dot(l));
    lemma_no_dot_in_labels(l, i);
}

proof fn lemma_so_at_end(p: Seq<char>)
    ensures
        classify(p + seq!['.', 's', 'o']) == RegionType::SharedLib,
{
    let e = p + seq!['.', 's', 'o'];
    let i = p.len() as int;
    assert(e[i] == '.');
    assert(e.skip(e.len() - 3) =~= seq!['.', 's', 'o']);
    lemma_no_dot_in_labels(e, i);
}

/// What each label is classed as, told by its characters: exactly `[heap]`
/// is the heap, exactly `[stack]` the stack, the empty label an anonymous
/// mapping; a label with no `.so.` anywhere in it and not ending with `.so`
/// is some other mapping; and no label is classed as an executable.
pub proof fn lemma_label_kinds(l: Seq<char>)
    ensures
        classify(l) == RegionType::Heap <==> l == seq!['[', 'h', 'e', 'a', 'p', ']'],
        classify(l) == RegionType::Stack <==> l == seq!['[', 's', 't', 'a', 'c', 'k', ']'],
        classify(l) == RegionType::Anonymous <==> l.len() == 0,
        classify(l) != RegionType::Executable,
        (l != seq!['[', 'h', 'e', 'a', 'p', ']'] && l != seq!['[', 's', 't', 'a', 'c', 'k', ']']
            && l.len() > 0 && !(l.len() >= 3 && l[l.len() - 3] == '.' && l[l.len() - 2] == 's'
            && l[l.len() - 1] == 'o') && (forall|i: int|
            0 <= i && i + 4 <= l.len() ==> !(l[i] == '.' && l[i + 1] == 's' && l[i + 2] == 'o'
                && #[trigger] l[i + 3] == '.'))) ==> classify(l) == RegionType::Other,
{
    assert(heap_label() =~= seq!['[', 'h', 'e', 'a', 'p', ']']);
    assert(stack_label() =~= seq!['[', 's', 't', 'a', 'c', 'k', ']']);
    if l.len() >= 3 && ends_with_so(l) {
        assert(l.skip(l.len() - 3)[0] == l[l.len() - 3]);
        assert(l.skip(l.len() - 3)[1] == l[l.len() - 2]);
        assert(l.skip(l.len() - 3)[2] == l[l.len() - 1]);
    }
    if contains_so_dot(l) {
        let i = choose|i: int|
            0 <= i && i + 4 <= l.len() && #[trigger] l.subrange(i, i + 4) == seq!['.', 's', 'o', '.'];
        let sub = l.subrange(i, i + 4);
        assert(sub[0] == l[i]);
        assert(sub[1] == l[i + 1]);
        assert(sub[2] == l[i + 2]);
        assert(sub[3] == l[i + 3]);
    }
}


/// Each access flag is set by its own letter in its own place: `r` first,
/// `w` second, `x` third and `s` (shared) fourth; any other character there,
/// or a column too short to reach it, leaves the flag clear.
pub proof fn lemma_permission_letters(c: Seq<char>)
    ensures
        perms_of(c).read <==> (c.len() >= 1 && c[0] == 'r'),
        perms_of(c).write <==> (c.len() >= 2 && c[1] == 'w'),
        perms_of(c).execute <==> (c.len() >= 3 && c[2] == 'x'),
        perms_of(c).shared <==> (c.len() >= 4 && c[3] == 's'),
{
}

/// The kB figure of a field is its first word read as a decimal number, or
/// 0: leading whitespace is skipped, whatever follows the first word is
/// ignored, and a field with no word, or a first word that is no number,
/// gives 0.
pub proof fn lemma_kb_fields(c: char, w: Seq<char>, rest: Seq<char>)
    requires
        crate::text::is_space(c),
    ensures
        kb_value(Seq::<char>::empty()) == 0,
        kb_value(seq![c] + rest) == kb_value(rest),
        (w.len() > 0 && forall|i: int| 0 <= i < w.len() ==> !crate::text::is_space(w[i]))
            ==> kb_value(w + seq![c] + rest) == (match parse_unsigned(w, 10) {
            Some(n) => n,
            None => 0,
        }),
{
    crate::text::lemma_words_split(Seq::<char>::empty(), c, rest);
    assert(Seq::<char>::empty() + seq![c] + rest =~= seq![c] + rest);
    assert(Seq::<Seq<char>>::empty() + words(rest) =~= words(rest));
    crate::text::lemma_words_split(w, c, rest);
}

/// A header line reads as its range, its flags and its label: for a line
/// `a-b perms w2 w3 w4 ...` whose `a` holds no `-` and whose words are
/// separated by whitespace, the start and end are `a` and `b` read in hex
/// (the line reads as no header where either fails), the flags come from
/// `perms`, and the label is the sixth word, or empty where there is none.
pub proof fn lemma_header_reading(
    a: Seq<char>,
    b: Seq<char>,
    c: char,
    perms: Seq<char>,
    d: char,
    rest: Seq<char>,
)
    requires
        crate::text::is_space(c),
        crate::text::is_space(d),
        forall|i: int| 0 <= i < a.len() ==> a[i] != '-' && !crate::text::is_space(a[i]),
        forall|i: int| 0 <= i < b.len() ==> !crate::text::is_space(b[i]),
        perms.len() > 0,
        forall|i: int| 0 <= i < perms.len() ==> !crate::text::is_space(perms[i]),
    ensures
        header_fields(a + seq!['-'] + b + seq![c] + perms + seq![d] + rest) == (match (
            parse_unsigned(a, 16),
            parse_unsigned(b, 16),
        ) {
            (Some(start), Some(end)) => Some(
                (start, end, perms_of(perms), if words(rest).len() > 3 {
                    words(rest)[3]
                } else {
                    Seq::<char>::empty()
                }),
            ),
            _ => None,
        }),
{
    let range = a + seq!['-'] + b;
    let line = a + seq!['-'] + b + seq![c] + perms + seq![d] + rest;
    assert forall|i: int| 0 <= i < range.len() implies !crate::text::is_space(range[i]) by {
        if i < a.len() {
            assert(range[i] == a[i]);
        } else if i == a.len() {
            assert(range[i] == '-');
            crate::text::lemma_space_chars('-');
        } else {
            assert(range[i] == b[i - a.len() - 1]);
        }
    }
    let tail = perms + seq![d] + rest;
    assert(line =~= range + seq![c] + tail);
    crate::text::lemma_words_split(range, c, tail);
    crate::text::lemma_words_split(perms, d, rest);
    let ws = words(line);
    assert(ws =~= seq![range] + (seq![perms] + words(rest)));
    crate::text::lemma_split_once_at(a, '-', b);
    if words(rest).len() > 3 {
        assert(ws[5] == words(rest)[3]);
    }
}

/// A block reads as the region of its header line, with every figure 0
/// until a line sets it; a block whose first line is no header reads as
/// none.
pub proof fn lemma_header_block(h: Seq<char>)
    ensures
        region_of(seq![h]) == (match header_fields(h) {
            Some((start, end, perms, label)) => Some(
                RegionModel {
                    start,
                    end,
                    size: end.wrapping_sub(start),
                    perms,
                    region_type: classify(label),
                    label,
                    rss: 0,
                    pss: 0,
                    private_dirty: 0,
                },
            ),
            None => None,
        }),
{
    assert(seq![h].drop_first() =~= Seq::<Seq<char>>::empty());
}

/// One more `Key: value` line in a block: a trimmed key of exactly `Rss`,
/// `Pss` or `Private_Dirty` sets that figure of the block's region to the
/// value's kB number and leaves everything else; any other key, and any line
/// with no colon, leaves the region as it was.
pub proof fn lemma_block_line(b: Seq<Seq<char>>, key: Seq<char>, val: Seq<char>, other: Seq<char>)
    requires
        b.len() > 0,
        forall|i: int| 0 <= i < key.len() ==> key[i] != ':',
    ensures
        ({
            let after = region_of(b.push(key + seq![':'] + val));
            match region_of(b) {
                None => after is None,
                Some(r) => after == Some(
                    if trim(key) == seq!['R', 's', 's'] {
                        RegionModel { rss: kb_value(val), ..r }
                    } else if trim(key) == seq!['P', 's', 's'] {
                        RegionModel { pss: kb_value(val), ..r }
                    } else if trim(key) == seq![
                        'P',
                        'r',
                        'i',
                        'v',
                        'a',
                        't',
                        'e',
                        '_',
                        'D',
                        'i',
                        'r',
                        't',
                        'y',
                    ] {
                        RegionModel { private_dirty: kb_value(val), ..r }
                    } else {
                        r
                    },
                ),
            }
        }),
        (forall|i: int| 0 <= i < other.len() ==> other[i] != ':') ==> region_of(b.push(other))
            == region_of(b),
{
    let line = key + seq![':'] + val;
    assert(b.push(line)[0] == b[0]);
    assert(b.push(line).drop_first() =~= b.drop_first().push(line));
    assert(b.drop_first().push(line).drop_last() =~= b.drop_first());
    assert(b.push(other)[0] == b[0]);
    assert(b.push(other).drop_first() =~= b.drop_first().push(other));
    assert(b.drop_first().push(other).drop_last() =~= b.drop_first());
    lemma_stat_keys(stats(b.drop_first()), key, val, other);
}

/// A single block reads as its region, where it has one, and as nothing
/// otherwise.
pub proof fn lemma_single_block(b: Seq<Seq<char>>)
    ensures
        regions_of(seq![b]) == (match region_of(b) {
            Some(r) => seq![r],
            None => Seq::<RegionModel>::empty(),
        }),
{
    assert(seq![b].drop_last() =~= Seq::<Seq<Seq<char>>>::empty());
    assert(seq![b].last() == b);
    assert(regions_of(seq![b].drop_last()) =~= Seq::<RegionModel>::empty());
    match region_of(b) {
        Some(r) => {
            assert(Seq::<RegionModel>::empty().push(r) =~= seq![r]);
        },
        None => {},
    }
}

} // verus!
