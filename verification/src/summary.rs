//! What the listing of a process shows of each region and of all of them:
//! the `rwxp` column, the label with its warning, and the totals.
use vstd::prelude::*;
use crate::parser::perms_of;
use crate::types::{MemoryRegion, Permissions};

verus! {

/// 2^64: the sums below are taken modulo it, as a release build's
/// wrapping addition does.
pub open spec fn word_modulus() -> nat {
    0x1_0000_0000_0000_0000
}

/// The sum of the `rss` figures of `rs`.
pub open spec fn sum_rss(rs: Seq<MemoryRegion>) -> nat
    decreases rs.len(),
{
    if rs.len() == 0 {
        0
    } else {
        sum_rss(rs.drop_last()) + rs.last().rss as nat
    }
}

/// The sum of the `private_dirty` figures of `rs`.
pub open spec fn sum_private_dirty(rs: Seq<MemoryRegion>) -> nat
    decreases rs.len(),
{
    if rs.len() == 0 {
        0
    } else {
        sum_private_dirty(rs.drop_last()) + rs.last().private_dirty as nat
    }
}

/// How many of `rs` are readable, writable and executable at once.
pub open spec fn suspicious_in(rs: Seq<MemoryRegion>) -> nat
    decreases rs.len(),
{
    if rs.len() == 0 {
        0
    } else {
        suspicious_in(rs.drop_last()) + if rs.last().perms.spec_is_suspicious() {
            1nat
        } else {
            0nat
        }
    }
}

proof fn lemma_wrapping_step(acc: u64, total: nat, x: u64)
    requires
        acc == total % word_modulus(),
    ensures
        acc.wrapping_add(x) == (total + x as nat) % word_modulus(),
{
    let m = word_modulus() as int;
    vstd::arithmetic::div_mod::lemma_add_mod_noop(total as int, x as int, m);
    vstd::arithmetic::div_mod::lemma_small_mod(x as nat, m as nat);
    if acc + x < m {
        vstd::arithmetic::div_mod::lemma_small_mod((acc + x) as nat, m as nat);
    } else {
        vstd::arithmetic::div_mod::lemma_mod_add_multiples_vanish((acc + x - m) as int, m);
        vstd::arithmetic::div_mod::lemma_small_mod((acc + x - m) as nat, m as nat);
    }
}

/// The resident memory of all `regions`, in kB.
pub fn total_rss(regions: &[MemoryRegion]) -> (t: u64)
    ensures
        t == sum_rss(regions@) % word_modulus(),
{
    let mut t: u64 = 0;
    let mut i: usize = 0;
    while i < regions.len()
        invariant
            i <= regions@.len(),
            t == sum_rss(regions@.take(i as int)) % word_modulus(),
        decreases regions@.len() - i,
    {
        assert(regions@.take(i + 1).drop_last() =~= regions@.take(i as int));
        proof {
            lemma_wrapping_step(t, sum_rss(regions@.take(i as int)), regions@[i as int].rss);
        }
        t = t.wrapping_add(regions[i].rss);
        i += 1;
    }
    assert(regions@.take(i as int) =~= regions@);
    t
}

/// The private dirty memory of all `regions`, in kB.
pub fn total_private_dirty(regions: &[MemoryRegion]) -> (t: u64)
    ensures
        t == sum_private_dirty(regions@) % word_modulus(),
{
    let mut t: u64 = 0;
    let mut i: usize = 0;
    while i < regions.len()
        invariant
            i <= regions@.len(),
            t == sum_private_dirty(regions@.take(i as int)) % word_modulus(),
        decreases regions@.len() - i,
    {
        assert(regions@.take(i + 1).drop_last() =~= regions@.take(i as int));
        proof {
            lemma_wrapping_step(
                t,
                sum_private_dirty(regions@.take(i as int)),
                regions@[i as int].private_dirty,
            );
        }
        t = t.wrapping_add(regions[i].private_dirty);
        i += 1;
    }
    assert(regions@.take(i as int) =~= regions@);
    t
}

/// How many `regions` are readable, writable and executable at once.
pub fn count_suspicious(regions: &[MemoryRegion]) -> (n: usize)
    ensures
        n == suspicious_in(regions@),
{
    let mut n: usize = 0;
    let mut i: usize = 0;
    while i < regions.len()
        invariant
            i <= regions@.len(),
            n == suspicious_in(regions@.take(i as int)),
            n <= i,
        decreases regions@.len() - i,
    {
        assert(regions@.take(i + 1).drop_last() =~= regions@.take(i as int));
        if regions[i].perms.is_suspicious() {
            n += 1;
        }
        i += 1;
    }
    assert(regions@.take(i as int) =~= regions@);
    n
}

/// The `rwxp` column: `r`, `w`, `x` or `-` for the first three flags, then
/// `s` for shared or `p` for private.
pub open spec fn perms_column(p: Permissions) -> Seq<char> {
    seq![
        if p.read { 'r' } else { '-' },
        if p.write { 'w' } else { '-' },
        if p.execute { 'x' } else { '-' },
        if p.shared { 's' } else { 'p' },
    ]
}

/// The `rwxp` column of `p`.
pub fn perms_text(p: &Permissions) -> (s: String)
    ensures
        s@ == perms_column(*p),
{
    let mut s = String::new();
    s.append(if p.read { "r" } else { "-" });
    s.append(if p.write { "w" } else { "-" });
    s.append(if p.execute { "x" } else { "-" });
    s.append(if p.shared { "s" } else { "p" });
    proof {
        reveal_strlit("r");
        reveal_strlit("w");
        reveal_strlit("x");
        reveal_strlit("s");
        reveal_strlit("p");
        reveal_strlit("-");
    }
    assert(s@ =~= perms_column(*p));
    s
}

/// The label column: the label, followed by ` ⚠ RWX` where the region is
/// readable, writable and executable at once.
pub fn label_text(r: &MemoryRegion) -> (s: String)
    ensures
        s@ == (if r.perms.spec_is_suspicious() {
            r.label@ + " \u{26A0} RWX"@
        } else {
            r.label@
        }),
{
    let mut s = String::new();
    s.append(r.label.as_str());
    if r.perms.is_suspicious() {
        s.append(" \u{26A0} RWX");
    }
    assert(Seq::<char>::empty() + r.label@ =~= r.label@);
    s
}

impl MemoryRegion {
    /// The size of the mapping in whole kB.
    pub fn size_kb(&self) -> (k: u64)
        ensures
            k == self.size / 1024,
    {
        self.size / 1024
    }
}


/// A `rwxp` column in the form that the listing writes.
pub open spec fn is_perms_column(c: Seq<char>) -> bool {
    &&& c.len() == 4
    &&& (c[0] == 'r' || c[0] == '-')
    &&& (c[1] == 'w' || c[1] == '-')
    &&& (c[2] == 'x' || c[2] == '-')
    &&& (c[3] == 's' || c[3] == 'p')
}

/// Writing the flags that a column was read into gives back that column,
/// wherever it had the written form; and reading a written column gives
/// back the flags.
pub proof fn lemma_perms_round_trip(c: Seq<char>, p: Permissions)
    ensures
        is_perms_column(c) ==> perms_column(perms_of(c)) == c,
        perms_of(perms_column(p)) == p,
        is_perms_column(perms_column(p)),
{
    if is_perms_column(c) {
        assert(perms_column(perms_of(c)) =~= c);
    }
}


/// The total resident memory adds up each region's `rss` figure: nothing for
/// no regions, a region's own `rss` for one, and the sum of the two totals
/// for two lists put together.
pub proof fn lemma_sum_rss_adds(a: Seq<MemoryRegion>, b: Seq<MemoryRegion>, r: MemoryRegion)
    ensures
        sum_rss(Seq::<MemoryRegion>::empty()) == 0,
        sum_rss(seq![r]) == r.rss as nat,
        sum_rss(a + b) == sum_rss(a) + sum_rss(b),
    decreases b.len(),
{
    assert(seq![r].drop_last() =~= Seq::<MemoryRegion>::empty());
    if b.len() == 0 {
        assert(a + b =~= a);
    } else {
        lemma_sum_rss_adds(a, b.drop_last(), r);
        assert((a + b).drop_last() =~= a + b.drop_last());
        assert((a + b).last() == b.last());
    }
}

/// The total private dirty memory adds up each region's `private_dirty`
/// figure, in the same way.
pub proof fn lemma_sum_private_dirty_adds(a: Seq<MemoryRegion>, b: Seq<MemoryRegion>, r: MemoryRegion)
    ensures
        sum_private_dirty(Seq::<MemoryRegion>::empty()) == 0,
        sum_private_dirty(seq![r]) == r.private_dirty as nat,
        sum_private_dirty(a + b) == sum_private_dirty(a) + sum_private_dirty(b),
    decreases b.len(),
{
    assert(seq![r].drop_last() =~= Seq::<MemoryRegion>::empty());
    if b.len() == 0 {
        assert(a + b =~= a);
    } else {
        lemma_sum_private_dirty_adds(a, b.drop_last(), r);
        assert((a + b).drop_last() =~= a + b.drop_last());
        assert((a + b).last() == b.last());
    }
}

/// The suspicious count counts a region exactly when it is readable,
/// writable and executable, and counts two lists put together as the sum
/// of their counts.
pub proof fn lemma_suspicious_counts(a: Seq<MemoryRegion>, b: Seq<MemoryRegion>, r: MemoryRegion)
    ensures
        suspicious_in(Seq::<MemoryRegion>::empty()) == 0,
        suspicious_in(seq![r]) == (if r.perms.read && r.perms.write && r.perms.execute {
            1nat
        } else {
            0nat
        }),
        suspicious_in(a + b) == suspicious_in(a) + suspicious_in(b),
    decreases b.len(),
{
    assert(seq![r].drop_last() =~= Seq::<MemoryRegion>::empty());
    assert(suspicious_in(seq![r].drop_last()) == 0);
    assert(seq![r].last() == r);
    if b.len() == 0 {
        assert(a + b =~= a);
    } else {
        lemma_suspicious_counts(a, b.drop_last(), r);
        assert((a + b).drop_last() =~= a + b.drop_last());
        assert((a + b).last() == b.last());
    }
}

/// The label column carries the ` ⚠ RWX` mark exactly for a region that is
/// readable, writable and executable.
pub proof fn lemma_label_mark(r: MemoryRegion)
    ensures
        r.perms.spec_is_suspicious() <==> (r.perms.read && r.perms.write && r.perms.execute),
{
}

} // verus!
