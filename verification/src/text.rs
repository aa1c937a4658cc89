//! Character-level building blocks: the whitespace, digit and line rules that
//! the smaps format is read with, each stated over `Seq<char>` and implemented
//! on `char` slices in one pass.
use vstd::prelude::*;

verus! {

/// Unicode `White_Space`, the set that `char::is_whitespace` tests for.
pub open spec fn is_space(c: char) -> bool {
    let u = c as u32;
    ||| 0x09 <= u <= 0x0D
    ||| u == 0x20
    ||| u == 0x85
    ||| u == 0xA0
    ||| u == 0x1680
    ||| 0x2000 <= u <= 0x200A
    ||| u == 0x2028
    ||| u == 0x2029
    ||| u == 0x202F
    ||| u == 0x205F
    ||| u == 0x3000
}

/// Whether `c` is Unicode whitespace.
pub fn is_space_char(c: char) -> (r: bool)
    ensures
        r == is_space(c),
{
    let u = c as u32;
    (0x09 <= u && u <= 0x0D) || u == 0x20 || u == 0x85 || u == 0xA0 || u == 0x1680 || (0x2000
        <= u && u <= 0x200A) || u == 0x2028 || u == 0x2029 || u == 0x202F || u == 0x205F || u
        == 0x3000
}

/// The characters of `s`, in order.
pub fn chars_of(s: &str) -> (v: Vec<char>)
    ensures
        v@ == s@,
{
    let mut v: Vec<char> = Vec::new();
    for c in it: s.chars()
        invariant
            v@ == it.seq().take(it.index() as int),
            it.seq() == s@,
    {
        v.push(c);
    }
    v
}


/// Appends one character to a `String`.
///
/// Trusted: `String::push` from std, which its documentation says appends the
/// given `char` to the end of the string.
#[verifier::external_body]
fn push_char(s: &mut String, c: char)
    ensures
        final(s)@ == old(s)@.push(c),
{
    s.push(c);
}

/// A `String` holding exactly the characters of `cs`.
pub fn string_of(cs: &[char]) -> (s: String)
    ensures
        s@ == cs@,
{
    let mut s = String::new();
    let mut i: usize = 0;
    while i < cs.len()
        invariant
            i <= cs@.len(),
            s@ == cs@.take(i as int),
        decreases cs@.len() - i,
    {
        push_char(&mut s, cs[i]);
        i += 1;
        assert(s@ =~= cs@.take(i as int));
    }
    assert(cs@.take(i as int) =~= cs@);
    s
}

/// Whether `a` and `b` hold the same characters.
pub fn same_chars(a: &[char], b: &[char]) -> (r: bool)
    ensures
        r == (a@ == b@),
{
    if a.len() != b.len() {
        return false;
    }
    let mut i: usize = 0;
    while i < a.len()
        invariant
            a@.len() == b@.len(),
            i <= a@.len(),
            forall|k: int| 0 <= k < i ==> a@[k] == b@[k],
        decreases a@.len() - i,
    {
        if a[i] != b[i] {
            return false;
        }
        i += 1;
    }
    assert(a@ =~= b@);
    true
}

// ---------------------------------------------------------------------------
// Positions of a character

/// The index of the first `c` in `s`, or the length of `s` where there is none.
pub open spec fn pos_of(s: Seq<char>, c: char) -> nat
    decreases s.len(),
{
    if s.len() == 0 || s[0] == c {
        0
    } else {
        1 + pos_of(s.drop_first(), c)
    }
}

/// `pos_of` is the first occurrence: everything before it differs from `c`.
pub proof fn lemma_pos_of(s: Seq<char>, c: char)
    ensures
        pos_of(s, c) <= s.len(),
        forall|i: int| 0 <= i < pos_of(s, c) ==> s[i] != c,
        pos_of(s, c) < s.len() ==> s[pos_of(s, c) as int] == c,
    decreases s.len(),
{
    if s.len() > 0 && s[0] != c {
        lemma_pos_of(s.drop_first(), c);
        assert forall|i: int| 0 <= i < pos_of(s, c) implies s[i] != c by {
            if i > 0 {
                assert(s[i] == s.drop_first()[i - 1]);
            }
        }
    }
}

/// A position with no `c` before it and `c` (or the end) at it is `pos_of`.
pub proof fn lemma_pos_of_exact(s: Seq<char>, c: char, k: int)
    requires
        0 <= k <= s.len(),
        forall|i: int| 0 <= i < k ==> s[i] != c,
        k < s.len() ==> s[k] == c,
    ensures
        pos_of(s, c) == k,
    decreases s.len(),
{
    if k > 0 {
        lemma_pos_of_exact(s.drop_first(), c, k - 1);
    }
}

/// Scans `s` from `from` for the first `c`; gives the length of `s` where none follows.
pub fn find_char(s: &[char], from: usize, c: char) -> (k: usize)
    requires
        from <= s@.len(),
    ensures
        from <= k <= s@.len(),
        k == from + pos_of(s@.skip(from as int), c),
{
    let mut k = from;
    while k < s.len() && s[k] != c
        invariant
            from <= k <= s@.len(),
            forall|i: int| from <= i < k ==> s@[i] != c,
        decreases s@.len() - k,
    {
        k += 1;
    }
    proof {
        lemma_pos_of_exact(s@.skip(from as int), c, (k - from) as int);
    }
    k
}

/// Splits `s` at its first `c`: what stands before it and what follows it.
pub open spec fn split_once(s: Seq<char>, c: char) -> Option<(Seq<char>, Seq<char>)> {
    let k = pos_of(s, c);
    if k < s.len() {
        Some((s.take(k as int), s.skip(k as int + 1)))
    } else {
        None
    }
}

// ---------------------------------------------------------------------------
// Lines

/// A line without the `\r` of a `\r\n` ending.
pub open spec fn strip_cr(l: Seq<char>) -> Seq<char> {
    if l.len() > 0 && l.last() == '\r' {
        l.drop_last()
    } else {
        l
    }
}

/// The lines of `s` as `str::lines` yields them: split at each `\n`, with a
/// `\r` right before the `\n` removed; a last line without `\n` is kept as it
/// stands, and a `\n` at the very end opens no empty line.
pub open spec fn lines(s: Seq<char>) -> Seq<Seq<char>>
    decreases s.len(),
{
    if s.len() == 0 {
        seq![]
    } else {
        let k = pos_of(s, '\n');
        proof {
            lemma_pos_of(s, '\n');
        }
        if k == s.len() {
            seq![s]
        } else {
            seq![strip_cr(s.take(k as int))] + lines(s.skip(k as int + 1))
        }
    }
}

/// Copies `s[from..to]`.
pub fn copy_range(s: &[char], from: usize, to: usize) -> (r: Vec<char>)
    requires
        from <= to <= s@.len(),
    ensures
        r@ == s@.subrange(from as int, to as int),
{
    let mut r: Vec<char> = Vec::new();
    let mut i = from;
    while i < to
        invariant
            from <= i <= to <= s@.len(),
            r@ == s@.subrange(from as int, i as int),
        decreases to - i,
    {
        r.push(s[i]);
        i += 1;
        assert(r@ =~= s@.subrange(from as int, i as int));
    }
    r
}

/// The character sequences held by a list of character vectors.
pub open spec fn views(v: Seq<Vec<char>>) -> Seq<Seq<char>> {
    Seq::new(v.len(), |i: int| v[i]@)
}

/// The lines of `s`, by the rule of `lines`.
pub fn split_lines(s: &[char]) -> (out: Vec<Vec<char>>)
    ensures
        views(out@) == lines(s@),
{
    let mut out: Vec<Vec<char>> = Vec::new();
    let mut i: usize = 0;
    assert(s@.skip(0) =~= s@);
    while i < s.len()
        invariant
            i <= s@.len(),
            lines(s@) == views(out@) + lines(s@.skip(i as int)),
        decreases s@.len() - i,
    {
        let j = find_char(s, i, '\n');
        let ghost rest = s@.skip(i as int);
        proof {
            lemma_pos_of(rest, '\n');
        }
        let ghost before = views(out@);
        if j == s.len() {
            let line = copy_range(s, i, j);
            assert(line@ =~= rest);
            out.push(line);
            assert(views(out@) =~= before.push(rest));
            i = j;
            assert(s@.skip(i as int) =~= Seq::<char>::empty());
            assert(lines(s@) == views(out@) + lines(s@.skip(i as int))) by {
                assert(before + seq![rest] =~= before.push(rest));
                assert(views(out@) + Seq::<Seq<char>>::empty() =~= views(out@));
            }
        } else {
            let end = if j > i && s[j - 1] == '\r' { j - 1 } else { j };
            let line = copy_range(s, i, end);
            assert(line@ =~= strip_cr(rest.take(j - i))) by {
                assert(rest.take(j - i) =~= s@.subrange(i as int, j as int));
            }
            out.push(line);
            assert(rest.skip(j - i + 1) =~= s@.skip(j + 1));
            assert(lines(s@) == views(out@) + lines(s@.skip(j + 1))) by {
                assert(views(out@) =~= before.push(line@));
                assert(before + (seq![line@] + lines(s@.skip(j + 1))) =~= before.push(line@)
                    + lines(s@.skip(j + 1)));
            }
            i = j + 1;
        }
    }
    assert(s@.skip(i as int) =~= Seq::<char>::empty());
    assert(views(out@) + Seq::<Seq<char>>::empty() =~= views(out@));
    out
}


// ---------------------------------------------------------------------------
// Whitespace-separated words

/// The length of the run of non-whitespace characters that `s` starts with.
pub open spec fn word_len(s: Seq<char>) -> nat
    decreases s.len(),
{
    if s.len() == 0 || is_space(s[0]) {
        0
    } else {
        1 + word_len(s.drop_first())
    }
}

pub proof fn lemma_word_len(s: Seq<char>)
    ensures
        word_len(s) <= s.len(),
        forall|i: int| 0 <= i < word_len(s) ==> !is_space(s[i]),
        word_len(s) < s.len() ==> is_space(s[word_len(s) as int]),
    decreases s.len(),
{
    if s.len() > 0 && !is_space(s[0]) {
        lemma_word_len(s.drop_first());
        assert forall|i: int| 0 <= i < word_len(s) implies !is_space(s[i]) by {
            if i > 0 {
                assert(s[i] == s.drop_first()[i - 1]);
            }
        }
    }
}

pub proof fn lemma_word_len_exact(s: Seq<char>, k: int)
    requires
        0 <= k <= s.len(),
        forall|i: int| 0 <= i < k ==> !is_space(s[i]),
        k < s.len() ==> is_space(s[k]),
    ensures
        word_len(s) == k,
    decreases s.len(),
{
    if k > 0 {
        lemma_word_len_exact(s.drop_first(), k - 1);
    }
}

/// The whitespace-separated words of `s`, as `str::split_whitespace` yields
/// them: the maximal runs of non-whitespace characters, in order.
pub open spec fn words(s: Seq<char>) -> Seq<Seq<char>>
    decreases s.len(),
{
    if s.len() == 0 {
        seq![]
    } else if is_space(s[0]) {
        words(s.drop_first())
    } else {
        let n = word_len(s);
        proof {
            lemma_word_len(s);
        }
        seq![s.take(n as int)] + words(s.skip(n as int))
    }
}

/// The words of `s`, by the rule of `words`.
pub fn split_words(s: &[char]) -> (out: Vec<Vec<char>>)
    ensures
        views(out@) == words(s@),
{
    let mut out: Vec<Vec<char>> = Vec::new();
    let mut i: usize = 0;
    assert(s@.skip(0) =~= s@);
    while i < s.len()
        invariant
            i <= s@.len(),
            words(s@) == views(out@) + words(s@.skip(i as int)),
        decreases s@.len() - i,
    {
        let ghost rest = s@.skip(i as int);
        if is_space_char(s[i]) {
            assert(rest.drop_first() =~= s@.skip(i + 1));
            i += 1;
        } else {
            let mut j = i;
            while j < s.len() && !is_space_char(s[j])
                invariant
                    i <= j <= s@.len(),
                    forall|k: int| i <= k < j ==> !is_space(s@[k]),
                decreases s@.len() - j,
            {
                j += 1;
            }
            proof {
                lemma_word_len_exact(rest, j - i);
                lemma_word_len(rest);
            }
            let w = copy_range(s, i, j);
            let ghost before = views(out@);
            out.push(w);
            assert(views(out@) =~= before.push(w@));
            assert(rest.take(j - i) =~= w@);
            assert(rest.skip(j - i) =~= s@.skip(j as int));
            assert(before + (seq![w@] + words(s@.skip(j as int))) =~= before.push(w@) + words(
                s@.skip(j as int),
            ));
            i = j;
        }
    }
    assert(s@.skip(i as int) =~= Seq::<char>::empty());
    assert(views(out@) + Seq::<Seq<char>>::empty() =~= views(out@));
    out
}

// ---------------------------------------------------------------------------
// Trimming

/// `s` without its leading whitespace.
pub open spec fn trim_start(s: Seq<char>) -> Seq<char>
    decreases s.len(),
{
    if s.len() > 0 && is_space(s[0]) {
        trim_start(s.drop_first())
    } else {
        s
    }
}

/// `s` without its trailing whitespace.
pub open spec fn trim_end(s: Seq<char>) -> Seq<char>
    decreases s.len(),
{
    if s.len() > 0 && is_space(s.last()) {
        trim_end(s.drop_last())
    } else {
        s
    }
}

/// `s` without leading and trailing whitespace, as `str::trim` gives it.
pub open spec fn trim(s: Seq<char>) -> Seq<char> {
    trim_end(trim_start(s))
}

/// The characters of `s` without leading and trailing whitespace.
pub fn trimmed(s: &[char]) -> (r: Vec<char>)
    ensures
        r@ == trim(s@),
{
    let mut lo: usize = 0;
    assert(s@.skip(0) =~= s@);
    while lo < s.len() && is_space_char(s[lo])
        invariant
            lo <= s@.len(),
            trim_start(s@) == trim_start(s@.skip(lo as int)),
        decreases s@.len() - lo,
    {
        assert(s@.skip(lo as int).drop_first() =~= s@.skip(lo + 1));
        lo += 1;
    }
    let ghost t = s@.skip(lo as int);
    assert(trim_start(s@) == t);
    let mut hi: usize = s.len();
    assert(t.take(t.len() as int) =~= t);
    while hi > lo && is_space_char(s[hi - 1])
        invariant
            lo <= hi <= s@.len(),
            t == s@.skip(lo as int),
            trim_end(t) == trim_end(t.take(hi - lo)),
        decreases hi,
    {
        assert(t.take(hi - lo).drop_last() =~= t.take(hi - 1 - lo));
        hi -= 1;
    }
    assert(t.take(hi - lo) =~= s@.subrange(lo as int, hi as int));
    copy_range(s, lo, hi)
}

// ---------------------------------------------------------------------------
// Unsigned numbers

/// The value of `c` as a digit in base `radix`, as `char::to_digit` gives it.
pub open spec fn digit_of(c: char, radix: nat) -> Option<nat> {
    let u = c as u32;
    let d: int = if 0x30 <= u <= 0x39 {
        u - 0x30
    } else if 0x61 <= u <= 0x7A {
        u - 0x61 + 10
    } else if 0x41 <= u <= 0x5A {
        u - 0x41 + 10
    } else {
        radix as int
    };
    if d < radix {
        Some(d as nat)
    } else {
        None
    }
}

/// The digit value of `c`, or 0 where it is no digit.
pub open spec fn digit_value(c: char, radix: nat) -> nat {
    match digit_of(c, radix) {
        Some(d) => d,
        None => 0,
    }
}

/// The number that the digits `d` write in base `radix`.
pub open spec fn digits_value(d: Seq<char>, radix: nat) -> nat
    decreases d.len(),
{
    if d.len() == 0 {
        0
    } else {
        digits_value(d.drop_last(), radix) * radix + digit_value(d.last(), radix)
    }
}

/// Every character of `d` is a digit in base `radix`.
pub open spec fn all_digits(d: Seq<char>, radix: nat) -> bool {
    forall|i: int| 0 <= i < d.len() ==> digit_of(#[trigger] d[i], radix) is Some
}

/// `u64::from_str_radix(s, radix)` (and, in base 10, `str::parse::<u64>`):
/// an optional `+`, then one or more digits, whose value fits in 64 bits.
pub open spec fn parse_unsigned(s: Seq<char>, radix: nat) -> Option<u64> {
    let d = if s.len() > 0 && s[0] == '+' {
        s.drop_first()
    } else {
        s
    };
    if d.len() > 0 && all_digits(d, radix) && digits_value(d, radix) <= u64::MAX {
        Some(digits_value(d, radix) as u64)
    } else {
        None
    }
}

/// A longer run of digits never has a smaller value.
pub proof fn lemma_digits_value_prefix(d: Seq<char>, m: int, radix: nat)
    requires
        0 <= m <= d.len(),
        radix >= 1,
    ensures
        digits_value(d.take(m), radix) <= digits_value(d, radix),
    decreases d.len(),
{
    if m < d.len() {
        lemma_digits_value_prefix(d.drop_last(), m, radix);
        assert(d.drop_last().take(m) =~= d.take(m));
        let v = digits_value(d.drop_last(), radix);
        assert(v * radix >= v) by (nonlinear_arith)
            requires
                radix >= 1,
        ;
    } else {
        assert(d.take(m) =~= d);
    }
}

/// The digit value of `c` in base 10 or 16.
fn digit_char_value(c: char, radix: u64) -> (r: Option<u64>)
    requires
        radix == 10 || radix == 16,
    ensures
        r == (match digit_of(c, radix as nat) {
            Some(d) => Some(d as u64),
            None => None::<u64>,
        }),
{
    let u = c as u32;
    let d: u64 = if 0x30 <= u && u <= 0x39 {
        (u - 0x30) as u64
    } else if 0x61 <= u && u <= 0x7A {
        (u - 0x61 + 10) as u64
    } else if 0x41 <= u && u <= 0x5A {
        (u - 0x41 + 10) as u64
    } else {
        radix
    };
    if d < radix {
        Some(d)
    } else {
        None
    }
}

/// Extending a run of digits by one digit.
proof fn lemma_digits_step(d: Seq<char>, k: int, radix: nat)
    requires
        0 <= k < d.len(),
        all_digits(d.take(k), radix),
        digit_of(d[k], radix) is Some,
    ensures
        all_digits(d.take(k + 1), radix),
        digits_value(d.take(k + 1), radix) == digits_value(d.take(k), radix) * radix
            + digit_value(d[k], radix),
{
    assert(d.take(k + 1).drop_last() =~= d.take(k));
    assert forall|j: int| 0 <= j < d.take(k + 1).len() implies digit_of(
        #[trigger] d.take(k + 1)[j],
        radix,
    ) is Some by {
        if j < k {
            assert(d.take(k + 1)[j] == d.take(k)[j]);
        }
    }
}

/// Once a prefix of the digits is too large for 64 bits, so is the whole.
proof fn lemma_digits_overflow(d: Seq<char>, k: int, radix: nat)
    requires
        0 <= k <= d.len(),
        radix >= 1,
        digits_value(d.take(k), radix) > u64::MAX,
    ensures
        digits_value(d, radix) > u64::MAX,
{
    lemma_digits_value_prefix(d, k, radix);
}

/// Reads `s` as an unsigned number in base 10 or 16, by the rule of
/// `parse_unsigned`.
pub fn parse_unsigned_chars(s: &[char], radix: u64) -> (r: Option<u64>)
    requires
        radix == 10 || radix == 16,
    ensures
        r == parse_unsigned(s@, radix as nat),
{
    let start: usize = if s.len() > 0 && s[0] == '+' {
        1
    } else {
        0
    };
    let ghost d = s@.skip(start as int);
    assert(d =~= (if s@.len() > 0 && s@[0] == '+' {
        s@.drop_first()
    } else {
        s@
    }));
    if start >= s.len() {
        return None;
    }
    let mut v: u64 = 0;
    let mut i = start;
    assert(d.take(0) =~= Seq::<char>::empty());
    while i < s.len()
        invariant
            start <= i <= s@.len(),
            d == s@.skip(start as int),
            d == (if s@.len() > 0 && s@[0] == '+' {
                s@.drop_first()
            } else {
                s@
            }),
            d.len() > 0,
            radix == 10 || radix == 16,
            all_digits(d.take(i - start), radix as nat),
            v == digits_value(d.take(i - start), radix as nat),
        decreases s@.len() - i,
    {
        let ghost k = i - start;
        assert(d[k] == s@[i as int]);
        match digit_char_value(s[i], radix) {
            None => {
                assert(digit_of(d[k], radix as nat) is None);
                assert(!all_digits(d, radix as nat));
                return None;
            },
            Some(dg) => {
                proof {
                    lemma_digits_step(d, k, radix as nat);
                }
                let next = match v.checked_mul(radix) {
                    Some(m) => m.checked_add(dg),
                    None => None,
                };
                match next {
                    None => {
                        proof {
                            assert(v * radix + dg > u64::MAX) by (nonlinear_arith)
                                requires
                                    v * radix > u64::MAX || v * radix + dg > u64::MAX,
                                    dg >= 0,
                            ;
                            lemma_digits_overflow(d, k + 1, radix as nat);
                        }
                        return None;
                    },
                    Some(n) => {
                        v = n;
                        i += 1;
                    },
                }
            },
        }
    }
    assert(d.take(i - start) =~= d);
    Some(v)
}

// ---------------------------------------------------------------------------
// Decimal notation

/// The character of the decimal digit `d`.
pub open spec fn digit_char(d: nat) -> char {
    if d == 0 {
        '0'
    } else if d == 1 {
        '1'
    } else if d == 2 {
        '2'
    } else if d == 3 {
        '3'
    } else if d == 4 {
        '4'
    } else if d == 5 {
        '5'
    } else if d == 6 {
        '6'
    } else if d == 7 {
        '7'
    } else if d == 8 {
        '8'
    } else {
        '9'
    }
}

/// The character of the decimal digit `d`.
fn digit_char_of(d: u64) -> (c: char)
    requires
        d < 10,
    ensures
        c == digit_char(d as nat),
{
    if d == 0 {
        '0'
    } else if d == 1 {
        '1'
    } else if d == 2 {
        '2'
    } else if d == 3 {
        '3'
    } else if d == 4 {
        '4'
    } else if d == 5 {
        '5'
    } else if d == 6 {
        '6'
    } else if d == 7 {
        '7'
    } else if d == 8 {
        '8'
    } else {
        '9'
    }
}

/// `n` written in decimal, as `Display` writes an unsigned integer.
pub open spec fn decimal(n: nat) -> Seq<char>
    decreases n,
{
    if n < 10 {
        seq![digit_char(n)]
    } else {
        decimal(n / 10).push(digit_char(n % 10))
    }
}

/// Appends `n` in decimal to `out`.
pub fn push_decimal(out: &mut String, n: u64)
    ensures
        final(out)@ == old(out)@ + decimal(n as nat),
    decreases n,
{
    if n >= 10 {
        push_decimal(out, n / 10);
    }
    push_char(out, digit_char_of(n % 10));
}


// ---------------------------------------------------------------------------
// Laws of the character rules

/// The whitespace characters, by name: tab, line feed, vertical tab, form
/// feed, carriage return, space, next line, no-break space, ogham space mark,
/// the spaces from en quad to hair space, line separator, paragraph
/// separator, narrow no-break space, medium mathematical space and
/// ideographic space; nothing else.
pub proof fn lemma_space_chars(c: char)
    ensures
        is_space(c) <==> (c == '\t' || c == '\n' || c == '\u{0B}' || c == '\u{0C}' || c == '\r'
            || c == ' ' || c == '\u{85}' || c == '\u{A0}' || c == '\u{1680}' || ('\u{2000}' <= c
            && c <= '\u{200A}') || c == '\u{2028}' || c == '\u{2029}' || c == '\u{202F}' || c
            == '\u{205F}' || c == '\u{3000}'),
{
    let u = c as u32;
    assert('\t' as u32 == 0x09 && '\n' as u32 == 0x0A && '\u{0B}' as u32 == 0x0B);
    assert('\u{0C}' as u32 == 0x0C && '\r' as u32 == 0x0D && ' ' as u32 == 0x20);
    assert('\u{85}' as u32 == 0x85 && '\u{A0}' as u32 == 0xA0 && '\u{1680}' as u32 == 0x1680);
    assert('\u{2000}' as u32 == 0x2000 && '\u{200A}' as u32 == 0x200A);
    assert('\u{2028}' as u32 == 0x2028 && '\u{2029}' as u32 == 0x2029);
    assert('\u{202F}' as u32 == 0x202F && '\u{205F}' as u32 == 0x205F && '\u{3000}' as u32
        == 0x3000);
    assert(('\u{2000}' <= c && c <= '\u{200A}') <==> (0x2000 <= u && u <= 0x200A));
}

/// Splitting at the first `c`: text with no `c` before a `c` splits there,
/// into what stands before and what follows; text with no `c` at all does
/// not split.
pub proof fn lemma_split_once_at(a: Seq<char>, c: char, b: Seq<char>)
    requires
        forall|i: int| 0 <= i < a.len() ==> a[i] != c,
    ensures
        split_once(a + seq![c] + b, c) == Some((a, b)),
        split_once(a, c) is None,
{
    let s = a + seq![c] + b;
    lemma_pos_of_exact(s, c, a.len() as int);
    lemma_pos_of_exact(a, c, a.len() as int);
    assert(s.take(a.len() as int) =~= a);
    assert(s.skip(a.len() as int + 1) =~= b);
}

/// A `\r` that ends a line is dropped, and only then.
pub proof fn lemma_strip_cr(a: Seq<char>)
    ensures
        strip_cr(a.push('\r')) == a,
        (a.len() == 0 || a.last() != '\r') ==> strip_cr(a) == a,
{
    assert(a.push('\r').drop_last() =~= a);
}

/// Lines: no text has no lines; text with no line feed is one line; a line
/// feed ends the line before it (dropping a `\r` just before it) and what
/// follows splits into lines by itself.
pub proof fn lemma_lines_split(a: Seq<char>, b: Seq<char>)
    requires
        forall|i: int| 0 <= i < a.len() ==> a[i] != '\n',
    ensures
        lines(Seq::<char>::empty()) == Seq::<Seq<char>>::empty(),
        a.len() > 0 ==> lines(a) == seq![a],
        lines(a + seq!['\n'] + b) == seq![strip_cr(a)] + lines(b),
{
    let s = a + seq!['\n'] + b;
    lemma_pos_of_exact(s, '\n', a.len() as int);
    lemma_pos_of_exact(a, '\n', a.len() as int);
    assert(s.take(a.len() as int) =~= a);
    assert(s.skip(a.len() as int + 1) =~= b);
}

/// The run that text starts with, where that text goes on past a
/// whitespace character, is the run of its part before it.
proof fn lemma_word_len_append(a: Seq<char>, rest: Seq<char>)
    requires
        rest.len() > 0 ==> is_space(rest[0]),
    ensures
        word_len(a + rest) == word_len(a),
{
    lemma_word_len(a);
    let k = word_len(a) as int;
    let s = a + rest;
    assert forall|i: int| 0 <= i < k implies !is_space(s[i]) by {
        assert(s[i] == a[i]);
    }
    if k < a.len() {
        assert(s[k] == a[k]);
    } else if rest.len() > 0 {
        assert(s[k] == rest[0]);
    }
    lemma_word_len_exact(s, k);
}

/// Words: a run of non-whitespace is one word, and whitespace between two
/// texts separates their words.
pub proof fn lemma_words_split(a: Seq<char>, c: char, b: Seq<char>)
    requires
        is_space(c),
    ensures
        words(Seq::<char>::empty()) == Seq::<Seq<char>>::empty(),
        (a.len() > 0 && forall|i: int| 0 <= i < a.len() ==> !is_space(a[i])) ==> words(a) == seq![
            a,
        ],
        words(a + seq![c] + b) == words(a) + words(b),
    decreases a.len(),
{
    if a.len() > 0 && forall|i: int| 0 <= i < a.len() ==> !is_space(a[i]) {
        lemma_word_len_exact(a, a.len() as int);
        assert(a.take(a.len() as int) =~= a);
        assert(a.skip(a.len() as int) =~= Seq::<char>::empty());
        assert(seq![a] + Seq::<Seq<char>>::empty() =~= seq![a]);
    }
    let s = a + seq![c] + b;
    if a.len() == 0 {
        assert(s =~= seq![c] + b);
        assert(s[0] == c);
        assert(s.drop_first() =~= b);
        assert(words(a) =~= Seq::<Seq<char>>::empty());
        assert(Seq::<Seq<char>>::empty() + words(b) =~= words(b));
    } else if is_space(a[0]) {
        assert(s[0] == a[0]);
        lemma_words_split(a.drop_first(), c, b);
        assert(s.drop_first() =~= a.drop_first() + seq![c] + b);
    } else {
        assert(s[0] == a[0]);
        lemma_word_len(a);
        lemma_word_len_append(a, seq![c] + b);
        assert(s =~= a + (seq![c] + b));
        let k = word_len(a) as int;
        assert(s.take(k) =~= a.take(k));
        if k < a.len() {
            lemma_words_split(a.skip(k), c, b);
            assert(s.skip(k) =~= a.skip(k) + seq![c] + b);
            assert(seq![a.take(k)] + (words(a.skip(k)) + words(b)) =~= (seq![a.take(k)] + words(
                a.skip(k),
            )) + words(b));
        } else {
            assert(s.skip(k) =~= seq![c] + b);
            assert((seq![c] + b)[0] == c);
            assert((seq![c] + b).drop_first() =~= b);
            assert(words(seq![c] + b) == words(b));
            assert(a.take(k) =~= a);
            assert(a.skip(k) =~= Seq::<char>::empty());
            assert(seq![a] + Seq::<Seq<char>>::empty() =~= seq![a]);
        }
    }
}

proof fn lemma_trim_start_append(s: Seq<char>, t: Seq<char>)
    ensures
        trim_start(s).len() > 0 ==> trim_start(s + t) == trim_start(s) + t,
        trim_start(s).len() == 0 ==> trim_start(s + t) == trim_start(t),
    decreases s.len(),
{
    if s.len() == 0 {
        assert(s + t =~= t);
    } else if is_space(s[0]) {
        lemma_trim_start_append(s.drop_first(), t);
        assert((s + t).drop_first() =~= s.drop_first() + t);
        assert((s + t)[0] == s[0]);
    } else {
        assert((s + t)[0] == s[0]);
    }
}

proof fn lemma_trim_start_keeps_last(s: Seq<char>)
    ensures
        trim_start(s).len() > 0 ==> trim_start(s).last() == s.last(),
        trim_start(s).len() <= s.len(),
    decreases s.len(),
{
    if s.len() > 0 && is_space(s[0]) {
        lemma_trim_start_keeps_last(s.drop_first());
    }
}

/// Trimming drops whitespace at either end and keeps text that has none
/// there.
pub proof fn lemma_trim_ends(c: char, s: Seq<char>)
    requires
        is_space(c),
    ensures
        trim(seq![c] + s) == trim(s),
        trim(s.push(c)) == trim(s),
        (s.len() == 0 || (!is_space(s[0]) && !is_space(s.last()))) ==> trim(s) == s,
{
    assert((seq![c] + s).drop_first() =~= s);
    lemma_trim_start_append(s, seq![c]);
    assert(s + seq![c] =~= s.push(c));
    let t = trim_start(s);
    if t.len() > 0 {
        assert(t + seq![c] =~= t.push(c));
        assert(t.push(c).drop_last() =~= t);
    } else {
        assert(seq![c].drop_first() =~= Seq::<char>::empty());
        assert(trim_start(seq![c]) == trim_start(Seq::<char>::empty()));
        assert(t =~= Seq::<char>::empty());
    }
}

/// Numbers are read digit by digit: none from empty text or a lone `+`;
/// a digit alone is its own value; one more digit multiplies by the base and
/// adds it, unless that leaves 64 bits; a leading `+` changes nothing; and a
/// character that is no digit anywhere but a leading `+` spoils the number.
/// Digits are `0`-`9`, and in base 16 also `a`-`f` and `A`-`F`.
pub proof fn lemma_number_digits(s: Seq<char>, c: char, radix: nat)
    requires
        radix == 10 || radix == 16,
    ensures
        parse_unsigned(Seq::<char>::empty(), radix) is None,
        parse_unsigned(seq!['+'], radix) is None,
        ('0' <= c && c <= '9') ==> parse_unsigned(seq![c], radix) == Some(
            (c as u32 - '0' as u32) as u64,
        ),
        (radix == 16 && 'a' <= c && c <= 'f') ==> parse_unsigned(seq![c], radix) == Some(
            (c as u32 - 'a' as u32 + 10) as u64,
        ),
        (radix == 16 && 'A' <= c && c <= 'F') ==> parse_unsigned(seq![c], radix) == Some(
            (c as u32 - 'A' as u32 + 10) as u64,
        ),
        (s.len() > 0 && s[0] != '+') ==> parse_unsigned(seq!['+'] + s, radix) == parse_unsigned(
            s,
            radix,
        ),
        (digit_char_spec(c, radix) is Some && parse_unsigned(s, radix) is Some) ==> parse_unsigned(
            s.push(c),
            radix,
        ) == (if parse_unsigned(s, radix).unwrap() * radix + digit_char_spec(c, radix).unwrap()
            <= u64::MAX {
            Some(
                (parse_unsigned(s, radix).unwrap() * radix + digit_char_spec(c, radix).unwrap()) as u64,
            )
        } else {
            None
        }),
        (exists|i: int|
            0 <= i < s.len() && !(i == 0 && s[i] == '+') && #[trigger] digit_char_spec(s[i], radix)
                is None) ==> parse_unsigned(s, radix) is None,
{
    lemma_number_single(c, radix);
    if s.len() > 0 && s[0] != '+' {
        assert((seq!['+'] + s).drop_first() =~= s);
        assert((seq!['+'] + s)[0] == '+');
    }
    if digit_char_spec(c, radix) is Some && parse_unsigned(s, radix) is Some {
        lemma_number_append(s, c, radix);
    }
    if exists|i: int|
        0 <= i < s.len() && !(i == 0 && s[i] == '+') && #[trigger] digit_char_spec(s[i], radix)
            is None {
        let i = choose|i: int|
            0 <= i < s.len() && !(i == 0 && s[i] == '+') && #[trigger] digit_char_spec(s[i], radix)
                is None;
        lemma_number_reject(s, i, radix);
    }
}

proof fn lemma_number_single(c: char, radix: nat)
    requires
        radix == 10 || radix == 16,
    ensures
        parse_unsigned(Seq::<char>::empty(), radix) is None,
        parse_unsigned(seq!['+'], radix) is None,
        digit_char_spec(c, radix) is Some ==> parse_unsigned(seq![c], radix) == Some(
            digit_char_spec(c, radix).unwrap() as u64,
        ),
        ('0' <= c && c <= '9') ==> digit_char_spec(c, radix) == Some((c as u32 - '0' as u32) as nat),
        (radix == 16 && 'a' <= c && c <= 'f') ==> digit_char_spec(c, radix) == Some(
            (c as u32 - 'a' as u32 + 10) as nat,
        ),
        (radix == 16 && 'A' <= c && c <= 'F') ==> digit_char_spec(c, radix) == Some(
            (c as u32 - 'A' as u32 + 10) as nat,
        ),
{
    lemma_digit_chars(c, radix);
    assert(seq!['+'].drop_first() =~= Seq::<char>::empty());
    if digit_char_spec(c, radix) is Some {
        let d = seq![c];
        assert(d[0] != '+');
        assert(d.drop_last() =~= Seq::<char>::empty());
        assert(d.last() == c);
        assert(all_digits(d, radix));
        assert(digits_value(d, radix) == digit_char_spec(c, radix).unwrap());
        assert(digit_char_spec(c, radix).unwrap() <= 15);
    }
}

proof fn lemma_number_append(s: Seq<char>, c: char, radix: nat)
    requires
        radix == 10 || radix == 16,
        digit_char_spec(c, radix) is Some,
        parse_unsigned(s, radix) is Some,
    ensures
        parse_unsigned(s.push(c), radix) == (if parse_unsigned(s, radix).unwrap() * radix
            + digit_char_spec(c, radix).unwrap() <= u64::MAX {
            Some(
                (parse_unsigned(s, radix).unwrap() * radix + digit_char_spec(c, radix).unwrap()) as u64,
            )
        } else {
            None
        }),
{
    lemma_digit_chars(c, radix);
    let d = if s.len() > 0 && s[0] == '+' {
        s.drop_first()
    } else {
        s
    };
    let sp = s.push(c);
    let dp = if sp.len() > 0 && sp[0] == '+' {
        sp.drop_first()
    } else {
        sp
    };
    assert(sp[0] == s[0]);
    assert(dp =~= d.push(c));
    assert(dp.drop_last() =~= d);
    assert(dp.last() == c);
    assert forall|i: int| 0 <= i < dp.len() implies digit_of(#[trigger] dp[i], radix) is Some by {
        if i < d.len() {
            assert(dp[i] == d[i]);
        }
    }
}

proof fn lemma_number_reject(s: Seq<char>, i: int, radix: nat)
    requires
        radix == 10 || radix == 16,
        0 <= i < s.len(),
        !(i == 0 && s[i] == '+'),
        digit_char_spec(s[i], radix) is None,
    ensures
        parse_unsigned(s, radix) is None,
{
    lemma_digit_chars(s[i], radix);
    let d = if s.len() > 0 && s[0] == '+' {
        s.drop_first()
    } else {
        s
    };
    if s.len() > 0 && s[0] == '+' {
        assert(d[i - 1] == s[i]);
        assert(digit_of(d[i - 1], radix) is None);
    } else {
        assert(d[i] == s[i]);
        assert(digit_of(d[i], radix) is None);
    }
}

/// The value of a digit character in base 10 or 16, told by its character:
/// `0`-`9` count 0 to 9, and in base 16 `a`-`f` and `A`-`F` count 10 to 15.
pub open spec fn digit_char_spec(c: char, radix: nat) -> Option<nat> {
    if '0' <= c && c <= '9' {
        Some((c as u32 - '0' as u32) as nat)
    } else if radix == 16 && 'a' <= c && c <= 'f' {
        Some((c as u32 - 'a' as u32 + 10) as nat)
    } else if radix == 16 && 'A' <= c && c <= 'F' {
        Some((c as u32 - 'A' as u32 + 10) as nat)
    } else {
        None
    }
}

proof fn lemma_digit_chars(c: char, radix: nat)
    requires
        radix == 10 || radix == 16,
    ensures
        digit_of(c, radix) == digit_char_spec(c, radix),
        digit_value(c, radix) == (match digit_char_spec(c, radix) {
            Some(d) => d,
            None => 0,
        }),
{
    let u = c as u32;
    assert('0' as u32 == 0x30 && '9' as u32 == 0x39);
    assert('a' as u32 == 0x61 && 'f' as u32 == 0x66 && 'z' as u32 == 0x7A);
    assert('A' as u32 == 0x41 && 'F' as u32 == 0x46 && 'Z' as u32 == 0x5A);
    assert(('0' <= c && c <= '9') <==> (0x30 <= u && u <= 0x39));
    assert(('a' <= c && c <= 'f') <==> (0x61 <= u && u <= 0x66));
    assert(('A' <= c && c <= 'F') <==> (0x41 <= u && u <= 0x46));
}

/// Decimal notation: a number below ten is its one digit, `0` to `9`; a
/// larger one is the notation of its tens followed by that of its last digit;
/// every character is a digit, and only zero starts with `0`.
pub proof fn lemma_decimal_digits(n: nat)
    ensures
        n < 10 ==> decimal(n) =~= seq![(('0' as u32) + n) as char],
        n >= 10 ==> decimal(n) == decimal(n / 10) + decimal(n % 10),
        forall|i: int| 0 <= i < decimal(n).len() ==> '0' <= #[trigger] decimal(n)[i] && decimal(n)[i] <= '9',
        n > 0 ==> decimal(n)[0] != '0',
    decreases n,
{
    assert('0' as u32 == 0x30 && '1' as u32 == 0x31 && '2' as u32 == 0x32 && '3' as u32 == 0x33);
    assert('4' as u32 == 0x34 && '5' as u32 == 0x35 && '6' as u32 == 0x36 && '7' as u32 == 0x37);
    assert('8' as u32 == 0x38 && '9' as u32 == 0x39);
    if n >= 10 {
        lemma_decimal_digits(n / 10);
        lemma_decimal_digits(n % 10);
        assert(decimal(n / 10).push(digit_char(n % 10)) =~= decimal(n / 10) + decimal(n % 10));
        assert forall|i: int| 0 <= i < decimal(n).len() implies '0' <= #[trigger] decimal(n)[i]
            && decimal(n)[i] <= '9' by {
            if i < decimal(n / 10).len() {
                assert(decimal(n)[i] == decimal(n / 10)[i]);
            }
        }
        assert(decimal(n)[0] == decimal(n / 10)[0]);
    }
}

} // verus!
