//! Character classes, runs of characters and decimal digit strings.
use vstd::prelude::*;
use vstd::string::*;

verus! {

/// A class of characters that a run is made of.
#[derive(Clone, Copy, PartialEq, Eq, Structural, Debug)]
pub enum CharClass {
    /// `0` to `9`.
    Digit,
    /// White space: the characters of Unicode's `White_Space` property.
    Whitespace,
    /// Anything but `:`.
    NotColon,
    /// Anything but a line feed.
    NotNewline,
}

/// The characters of Unicode's `White_Space` property.
#[verifier::opaque]
pub open spec fn is_whitespace_char(c: char) -> bool {
    ('\u{9}' <= c && c <= '\u{d}') || c == ' ' || c == '\u{85}' || c == '\u{a0}' || c
        == '\u{1680}' || ('\u{2000}' <= c && c <= '\u{200a}') || c == '\u{2028}' || c
        == '\u{2029}' || c == '\u{202f}' || c == '\u{205f}' || c == '\u{3000}'
}

pub fn whitespace_test(c: char) -> (r: bool)
    ensures
        r == is_whitespace_char(c),
{
    reveal(is_whitespace_char);
    ('\u{9}' <= c && c <= '\u{d}') || c == ' ' || c == '\u{85}' || c == '\u{a0}' || c
        == '\u{1680}' || ('\u{2000}' <= c && c <= '\u{200a}') || c == '\u{2028}' || c
        == '\u{2029}' || c == '\u{202f}' || c == '\u{205f}' || c == '\u{3000}'
}

pub open spec fn in_class(k: CharClass, c: char) -> bool {
    match k {
        CharClass::Digit => '0' <= c && c <= '9',
        CharClass::Whitespace => is_whitespace_char(c),
        CharClass::NotColon => c != ':',
        CharClass::NotNewline => c != '\n',
    }
}

/// Length of the longest run of characters of class `k` that starts at `p`.
pub open spec fn run_len(s: Seq<char>, p: int, k: CharClass) -> nat
    decreases s.len() - p,
{
    if 0 <= p < s.len() && in_class(k, s[p]) {
        1 + run_len(s, p + 1, k)
    } else {
        0
    }
}

/// Value of a string of decimal digits, most significant first.
pub open spec fn digits_value(s: Seq<char>) -> nat
    decreases s.len(),
{
    if s.len() == 0 {
        0
    } else {
        digits_value(s.drop_last()) * 10 + ((s.last() as u32) - ('0' as u32)) as nat
    }
}

pub open spec fn all_digits(s: Seq<char>) -> bool {
    forall|i: int| 0 <= i < s.len() ==> in_class(CharClass::Digit, #[trigger] s[i])
}

/// `s` holds `pat` at position `i`.
pub open spec fn literal_at(s: Seq<char>, i: int, pat: Seq<char>) -> bool {
    0 <= i && i + pat.len() <= s.len() && s.subrange(i, i + pat.len()) == pat
}

pub fn class_test(k: CharClass, c: char) -> (r: bool)
    ensures
        r == in_class(k, c),
{
    match k {
        CharClass::Digit => '0' <= c && c <= '9',
        CharClass::Whitespace => whitespace_test(c),
        CharClass::NotColon => c != ':',
        CharClass::NotNewline => c != '\n',
    }
}

/// Length of the run of class `k` in `s` from position `p`; `n` is the length of `s`.
pub fn class_run(s: &str, n: usize, p: usize, k: CharClass) -> (r: usize)
    requires
        n == s@.len(),
        p <= n,
    ensures
        r == run_len(s@, p as int, k),
        p + r <= n,
{
    let mut q: usize = p;
    while q < n && class_test(k, s.get_char(q))
        invariant
            n == s@.len(),
            p <= q <= n,
            run_len(s@, p as int, k) == (q - p) + run_len(s@, q as int, k),
        decreases n - q,
    {
        q = q + 1;
    }
    q - p
}

/// Whether `pat` stands in `s` at position `i`; `n` is the length of `s`.
pub fn literal_test(s: &str, n: usize, i: usize, pat: &str) -> (r: bool)
    requires
        n == s@.len(),
    ensures
        r == literal_at(s@, i as int, pat@),
{
    let m = pat.unicode_len();
    if i > n || m > n - i {
        return false;
    }
    let mut j: usize = 0;
    while j < m
        invariant
            n == s@.len(),
            m == pat@.len(),
            i + m <= n,
            j <= m,
            forall|t: int| 0 <= t < j ==> s@[i + t] == pat@[t],
        decreases m - j,
    {
        if s.get_char(i + j) != pat.get_char(j) {
            assert(s@.subrange(i as int, i + m)[j as int] != pat@[j as int]);
            return false;
        }
        j = j + 1;
    }
    assert(s@.subrange(i as int, i + m) =~= pat@);
    true
}

proof fn lemma_digits_value_grows(s: Seq<char>, k: int)
    requires
        0 <= k <= s.len(),
        all_digits(s),
    ensures
        digits_value(s.subrange(0, k)) <= digits_value(s),
    decreases s.len() - k,
{
    if k < s.len() {
        lemma_digits_value_grows(s, k + 1);
        let t = s.subrange(0, k + 1);
        assert(t.drop_last() =~= s.subrange(0, k));
        assert(in_class(CharClass::Digit, s[k]));
    } else {
        assert(s.subrange(0, k) =~= s);
    }
}

/// The value of the digits `s[p..p + len]`, or `None` where it exceeds `u32::MAX`.
pub fn parse_u32_digits(s: &str, n: usize, p: usize, len: usize) -> (r: Option<u32>)
    requires
        n == s@.len(),
        p + len <= n,
        all_digits(s@.subrange(p as int, p + len)),
    ensures
        match r {
            Some(v) => v as nat == digits_value(s@.subrange(p as int, p + len)),
            None => digits_value(s@.subrange(p as int, p + len)) > u32::MAX,
        },
{
    let ghost d = s@.subrange(p as int, p + len);
    let mut acc: u64 = 0;
    let mut j: usize = 0;
    while j < len
        invariant
            n == s@.len(),
            p + len <= n,
            d == s@.subrange(p as int, p + len),
            all_digits(d),
            j <= len,
            acc as nat == digits_value(d.subrange(0, j as int)),
            acc <= u32::MAX,
        decreases len - j,
    {
        let c = s.get_char(p + j);
        assert(c == d[j as int]);
        let dv = (c as u32 - '0' as u32) as u64;
        acc = acc * 10 + dv;
        assert(d.subrange(0, j + 1).drop_last() =~= d.subrange(0, j as int));
        j = j + 1;
        if acc > 0xffff_ffff {
            proof {
                lemma_digits_value_grows(d, j as int);
            }
            return None;
        }
    }
    assert(d.subrange(0, len as int) =~= d);
    Some(acc as u32)
}

/// Every character of a run is of the run's class, and the run ends
/// inside the sequence.
pub proof fn lemma_run_in_class(s: Seq<char>, p: int, k: CharClass)
    requires
        0 <= p,
    ensures
        p + run_len(s, p, k) <= s.len() || run_len(s, p, k) == 0,
        forall|t: int| p <= t < p + run_len(s, p, k) ==> in_class(k, #[trigger] s[t]),
    decreases s.len() - p,
{
    if 0 <= p < s.len() && in_class(k, s[p]) {
        lemma_run_in_class(s, p + 1, k);
    }
}

/// A run of `m` characters of class `k` from `p`, ended by the end of the
/// sequence or by a character of another class, is the longest run there.
pub proof fn lemma_run_exact(s: Seq<char>, p: int, m: int, k: CharClass)
    requires
        0 <= p,
        0 <= m,
        p + m <= s.len(),
        forall|t: int| p <= t < p + m ==> in_class(k, #[trigger] s[t]),
        p + m == s.len() || !in_class(k, s[p + m]),
    ensures
        run_len(s, p, k) == m,
    decreases m,
{
    if m > 0 {
        lemma_run_exact(s, p + 1, m - 1, k);
    }
}

} // verus!
