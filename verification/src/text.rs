//! Text as sequences of characters: trimming, prefixes and lines.

use vstd::prelude::*;
use crate::chars::unicode_whitespace;

verus! {

/// Index of the first character at or after `i` that is not whitespace, or
/// the length of `s` where there is none.
pub open spec fn skip_space(s: Seq<char>, i: int) -> int
    decreases s.len() - i,
{
    if 0 <= i < s.len() && unicode_whitespace(s[i]) {
        skip_space(s, i + 1)
    } else {
        i
    }
}

/// The end of `s[lo..hi]` once the whitespace at its end is dropped.
pub open spec fn drop_space(s: Seq<char>, lo: int, hi: int) -> int
    decreases hi - lo,
{
    if 0 <= lo < hi <= s.len() && unicode_whitespace(s[hi - 1]) {
        drop_space(s, lo, hi - 1)
    } else {
        hi
    }
}

/// `s` without the whitespace at its start and at its end.
pub open spec fn trim(s: Seq<char>) -> Seq<char> {
    let lo = skip_space(s, 0);
    s.subrange(lo, drop_space(s, lo, s.len() as int))
}

/// The texts of a sequence of string slices.
pub open spec fn texts(v: Seq<&str>) -> Seq<Seq<char>> {
    Seq::new(v.len(), |k: int| v[k]@)
}

/// The texts of a sequence of strings.
pub open spec fn owned_texts(v: Seq<String>) -> Seq<Seq<char>> {
    Seq::new(v.len(), |k: int| v[k]@)
}

/// `l` without a carriage return at its end.
pub open spec fn without_cr(l: Seq<char>) -> Seq<char> {
    if l.len() > 0 && l.last() == '\r' {
        l.drop_last()
    } else {
        l
    }
}

/// The lines of `s` from a line that began at `start` and has been read up
/// to `i`. A line ends at a line feed, which is not part of it, nor is a
/// carriage return directly before that line feed. Text after the last line
/// feed is a line if it is not empty.
pub open spec fn lines_from(s: Seq<char>, start: int, i: int) -> Seq<Seq<char>>
    decreases s.len() - i,
{
    if i >= s.len() {
        if start < s.len() {
            seq![s.subrange(start, s.len() as int)]
        } else {
            Seq::empty()
        }
    } else if s[i] == '\n' {
        seq![without_cr(s.subrange(start, i))] + lines_from(s, i + 1, i + 1)
    } else {
        lines_from(s, start, i + 1)
    }
}

/// The lines of `s`.
pub open spec fn lines_of(s: Seq<char>) -> Seq<Seq<char>> {
    lines_from(s, 0, 0)
}

/// Skipping whitespace moves forward and stays within the text.
pub proof fn lemma_skip_space_bounds(s: Seq<char>, i: int)
    requires
        0 <= i <= s.len(),
    ensures
        i <= skip_space(s, i) <= s.len(),
    decreases s.len() - i,
{
    if i < s.len() && unicode_whitespace(s[i]) {
        lemma_skip_space_bounds(s, i + 1);
    }
}

/// Dropping whitespace moves backward and stays at or behind `lo`.
pub proof fn lemma_drop_space_bounds(s: Seq<char>, lo: int, hi: int)
    requires
        0 <= lo <= hi <= s.len(),
    ensures
        lo <= drop_space(s, lo, hi) <= hi,
    decreases hi - lo,
{
    if lo < hi && unicode_whitespace(s[hi - 1]) {
        lemma_drop_space_bounds(s, lo, hi - 1);
    }
}

/// The characters of `s`, in order.
pub fn to_chars(s: &str) -> (v: Vec<char>)
    ensures
        v@ == s@,
{
    let mut v: Vec<char> = Vec::new();
    for c in it: s.chars()
        invariant
            it.seq() == s@,
            v@ == s@.take(it.index() as int),
    {
        v.push(c);
    }
    v
}

/// Skips the whitespace of `c` from `i` on.
pub fn skip_space_from(c: &Vec<char>, i: usize) -> (j: usize)
    ensures
        j == skip_space(c@, i as int),
        i <= j,
        i <= c.len() ==> j <= c.len(),
{
    let mut j: usize = i;
    while j < c.len() && c[j].is_whitespace()
        invariant
            i <= j,
            i <= c.len() ==> j <= c.len(),
            skip_space(c@, j as int) == skip_space(c@, i as int),
        decreases c.len() - j,
    {
        j += 1;
    }
    j
}

/// The part of `s` between its leading and its trailing whitespace.
pub fn trimmed(s: &str) -> (t: &str)
    ensures
        t@ == trim(s@),
{
    let c = to_chars(s);
    let lo = skip_space_from(&c, 0);
    let mut hi: usize = c.len();
    while hi > lo && c[hi - 1].is_whitespace()
        invariant
            lo <= hi <= c.len(),
            drop_space(c@, lo as int, hi as int) == drop_space(c@, lo as int, c.len() as int),
        decreases hi,
    {
        hi -= 1;
    }
    s.substring_char(lo, hi)
}

/// Whether `ch` occurs in `c`.
pub fn has_char(c: &Vec<char>, ch: char) -> (b: bool)
    ensures
        b == c@.contains(ch),
{
    let mut k: usize = 0;
    while k < c.len()
        invariant
            k <= c.len(),
            forall|j: int| 0 <= j < k ==> c@[j] != ch,
        decreases c.len() - k,
    {
        if c[k] == ch {
            return true;
        }
        k += 1;
    }
    false
}

/// Whether `pat` stands in `s` at index `at`.
pub open spec fn has_at(s: Seq<char>, at: int, pat: Seq<char>) -> bool {
    0 <= at <= s.len() && pat.is_prefix_of(s.skip(at))
}

/// Whether `pat` stands in `c` at index `at`.
pub fn starts_with(c: &Vec<char>, at: usize, pat: &str) -> (b: bool)
    ensures
        b == has_at(c@, at as int, pat@),
{
    let n = pat.unicode_len();
    if at > c.len() || n > c.len() - at {
        return false;
    }
    let mut k: usize = 0;
    while k < n
        invariant
            k <= n,
            n == pat@.len(),
            at + n <= c.len(),
            forall|j: int| 0 <= j < k ==> c@[at + j] == pat@[j],
        decreases n - k,
    {
        if c[at + k] != pat.get_char(k) {
            assert(c@.skip(at as int).subrange(0, n as int)[k as int] != pat@[k as int]);
            return false;
        }
        k += 1;
    }
    assert(pat@ =~= c@.skip(at as int).subrange(0, n as int));
    true
}

/// Specifies `String::push`: the character is appended at the end and the
/// rest of the string stays as it is.
pub assume_specification[ String::push ](s: &mut String, ch: char)
    ensures
        final(s)@ == old(s)@.push(ch),
;

/// The characters `c[from..to]` as a string.
pub fn string_of(c: &Vec<char>, from: usize, to: usize) -> (s: String)
    requires
        from <= to <= c.len(),
    ensures
        s@ == c@.subrange(from as int, to as int),
{
    let mut s = String::new();
    let mut k: usize = from;
    while k < to
        invariant
            from <= k <= to <= c.len(),
            s@ == c@.subrange(from as int, k as int),
        decreases to - k,
    {
        s.push(c[k]);
        assert(c@.subrange(from as int, k + 1) == c@.subrange(from as int, k as int).push(
            c@[k as int],
        ));
        k += 1;
    }
    s
}

/// Borrows every string of `v`.
pub fn as_strs(v: &Vec<String>) -> (r: Vec<&str>)
    ensures
        texts(r@) == owned_texts(v@),
{
    let mut r: Vec<&str> = Vec::new();
    let mut k: usize = 0;
    while k < v.len()
        invariant
            k <= v.len(),
            r.len() == k,
            forall|j: int| 0 <= j < k ==> (#[trigger] r[j])@ == v[j]@,
        decreases v.len() - k,
    {
        r.push(v[k].as_str());
        k += 1;
    }
    assert(texts(r@) =~= owned_texts(v@));
    r
}

/// Splits `source` into its lines.
pub fn split_lines(source: &str) -> (lines: Vec<String>)
    ensures
        owned_texts(lines@) == lines_of(source@),
{
    let c = to_chars(source);
    let mut lines: Vec<String> = Vec::new();
    let mut start: usize = 0;
    let mut i: usize = 0;
    while i < c.len()
        invariant
            c@ == source@,
            start <= i <= c.len(),
            owned_texts(lines@) + lines_from(c@, start as int, i as int) == lines_of(c@),
        decreases c.len() - i,
    {
        if c[i] == '\n' {
            let end = if i > start && c[i - 1] == '\r' {
                i - 1
            } else {
                i
            };
            let line = string_of(&c, start, end);
            let ghost before = owned_texts(lines@);
            let ghost text = line@;
            lines.push(line);
            assert(text == without_cr(c@.subrange(start as int, i as int)));
            assert(owned_texts(lines@) =~= before + seq![text]);
            assert((before + seq![text]) + lines_from(c@, i + 1, i + 1) =~= before + (seq![text]
                + lines_from(c@, i + 1, i + 1)));
            start = i + 1;
        }
        i += 1;
    }
    if start < c.len() {
        let line = string_of(&c, start, c.len());
        let ghost before = owned_texts(lines@);
        let ghost text = line@;
        lines.push(line);
        assert(owned_texts(lines@) =~= before + seq![text]);
    } else {
        assert(owned_texts(lines@) =~= owned_texts(lines@) + Seq::<Seq<char>>::empty());
    }
    lines
}

} // verus!
