//! Where the body of a rule ends, by the balance of its braces.

use vstd::prelude::*;
use crate::text::texts;

verus! {

/// How often `c` occurs in `s`.
pub open spec fn occurrences(s: Seq<char>, c: char) -> nat
    decreases s.len(),
{
    if s.len() == 0 {
        0
    } else {
        occurrences(s.drop_last(), c) + if s.last() == c {
            1nat
        } else {
            0nat
        }
    }
}

/// How often `brace` occurs in the lines `from..to`.
pub open spec fn brace_count(lines: Seq<Seq<char>>, from: int, to: int, brace: char) -> nat
    decreases to - from,
{
    if from < to {
        brace_count(lines, from, to - 1, brace) + occurrences(lines[to - 1], brace)
    } else {
        0
    }
}

/// Whether the braces of the lines `start..=i` balance: at least one has
/// been opened, and as many have been closed as opened. Braces are counted
/// wherever they stand, in strings and comments too, and the balance is
/// taken at the end of a line.
pub open spec fn closes_at(lines: Seq<Seq<char>>, start: int, i: int) -> bool {
    let opened = brace_count(lines, start, i + 1, '{');
    opened > 0 && opened == brace_count(lines, start, i + 1, '}')
}

/// The number of the first line at or after index `i` at whose end the
/// braces opened since index `start` balance, or the number of lines where
/// there is no such line. Lines are numbered from 1.
pub open spec fn first_close(lines: Seq<Seq<char>>, start: int, i: int) -> int
    decreases lines.len() - i,
{
    if i >= lines.len() {
        lines.len() as int
    } else if closes_at(lines, start, i) {
        i + 1
    } else {
        first_close(lines, start, i + 1)
    }
}

/// The number of the line that ends the rule whose head is at index
/// `start`.
pub open spec fn rule_end(lines: Seq<Seq<char>>, start: int) -> int {
    first_close(lines, start, start)
}

/// A search from line `i` ends behind `i` and within the text.
pub proof fn lemma_first_close_bounds(lines: Seq<Seq<char>>, start: int, i: int)
    requires
        0 <= i <= lines.len(),
    ensures
        first_close(lines, start, i) <= lines.len(),
        i < lines.len() ==> i < first_close(lines, start, i),
    decreases lines.len() - i,
{
    if i < lines.len() && !closes_at(lines, start, i) {
        lemma_first_close_bounds(lines, start, i + 1);
    }
}

/// Counts how often `c` occurs in `line`.
pub fn count_char(line: &str, c: char) -> (n: usize)
    ensures
        n == occurrences(line@, c),
{
    let len = line.unicode_len();
    let mut n: usize = 0;
    for x in it: line.chars()
        invariant
            it.seq() == line@,
            len == line@.len(),
            n == occurrences(line@.take(it.index() as int), c),
            n <= it.index(),
    {
        assert(line@.take(it.index() + 1).drop_last() == line@.take(it.index() as int));
        if x == c {
            n += 1;
        }
    }
    assert(line@.take(line@.len() as int) == line@);
    n
}

/// The number of the line that ends the rule whose head is `lines[start_idx]`:
/// the first line from the head on at whose end at least one brace has been
/// opened and all that were opened are closed. Where the braces never
/// balance, and where `start_idx` is no index of `lines`, it is the number
/// of lines.
pub fn find_rule_end(lines: &[&str], start_idx: usize) -> (end: usize)
    ensures
        end == rule_end(texts(lines@), start_idx as int),
        start_idx < lines.len() ==> start_idx < end <= lines.len(),
{
    let ghost all = texts(lines@);
    let ghost start = start_idx as int;
    if start_idx >= lines.len() {
        return lines.len();
    }
    proof {
        lemma_first_close_bounds(all, start, start);
    }
    let mut opened: u128 = 0;
    let mut closed: u128 = 0;
    let mut i: usize = start_idx;
    while i < lines.len()
        invariant
            all == texts(lines@),
            start == start_idx,
            start_idx <= i <= lines.len(),
            opened == brace_count(all, start, i as int, '{'),
            closed == brace_count(all, start, i as int, '}'),
            opened <= (i - start_idx) * usize::MAX,
            closed <= (i - start_idx) * usize::MAX,
            first_close(all, start, i as int) == rule_end(all, start),
        decreases lines.len() - i,
    {
        let line = lines[i];
        let o = count_char(line, '{');
        let c = count_char(line, '}');
        proof {
            assert(all[i as int] == line@);
            let m = usize::MAX as int;
            let d = i - start_idx;
            assert((d + 1) * m == d * m + m) by (nonlinear_arith);
            assert((d + 1) * m <= m * m) by (nonlinear_arith)
                requires
                    0 <= d + 1 <= m,
            ;
            assert(m * m <= u128::MAX) by (nonlinear_arith)
                requires
                    0 <= m <= 0xffff_ffff_ffff_ffff,
            ;
        }
        opened = opened + o as u128;
        closed = closed + c as u128;
        if opened > 0 && opened == closed {
            return i + 1;
        }
        i += 1;
    }
    lines.len()
}

} // verus!
