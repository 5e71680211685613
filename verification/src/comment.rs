//! Comment lines and the descriptions they carry.

use vstd::prelude::*;
use crate::chars::unicode_whitespace;
use crate::text::{to_chars, trim, trimmed};

verus! {

/// Whether the trimmed line `t` is a comment.
pub open spec fn is_comment(t: Seq<char>) -> bool {
    t.len() > 0 && t[0] == '#'
}

/// Index of the first character at or after `i` that is not a comment
/// marker, or the length of `s` where there is none.
pub open spec fn marker_end(s: Seq<char>, i: int) -> int
    decreases s.len() - i,
{
    if 0 <= i < s.len() && s[i] == '#' {
        marker_end(s, i + 1)
    } else {
        i
    }
}

/// What the comment line `t` says: the line without the markers at its
/// start and without whitespace around the rest.
pub open spec fn comment_text(t: Seq<char>) -> Seq<char> {
    trim(t.skip(marker_end(t, 0)))
}

/// A character of which section dividers are made.
pub open spec fn is_divider_char(c: char) -> bool {
    c == '=' || c == '-' || unicode_whitespace(c)
}

/// Whether `text` is a section divider: nothing but `=`, `-` and
/// whitespace. The empty text is one.
pub open spec fn is_divider(text: Seq<char>) -> bool {
    forall|k: int| 0 <= k < text.len() ==> is_divider_char(#[trigger] text[k])
}

/// The pending comments after a comment that says `text`: dividers are
/// passed over, any other text is noted.
pub open spec fn note(pending: Seq<Seq<char>>, text: Seq<char>) -> Seq<Seq<char>> {
    if is_divider(text) {
        pending
    } else {
        pending.push(text)
    }
}

/// The description that the pending comments give a rule: the last of
/// them, or the empty text where there is none.
pub open spec fn description_from(pending: Seq<Seq<char>>) -> Seq<char> {
    if pending.len() > 0 {
        pending.last()
    } else {
        Seq::empty()
    }
}

/// What the comment line `t`, trimmed, says.
pub fn comment_text_of(t: &str) -> (text: &str)
    ensures
        text@ == comment_text(t@),
{
    let c = to_chars(t);
    let mut m: usize = 0;
    while m < c.len() && c[m] == '#'
        invariant
            m <= c.len(),
            marker_end(c@, m as int) == marker_end(c@, 0),
        decreases c.len() - m,
    {
        m += 1;
    }
    assert(t@.skip(m as int) == t@.subrange(m as int, t@.len() as int));
    trimmed(t.substring_char(m, c.len()))
}

/// Whether `text` is a section divider.
pub fn divider(text: &str) -> (b: bool)
    ensures
        b == is_divider(text@),
{
    let mut b = true;
    for x in it: text.chars()
        invariant
            it.seq() == text@,
            b == forall|k: int| 0 <= k < it.index() ==> is_divider_char(#[trigger] text@[k]),
    {
        if !(x == '=' || x == '-' || x.is_whitespace()) {
            b = false;
        }
    }
    b
}

} // verus!
