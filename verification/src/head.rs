//! Recognition of the line that begins a rule.

use vstd::prelude::*;
use crate::chars::{ident_char, is_ident_char, unicode_whitespace};
use crate::text::{
    lemma_skip_space_bounds, skip_space, skip_space_from, starts_with, string_of, to_chars, trim,
    trimmed,
};

verus! {

/// Index of the first character at or after `i` that cannot occur in a
/// rule name, or the length of `s` where there is none.
pub open spec fn ident_end(s: Seq<char>, i: int) -> int
    decreases s.len() - i,
{
    if 0 <= i < s.len() && is_ident_char(s[i]) {
        ident_end(s, i + 1)
    } else {
        i
    }
}

/// Whether `t` begins with the keyword `default` and whitespace after it.
pub open spec fn is_default_head(t: Seq<char>) -> bool {
    let k = "default"@.len() as int;
    "default"@.is_prefix_of(t) && k < t.len() && unicode_whitespace(t[k])
}

/// Whether `r`, the text behind a candidate name, marks that name as the
/// name of a rule: an assignment, `if` before a space or an opening brace,
/// or `contains` before a space.
pub open spec fn marks_rule(r: Seq<char>) -> bool {
    ":="@.is_prefix_of(r) || "="@.is_prefix_of(r) || "if "@.is_prefix_of(r) || "if{"@.is_prefix_of(
        r,
    ) || "contains "@.is_prefix_of(r)
}

/// The range of the rule name in the trimmed line `t`, where `t` begins a
/// rule.
///
/// Behind `default` and whitespace the name is the longest run of name
/// characters, which must not be empty. Any other line must begin with such
/// a run, and what follows the run and whitespace must mark a rule.
pub open spec fn name_range(t: Seq<char>) -> Option<(int, int)> {
    if is_default_head(t) {
        let a = skip_space(t, "default"@.len() as int);
        let b = ident_end(t, a);
        if a < b {
            Some((a, b))
        } else {
            None
        }
    } else {
        let b = ident_end(t, 0);
        if 0 < b && marks_rule(t.skip(skip_space(t, b))) {
            Some((0, b))
        } else {
            None
        }
    }
}

/// The name of the rule that the trimmed line `t` begins, if it begins one.
pub open spec fn rule_name(t: Seq<char>) -> Option<Seq<char>> {
    match name_range(t) {
        Some((a, b)) => Some(t.subrange(a, b)),
        None => None,
    }
}

/// A run of name characters ends at or behind its start and within the text.
pub proof fn lemma_ident_end_bounds(s: Seq<char>, i: int)
    requires
        0 <= i <= s.len(),
    ensures
        i <= ident_end(s, i) <= s.len(),
    decreases s.len() - i,
{
    if i < s.len() && is_ident_char(s[i]) {
        lemma_ident_end_bounds(s, i + 1);
    }
}

/// The name range of a line lies within the line and is not empty.
pub proof fn lemma_name_range_bounds(t: Seq<char>)
    ensures
        name_range(t) matches Some((a, b)) ==> 0 <= a < b <= t.len(),
{
    if is_default_head(t) {
        let k = "default"@.len() as int;
        lemma_skip_space_bounds(t, k);
        lemma_ident_end_bounds(t, skip_space(t, k));
    } else {
        lemma_ident_end_bounds(t, 0);
    }
}

/// Skips the name characters of `c` from `i` on.
fn ident_end_from(c: &Vec<char>, i: usize) -> (j: usize)
    requires
        i <= c.len(),
    ensures
        j == ident_end(c@, i as int),
        i <= j <= c.len(),
{
    let mut j: usize = i;
    while j < c.len() && ident_char(c[j])
        invariant
            i <= j <= c.len(),
            ident_end(c@, j as int) == ident_end(c@, i as int),
        decreases c.len() - j,
    {
        j += 1;
    }
    j
}

/// Finds the rule name in a trimmed line, given by its characters.
pub fn find_name(c: &Vec<char>) -> (r: Option<(usize, usize)>)
    ensures
        match r {
            Some((a, b)) => name_range(c@) == Some((a as int, b as int)) && a < b <= c.len(),
            None => name_range(c@) is None,
        },
{
    let k = "default".unicode_len();
    if starts_with(c, 0, "default") && k < c.len() && c[k].is_whitespace() {
        let a = skip_space_from(c, k);
        let b = ident_end_from(c, a);
        if a < b {
            Some((a, b))
        } else {
            None
        }
    } else {
        let b = ident_end_from(c, 0);
        if b == 0 {
            return None;
        }
        let at = skip_space_from(c, b);
        if starts_with(c, at, ":=") || starts_with(c, at, "=") || starts_with(c, at, "if ")
            || starts_with(c, at, "if{") || starts_with(c, at, "contains ") {
            Some((0, b))
        } else {
            None
        }
    }
}

/// The name of the rule that `line` begins, or `None` where `line` begins
/// no rule. Whitespace around the line is ignored.
pub fn extract_rule_name(line: &str) -> (name: Option<String>)
    ensures
        match name {
            Some(n) => rule_name(trim(line@)) == Some(n@),
            None => rule_name(trim(line@)) is None,
        },
{
    let t = trimmed(line);
    let c = to_chars(t);
    match find_name(&c) {
        Some((a, b)) => Some(string_of(&c, a, b)),
        None => None,
    }
}

} // verus!
