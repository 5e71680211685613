//! The scan of a policy's source text for its rules.

use vstd::prelude::*;
use crate::braces::{find_rule_end, lemma_first_close_bounds, rule_end};
use crate::comment::{comment_text, comment_text_of, description_from, divider, is_comment, note};
use crate::head::{find_name, rule_name};
use crate::laws::{law_no_head_no_rule, law_rules_apart};
use crate::text::{
    as_strs, has_char, lines_of, owned_texts, split_lines, starts_with, string_of, texts, to_chars,
    trim, trimmed,
};

verus! {

/// A rule of a policy, as found in its source text.
#[derive(Debug, Clone, PartialEq, Eq)]
pub struct RuleInfo {
    /// The rule's name.
    pub name: String,
    /// What the comment directly above the rule says, or the empty text.
    pub description: String,
    /// The number of the line that begins the rule, counted from 1.
    pub start_line: usize,
    /// The number of the line that ends the rule, counted from 1.
    pub end_line: usize,
}

/// What a `RuleInfo` stands for.
pub struct RuleRecord {
    pub name: Seq<char>,
    pub description: Seq<char>,
    pub start_line: int,
    pub end_line: int,
}

impl View for RuleInfo {
    type V = RuleRecord;

    open spec fn view(&self) -> RuleRecord {
        RuleRecord {
            name: self.name@,
            description: self.description@,
            start_line: self.start_line as int,
            end_line: self.end_line as int,
        }
    }
}

/// What a sequence of `RuleInfo` stands for.
pub open spec fn records(rules: Seq<RuleInfo>) -> Seq<RuleRecord> {
    Seq::new(rules.len(), |k: int| rules[k]@)
}

/// Whether the trimmed line `t` is an import or a package declaration.
pub open spec fn is_declaration(t: Seq<char>) -> bool {
    "import "@.is_prefix_of(t) || "package "@.is_prefix_of(t)
}

/// The name of the rule that the trimmed line `t` begins. Comments, blank
/// lines and declarations begin none.
pub open spec fn head_name(t: Seq<char>) -> Option<Seq<char>> {
    if is_comment(t) || t.len() == 0 || is_declaration(t) {
        None
    } else {
        rule_name(t)
    }
}

/// Whether `line` begins a rule.
pub open spec fn begins_rule(line: Seq<char>) -> bool {
    head_name(trim(line)) is Some
}

/// The number of the line that ends the rule whose head is at index `i`:
/// that of the head itself where the head opens no brace.
pub open spec fn body_end(lines: Seq<Seq<char>>, i: int) -> int {
    if trim(lines[i]).contains('{') {
        rule_end(lines, i)
    } else {
        i + 1
    }
}

/// The rules found from line index `i` on, with `pending` the comments
/// noted directly above that line.
///
/// A comment line is noted unless it is a divider. A line that begins a
/// rule gives a record, described by the last pending comment, and the scan
/// goes on behind the rule's last line with nothing pending. Any other line
/// is passed over and leaves nothing pending.
pub open spec fn scan(lines: Seq<Seq<char>>, i: int, pending: Seq<Seq<char>>) -> Seq<RuleRecord>
    decreases lines.len() - i,
    via scan_decreases
{
    if i < 0 || i >= lines.len() {
        Seq::empty()
    } else {
        let t = trim(lines[i]);
        if is_comment(t) {
            scan(lines, i + 1, note(pending, comment_text(t)))
        } else {
            match head_name(t) {
                Some(name) => seq![
                    RuleRecord {
                        name,
                        description: description_from(pending),
                        start_line: i + 1,
                        end_line: body_end(lines, i),
                    },
                ] + scan(lines, body_end(lines, i), Seq::empty()),
                None => scan(lines, i + 1, Seq::empty()),
            }
        }
    }
}

/// The scan goes on behind the line that it reads: a rule ends at or after
/// its head.
#[via_fn]
proof fn scan_decreases(lines: Seq<Seq<char>>, i: int, pending: Seq<Seq<char>>) {
    if 0 <= i < lines.len() {
        lemma_first_close_bounds(lines, i, i);
    }
}

/// The rules of a policy with the source text `source`.
pub open spec fn rules_of(source: Seq<char>) -> Seq<RuleRecord> {
    scan(lines_of(source), 0, Seq::empty())
}

/// The rules of the policy with the source text `source`.
///
/// Every text has a result. The rules come in the order in which they begin,
/// each ends at or after the line on which it begins, and none begins before
/// the one before it has ended. A text without a line that begins a rule has
/// none.
pub fn parse_rules(source: &str) -> (rules: Vec<RuleInfo>)
    ensures
        records(rules@) == rules_of(source@),
        forall|k: int|
            0 <= k < rules.len() ==> 1 <= (#[trigger] rules[k]).start_line <= rules[k].end_line
                <= lines_of(source@).len(),
        forall|a: int, b: int|
            0 <= a < b < rules.len() ==> (#[trigger] rules[a]).end_line < (
            #[trigger] rules[b]).start_line,
        (forall|j: int|
            0 <= j < lines_of(source@).len() ==> !begins_rule(#[trigger] lines_of(source@)[j]))
            ==> rules.len() == 0,
{
    let owned = split_lines(source);
    let lines = as_strs(&owned);
    let ghost all = texts(lines@);
    let mut rules: Vec<RuleInfo> = Vec::new();
    let mut pending: Vec<String> = Vec::new();
    let mut i: usize = 0;
    assert(records(rules@) + scan(all, 0, owned_texts(pending@)) =~= scan(all, 0, Seq::empty())) by {
        assert(owned_texts(pending@) =~= Seq::<Seq<char>>::empty());
    }
    while i < lines.len()
        invariant
            all == texts(lines@),
            i <= lines.len(),
            records(rules@) + scan(all, i as int, owned_texts(pending@)) == scan(
                all,
                0,
                Seq::empty(),
            ),
        decreases lines.len() - i,
    {
        let t = trimmed(lines[i]);
        let c = to_chars(t);
        let ghost before = owned_texts(pending@);
        assert(t@ == trim(all[i as int]));
        assert(c@.skip(0) == c@);
        if c.len() > 0 && c[0] == '#' {
            let text = comment_text_of(t);
            if !divider(text) {
                pending.push(text.to_owned());
                assert(owned_texts(pending@) =~= before.push(text@));
            }
            i += 1;
        } else if c.len() == 0 || starts_with(&c, 0, "import ") || starts_with(&c, 0, "package ") {
            pending.clear();
            assert(owned_texts(pending@) =~= Seq::<Seq<char>>::empty());
            i += 1;
        } else {
            match find_name(&c) {
                Some((a, b)) => {
                    let name = string_of(&c, a, b);
                    let description = if pending.len() > 0 {
                        pending[pending.len() - 1].clone()
                    } else {
                        String::new()
                    };
                    assert(description@ == description_from(before));
                    pending.clear();
                    let end_line = if has_char(&c, '{') {
                        find_rule_end(lines.as_slice(), i)
                    } else {
                        i + 1
                    };
                    let rule = RuleInfo { name, description, start_line: i + 1, end_line };
                    let ghost found = records(rules@);
                    rules.push(rule);
                    proof {
                        assert(owned_texts(pending@) =~= Seq::<Seq<char>>::empty());
                        assert(records(rules@) =~= found + seq![rule@]);
                        assert((found + seq![rule@]) + scan(all, end_line as int, Seq::empty())
                            =~= found + (seq![rule@] + scan(all, end_line as int, Seq::empty())));
                    }
                    i = end_line;
                },
                None => {
                    pending.clear();
                    assert(owned_texts(pending@) =~= Seq::<Seq<char>>::empty());
                    i += 1;
                },
            }
        }
    }
    proof {
        assert(records(rules@) + Seq::<RuleRecord>::empty() =~= records(rules@));
        law_rules_apart(all, 0, Seq::empty());
        assert forall|k: int| 0 <= k < rules.len() implies 1 <= (#[trigger] rules[k]).start_line
            <= rules[k].end_line <= all.len() by {
            assert(records(rules@)[k] == rules[k]@);
        }
        assert forall|a: int, b: int| 0 <= a < b < rules.len() implies (#[trigger] rules[a]).end_line
            < (#[trigger] rules[b]).start_line by {
            assert(records(rules@)[a] == rules[a]@);
            assert(records(rules@)[b] == rules[b]@);
        }
        if forall|j: int| 0 <= j < all.len() ==> !begins_rule(#[trigger] all[j]) {
            law_no_head_no_rule(all, 0, Seq::empty());
        }
    }
    rules
}

} // verus!
