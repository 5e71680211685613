//! What holds of every scan.

use vstd::prelude::*;
use crate::braces::{closes_at, first_close, lemma_first_close_bounds, rule_end};
use crate::chars::{is_ident_char, unicode_whitespace};
use crate::comment::{comment_text, description_from, is_comment, is_divider, note};
use crate::head::{ident_end, lemma_name_range_bounds, name_range, rule_name};
use crate::scan::{begins_rule, body_end, head_name, rules_of, scan, RuleRecord};
use crate::text::{
    drop_space, lemma_drop_space_bounds, lemma_skip_space_bounds, lines_from, lines_of, skip_space,
    trim, without_cr,
};

verus! {

/// Trimmed text neither begins nor ends with whitespace.
pub proof fn law_trim_edges(s: Seq<char>)
    ensures
        trim(s).len() > 0 ==> !unicode_whitespace(trim(s).first()) && !unicode_whitespace(
            trim(s).last(),
        ),
{
    let lo = skip_space(s, 0);
    let hi = drop_space(s, lo, s.len() as int);
    lemma_skip_space_bounds(s, 0);
    lemma_drop_space_bounds(s, lo, s.len() as int);
    lemma_skip_space_stops(s, 0);
    lemma_drop_space_stops(s, lo, s.len() as int);
}

/// Skipping whitespace stops at the end or at a character that is none.
proof fn lemma_skip_space_stops(s: Seq<char>, i: int)
    requires
        0 <= i <= s.len(),
    ensures
        skip_space(s, i) < s.len() ==> !unicode_whitespace(s[skip_space(s, i)]),
    decreases s.len() - i,
{
    if i < s.len() && unicode_whitespace(s[i]) {
        lemma_skip_space_stops(s, i + 1);
    }
}

/// Dropping whitespace stops at `lo` or behind a character that is none.
proof fn lemma_drop_space_stops(s: Seq<char>, lo: int, hi: int)
    requires
        0 <= lo <= hi <= s.len(),
    ensures
        lo < drop_space(s, lo, hi) ==> !unicode_whitespace(s[drop_space(s, lo, hi) - 1]),
    decreases hi - lo,
{
    if lo < hi && unicode_whitespace(s[hi - 1]) {
        lemma_drop_space_stops(s, lo, hi - 1);
    }
}

/// Every character of a run of name characters is one.
proof fn lemma_ident_run(s: Seq<char>, i: int, k: int)
    requires
        0 <= i <= k < ident_end(s, i),
    ensures
        is_ident_char(s[k]),
    decreases s.len() - i,
{
    if i < k {
        lemma_ident_run(s, i + 1, k);
    }
}

/// Where the line read so far holds no line feed, no line does.
proof fn lemma_lines_from_hold_no_feed(s: Seq<char>, start: int, i: int)
    requires
        0 <= start <= i <= s.len(),
        forall|k: int| start <= k < i ==> s[k] != '\n',
    ensures
        forall|n: int|
            0 <= n < lines_from(s, start, i).len() ==> !(#[trigger] lines_from(s, start, i)[n]).contains(
                '\n',
            ),
    decreases s.len() - i,
{
    let lines = lines_from(s, start, i);
    if i >= s.len() {
        if start < s.len() {
            let line = s.subrange(start, s.len() as int);
            assert forall|k: int| 0 <= k < line.len() implies line[k] != '\n' by {
                assert(line[k] == s[start + k]);
            }
            assert(lines =~= seq![line]);
            assert(!lines[0].contains('\n'));
        } else {
            assert(lines.len() == 0);
        }
    } else if s[i] == '\n' {
        lemma_lines_from_hold_no_feed(s, i + 1, i + 1);
        let rest = lines_from(s, i + 1, i + 1);
        let line = without_cr(s.subrange(start, i));
        assert forall|k: int| 0 <= k < line.len() implies line[k] != '\n' by {
            assert(line[k] == s[start + k]);
        }
        assert(lines[0] == line);
        assert(!line.contains('\n'));
        assert forall|n: int| 0 <= n < lines.len() implies !(#[trigger] lines[n]).contains('\n') by {
            if n > 0 {
                assert(lines[n] == rest[n - 1]);
            }
        }
    } else {
        lemma_lines_from_hold_no_feed(s, start, i + 1);
        assert(lines == lines_from(s, start, i + 1));
    }
}

/// No line of a text holds a line feed.
pub proof fn law_lines_hold_no_feed(s: Seq<char>)
    ensures
        forall|n: int|
            0 <= n < lines_of(s).len() ==> !(#[trigger] lines_of(s)[n]).contains('\n'),
{
    lemma_lines_from_hold_no_feed(s, 0, 0);
}

/// The name of a rule is not empty and is made of name characters alone.
pub proof fn law_name_is_identifier(t: Seq<char>)
    ensures
        rule_name(t) matches Some(name) ==> name.len() > 0 && forall|k: int|
            0 <= k < name.len() ==> is_ident_char(#[trigger] name[k]),
{
    lemma_name_range_bounds(t);
    if let Some((a, b)) = name_range(t) {
        let name = t.subrange(a, b);
        assert forall|k: int| 0 <= k < name.len() implies is_ident_char(#[trigger] name[k]) by {
            lemma_ident_run(t, a, a + k);
        }
    }
}

/// The line that ends a rule is the first, from the head on, at whose end
/// the braces balance; where no line balances them, it is the last line of
/// the text.
pub proof fn law_rule_end(lines: Seq<Seq<char>>, start: int)
    requires
        0 <= start < lines.len(),
    ensures
        start < rule_end(lines, start) <= lines.len(),
        forall|j: int| start <= j < rule_end(lines, start) - 1 ==> !closes_at(lines, start, j),
        closes_at(lines, start, rule_end(lines, start) - 1) || rule_end(lines, start)
            == lines.len(),
{
    lemma_first_close_bounds(lines, start, start);
    lemma_first_close_is_first(lines, start, start);
}

/// A search finds the first line that balances the braces, or none.
proof fn lemma_first_close_is_first(lines: Seq<Seq<char>>, start: int, i: int)
    requires
        0 <= i <= lines.len(),
    ensures
        forall|j: int| i <= j < first_close(lines, start, i) - 1 ==> !closes_at(lines, start, j),
        closes_at(lines, start, first_close(lines, start, i) - 1) || first_close(lines, start, i)
            == lines.len(),
    decreases lines.len() - i,
{
    if i < lines.len() && !closes_at(lines, start, i) {
        lemma_first_close_is_first(lines, start, i + 1);
    }
}

/// The last line of a rule is not before its head and not behind the text.
pub proof fn lemma_body_end_bounds(lines: Seq<Seq<char>>, i: int)
    requires
        0 <= i < lines.len(),
    ensures
        i < body_end(lines, i) <= lines.len(),
{
    lemma_first_close_bounds(lines, i, i);
}

/// Every rule found from line index `i` on begins behind `i`, ends at or
/// after the line on which it begins and within the text, and ends before
/// any rule found after it begins.
pub proof fn law_rules_apart(lines: Seq<Seq<char>>, i: int, pending: Seq<Seq<char>>)
    requires
        0 <= i,
    ensures
        forall|k: int|
            0 <= k < scan(lines, i, pending).len() ==> i < (#[trigger] scan(
                lines,
                i,
                pending,
            )[k]).start_line <= scan(lines, i, pending)[k].end_line <= lines.len(),
        forall|a: int, b: int|
            0 <= a < b < scan(lines, i, pending).len() ==> (#[trigger] scan(
                lines,
                i,
                pending,
            )[a]).end_line < (#[trigger] scan(lines, i, pending)[b]).start_line,
    decreases lines.len() - i,
{
    if i < lines.len() {
        let t = trim(lines[i]);
        let all = scan(lines, i, pending);
        if is_comment(t) || head_name(t) is None {
            let next = if is_comment(t) {
                note(pending, comment_text(t))
            } else {
                Seq::empty()
            };
            law_rules_apart(lines, i + 1, next);
            assert(all == scan(lines, i + 1, next));
        } else {
            let end = body_end(lines, i);
            lemma_body_end_bounds(lines, i);
            law_rules_apart(lines, end, Seq::empty());
            let rest = scan(lines, end, Seq::empty());
            assert(all.len() == rest.len() + 1);
            assert(all[0].start_line == i + 1 && all[0].end_line == end);
            assert forall|k: int| 1 <= k < all.len() implies all[k] == rest[k - 1] by {}
            assert forall|k: int| 0 <= k < all.len() implies i < (#[trigger] all[k]).start_line
                <= all[k].end_line <= lines.len() by {
                if k > 0 {
                    assert(all[k] == rest[k - 1]);
                }
            }
            assert forall|a: int, b: int| 0 <= a < b < all.len() implies (#[trigger] all[a]).end_line
                < (#[trigger] all[b]).start_line by {
                assert(all[b] == rest[b - 1]);
                if a > 0 {
                    assert(all[a] == rest[a - 1]);
                }
            }
        }
    }
}

/// From a line on from which no line begins a rule, no rule is found.
pub proof fn law_no_head_no_rule(lines: Seq<Seq<char>>, i: int, pending: Seq<Seq<char>>)
    requires
        forall|j: int| i <= j < lines.len() ==> !begins_rule(#[trigger] lines[j]),
    ensures
        scan(lines, i, pending).len() == 0,
    decreases lines.len() - i,
{
    if 0 <= i < lines.len() {
        let t = trim(lines[i]);
        assert(!begins_rule(lines[i]));
        if is_comment(t) {
            law_no_head_no_rule(lines, i + 1, note(pending, comment_text(t)));
        } else {
            law_no_head_no_rule(lines, i + 1, Seq::empty());
        }
    }
}

/// The rules of a policy come in the order of the lines on which they
/// begin, none ends before it begins, and none begins before the one before
/// it has ended.
pub proof fn law_source_order(source: Seq<char>)
    ensures
        forall|k: int|
            0 <= k < rules_of(source).len() ==> 1 <= (#[trigger] rules_of(source)[k]).start_line
                <= rules_of(source)[k].end_line,
        forall|a: int, b: int|
            0 <= a < b < rules_of(source).len() ==> (#[trigger] rules_of(source)[a]).start_line
                <= rules_of(source)[a].end_line < (#[trigger] rules_of(source)[b]).start_line,
{
    law_rules_apart(lines_of(source), 0, Seq::empty());
}

/// Whether `r` is the rule that begins on the line of `lines` that it
/// names: that line begins a rule of that name, whose body ends on the line
/// that `r` gives as its last.
pub open spec fn is_rule_of(lines: Seq<Seq<char>>, r: RuleRecord) -> bool {
    let h = r.start_line - 1;
    0 <= h < lines.len() && head_name(trim(lines[h])) == Some(r.name) && r.end_line == body_end(
        lines,
        h,
    )
}

/// Whether line number `n` lies in the body of one of the rules `rules`:
/// behind its head and not behind its last line.
pub open spec fn in_body(rules: Seq<RuleRecord>, n: int) -> bool {
    exists|k: int| 0 <= k < rules.len() && (#[trigger] rules[k]).start_line < n <= rules[k].end_line
}

/// Every rule found begins on a line that begins a rule, has the name that
/// this line gives it, and ends where the body behind this line ends.
pub proof fn law_rules_are_heads(lines: Seq<Seq<char>>, i: int, pending: Seq<Seq<char>>)
    requires
        0 <= i,
    ensures
        forall|k: int|
            0 <= k < scan(lines, i, pending).len() ==> is_rule_of(
                lines,
                #[trigger] scan(lines, i, pending)[k],
            ),
    decreases lines.len() - i,
{
    if i < lines.len() {
        let t = trim(lines[i]);
        let all = scan(lines, i, pending);
        if is_comment(t) {
            law_rules_are_heads(lines, i + 1, note(pending, comment_text(t)));
            assert(all == scan(lines, i + 1, note(pending, comment_text(t))));
        } else if head_name(t) is None {
            law_rules_are_heads(lines, i + 1, Seq::empty());
            assert(all == scan(lines, i + 1, Seq::empty()));
        } else {
            let end = body_end(lines, i);
            lemma_body_end_bounds(lines, i);
            law_rules_are_heads(lines, end, Seq::empty());
            let rest = scan(lines, end, Seq::empty());
            assert(all.len() == rest.len() + 1);
            assert(all[0].start_line == i + 1 && all[0].end_line == end);
            assert(Some(all[0].name) == head_name(t));
            assert forall|k: int| 0 <= k < all.len() implies is_rule_of(lines, #[trigger] all[k]) by {
                if k > 0 {
                    assert(all[k] == rest[k - 1]);
                }
            }
        }
    }
}

/// Every line that begins a rule and lies in the body of no rule found
/// begins a rule that is found: only the heads inside a body are passed
/// over.
pub proof fn law_heads_are_found(lines: Seq<Seq<char>>, i: int, pending: Seq<Seq<char>>, h: int)
    requires
        0 <= i <= h < lines.len(),
        begins_rule(lines[h]),
        !in_body(scan(lines, i, pending), h + 1),
    ensures
        exists|k: int|
            0 <= k < scan(lines, i, pending).len() && (#[trigger] scan(lines, i, pending)[k]).start_line
                == h + 1,
    decreases lines.len() - i,
{
    let t = trim(lines[i]);
    let all = scan(lines, i, pending);
    if is_comment(t) {
        law_heads_are_found(lines, i + 1, note(pending, comment_text(t)), h);
    } else if head_name(t) is None {
        law_heads_are_found(lines, i + 1, Seq::empty(), h);
    } else {
        let end = body_end(lines, i);
        lemma_body_end_bounds(lines, i);
        let rest = scan(lines, end, Seq::empty());
        assert(all.len() == rest.len() + 1);
        assert(all[0].start_line == i + 1 && all[0].end_line == end);
        if i < h {
            assert(h >= end);
            if in_body(rest, h + 1) {
                let k = choose|k: int|
                    0 <= k < rest.len() && (#[trigger] rest[k]).start_line < h + 1 <= rest[k].end_line;
                assert(all[k + 1] == rest[k]);
            }
            law_heads_are_found(lines, end, Seq::empty(), h);
            let k = choose|k: int| 0 <= k < rest.len() && (#[trigger] rest[k]).start_line == h + 1;
            assert(all[k + 1] == rest[k]);
        }
    }
}

/// A policy none of whose lines begins a rule has no rules.
pub proof fn law_no_heads(source: Seq<char>)
    requires
        forall|j: int|
            0 <= j < lines_of(source).len() ==> !begins_rule(#[trigger] lines_of(source)[j]),
    ensures
        rules_of(source).len() == 0,
{
    law_no_head_no_rule(lines_of(source), 0, Seq::empty());
}

/// The comments noted on the comment lines that stand directly above line
/// index `h`, one after the other without another line between them, from
/// line index `lo` on.
pub open spec fn noted_above(lines: Seq<Seq<char>>, lo: int, h: int) -> Seq<Seq<char>>
    decreases h - lo,
{
    if lo < h && is_comment(trim(lines[h - 1])) {
        note(noted_above(lines, lo, h - 1), comment_text(trim(lines[h - 1])))
    } else {
        Seq::empty()
    }
}

/// A scan that finds a rule finds that rule and then what a scan from
/// behind its last line finds.
proof fn lemma_scan_first(lines: Seq<Seq<char>>, i: int, pending: Seq<Seq<char>>)
    requires
        0 <= i,
        scan(lines, i, pending).len() > 0,
    ensures
        scan(lines, i, pending) == seq![scan(lines, i, pending)[0]] + scan(
            lines,
            scan(lines, i, pending)[0].end_line,
            Seq::empty(),
        ),
    decreases lines.len() - i,
{
    let t = trim(lines[i]);
    if is_comment(t) {
        lemma_scan_first(lines, i + 1, note(pending, comment_text(t)));
    } else if head_name(t) is None {
        lemma_scan_first(lines, i + 1, Seq::empty());
    } else {
        let rest = scan(lines, body_end(lines, i), Seq::empty());
        assert(scan(lines, i, pending).len() == rest.len() + 1);
        assert(scan(lines, i, pending)[0].end_line == body_end(lines, i));
    }
}

/// The first rule found by a scan that has come from line index `lo` to
/// line index `i` over lines that begin no rule is described by the
/// comments directly above its head.
proof fn lemma_first_description(lines: Seq<Seq<char>>, lo: int, i: int)
    requires
        0 <= lo <= i,
        scan(lines, i, noted_above(lines, lo, i)).len() > 0,
    ensures
        scan(lines, i, noted_above(lines, lo, i))[0].description == description_from(
            noted_above(lines, lo, scan(lines, i, noted_above(lines, lo, i))[0].start_line - 1),
        ),
    decreases lines.len() - i,
{
    let t = trim(lines[i]);
    let pending = noted_above(lines, lo, i);
    if is_comment(t) {
        assert(noted_above(lines, lo, i + 1) == note(pending, comment_text(t)));
        lemma_first_description(lines, lo, i + 1);
    } else if head_name(t) is None {
        assert(noted_above(lines, lo, i + 1) == Seq::<Seq<char>>::empty());
        lemma_first_description(lines, lo, i + 1);
    } else {
        let rest = scan(lines, body_end(lines, i), Seq::empty());
        assert(scan(lines, i, pending).len() == rest.len() + 1);
        assert(scan(lines, i, pending)[0].start_line == i + 1);
    }
}

/// The line index from which the comments above the rule `rules[k]` count:
/// the line behind the rule before it, or `lo` for the first rule.
pub open spec fn comments_from(rules: Seq<RuleRecord>, lo: int, k: int) -> int {
    if k == 0 {
        lo
    } else {
        rules[k - 1].end_line
    }
}

/// Every rule is described by the comment lines directly above its head,
/// as far as they do not belong to the rule before it: by what the last of
/// them that is no divider says, or by the empty text where there is none.
pub proof fn law_described_from_above(lines: Seq<Seq<char>>, lo: int)
    requires
        0 <= lo,
    ensures
        forall|k: int|
            0 <= k < scan(lines, lo, Seq::empty()).len() ==> (#[trigger] scan(
                lines,
                lo,
                Seq::empty(),
            )[k]).description == description_from(
                noted_above(
                    lines,
                    comments_from(scan(lines, lo, Seq::empty()), lo, k),
                    scan(lines, lo, Seq::empty())[k].start_line - 1,
                ),
            ),
    decreases lines.len() - lo,
{
    let all = scan(lines, lo, Seq::empty());
    if all.len() > 0 {
        assert(noted_above(lines, lo, lo) == Seq::<Seq<char>>::empty());
        lemma_first_description(lines, lo, lo);
        lemma_scan_first(lines, lo, Seq::empty());
        law_rules_apart(lines, lo, Seq::empty());
        let end = all[0].end_line;
        let rest = scan(lines, end, Seq::empty());
        law_described_from_above(lines, end);
        assert forall|k: int| 0 <= k < all.len() implies (#[trigger] all[k]).description
            == description_from(
            noted_above(lines, comments_from(all, lo, k), all[k].start_line - 1),
        ) by {
            if k > 0 {
                assert(all[k] == rest[k - 1]);
                if k > 1 {
                    assert(all[k - 1] == rest[k - 2]);
                }
                assert(comments_from(all, lo, k) == comments_from(rest, end, k - 1));
            }
        }
    }
}

/// No comment is noted above a line that has no comment line directly
/// above it, and a divider directly above a line adds nothing to what is
/// noted above the divider.
pub proof fn law_noted_above(lines: Seq<Seq<char>>, lo: int, h: int)
    ensures
        !(lo < h && is_comment(trim(lines[h - 1]))) ==> noted_above(lines, lo, h).len() == 0,
        lo < h && is_comment(trim(lines[h - 1])) && is_divider(comment_text(trim(lines[h - 1])))
            ==> noted_above(lines, lo, h) == noted_above(lines, lo, h - 1),
        lo < h && is_comment(trim(lines[h - 1])) && !is_divider(comment_text(trim(lines[h - 1])))
            ==> description_from(noted_above(lines, lo, h)) == comment_text(trim(lines[h - 1])),
{
}

/// Of two comment lines directly above a rule, the second alone describes
/// it, whatever was pending before them.
pub proof fn law_closest_comment(lines: Seq<Seq<char>>, i: int, pending: Seq<Seq<char>>)
    requires
        0 <= i,
        i + 2 < lines.len(),
        is_comment(trim(lines[i])),
        is_comment(trim(lines[i + 1])),
        !is_divider(comment_text(trim(lines[i + 1]))),
        begins_rule(lines[i + 2]),
    ensures
        scan(lines, i, pending).len() > 0,
        scan(lines, i, pending)[0].start_line == i + 3,
        scan(lines, i, pending)[0].description == comment_text(trim(lines[i + 1])),
{
    let first = note(pending, comment_text(trim(lines[i])));
    let second = note(first, comment_text(trim(lines[i + 1])));
    assert(scan(lines, i, pending) == scan(lines, i + 1, first));
    assert(scan(lines, i + 1, first) == scan(lines, i + 2, second));
    assert(second.last() == comment_text(trim(lines[i + 1])));
}

/// A rule directly below a blank line has no description, whatever was
/// pending above the blank line.
pub proof fn law_blank_line_parts(lines: Seq<Seq<char>>, i: int, pending: Seq<Seq<char>>)
    requires
        0 <= i,
        i + 1 < lines.len(),
        trim(lines[i]).len() == 0,
        begins_rule(lines[i + 1]),
    ensures
        scan(lines, i, pending).len() > 0,
        scan(lines, i, pending)[0].start_line == i + 2,
        scan(lines, i, pending)[0].description == Seq::<char>::empty(),
{
    assert(scan(lines, i, pending) == scan(lines, i + 1, Seq::empty()));
}

/// A divider comment describes nothing: the scan goes on behind it as if
/// the line were not there, so a rule directly below a divider that has no
/// other comment above it has no description.
pub proof fn law_divider_says_nothing(lines: Seq<Seq<char>>, i: int, pending: Seq<Seq<char>>)
    requires
        0 <= i < lines.len(),
        is_comment(trim(lines[i])),
        is_divider(comment_text(trim(lines[i]))),
    ensures
        scan(lines, i, pending) == scan(lines, i + 1, pending),
        i + 1 < lines.len() && begins_rule(lines[i + 1]) && pending.len() == 0 ==> scan(
            lines,
            i,
            pending,
        ).len() > 0 && scan(lines, i, pending)[0].description == Seq::<char>::empty(),
{
    if i + 1 < lines.len() && begins_rule(lines[i + 1]) {
        let rest = scan(lines, body_end(lines, i + 1), Seq::empty());
        assert(scan(lines, i + 1, pending).len() == 1 + rest.len());
    }
}

} // verus!
