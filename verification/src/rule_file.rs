//! The text of a rule file: one rule a line.
//!
//! A line that begins with `#` is a comment, and a line that holds nothing
//! but whitespace is blank: neither holds a rule. Of every other line, what
//! is left when the whitespace at both ends is taken away is a rule, so no
//! rule is empty.

use vstd::prelude::*;
use vstd::slice::slice_subrange;
use crate::text::{chars_of, string_of};

verus! {

/// The character that begins a comment line.
pub const COMMENT_MARK: char = '#';

/// `c` is whitespace: it has the Unicode property `White_Space`.
pub open spec fn is_whitespace(c: char) -> bool {
    ||| '\u{9}' <= c <= '\u{d}'
    ||| c == ' '
    ||| c == '\u{85}'
    ||| c == '\u{a0}'
    ||| c == '\u{1680}'
    ||| '\u{2000}' <= c <= '\u{200a}'
    ||| c == '\u{2028}'
    ||| c == '\u{2029}'
    ||| c == '\u{202f}'
    ||| c == '\u{205f}'
    ||| c == '\u{3000}'
}

/// `line` without the whitespace it begins with.
pub open spec fn trim_start(line: Seq<char>) -> Seq<char>
    decreases line.len(),
{
    if line.len() > 0 && is_whitespace(line.first()) {
        trim_start(line.drop_first())
    } else {
        line
    }
}

/// `line` without the whitespace it ends with.
pub open spec fn trim_end(line: Seq<char>) -> Seq<char>
    decreases line.len(),
{
    if line.len() > 0 && is_whitespace(line.last()) {
        trim_end(line.drop_last())
    } else {
        line
    }
}

/// `line` without the whitespace at both ends.
pub open spec fn trimmed(line: Seq<char>) -> Seq<char> {
    trim_end(trim_start(line))
}

/// Where the line that begins at `start` ends: at the next line feed, or at
/// the end of `text`.
pub open spec fn line_end(text: Seq<char>, start: int) -> int
    decreases text.len() - start,
{
    if start < text.len() && text[start] != '\n' {
        line_end(text, start + 1)
    } else {
        start
    }
}

/// The line of `text` that begins at `start`, without its line ending: a
/// line feed, or a carriage return and a line feed.
pub open spec fn line_at(text: Seq<char>, start: int) -> Seq<char> {
    let end = line_end(text, start);
    if end < text.len() && start < end && text[end - 1] == '\r' {
        text.subrange(start, end - 1)
    } else {
        text.subrange(start, end)
    }
}

/// The lines of `text` from position `start` on.
pub open spec fn lines_from(text: Seq<char>, start: int) -> Seq<Seq<char>>
    decreases text.len() - start,
{
    if 0 <= start < text.len() {
        let end = line_end(text, start);
        if end < text.len() {
            proof {
                lemma_line_end_bounds(text, start);
            }
            seq![line_at(text, start)] + lines_from(text, end + 1)
        } else {
            seq![line_at(text, start)]
        }
    } else {
        Seq::empty()
    }
}

/// The lines of `text`. A line feed after the last line begins no further
/// line.
pub open spec fn lines_of(text: Seq<char>) -> Seq<Seq<char>> {
    lines_from(text, 0)
}

/// `line` is a comment: it begins with the comment mark.
pub open spec fn is_comment(line: Seq<char>) -> bool {
    line.len() > 0 && line[0] == COMMENT_MARK
}

/// `line` is blank: it is empty or holds nothing but whitespace.
pub open spec fn is_blank(line: Seq<char>) -> bool {
    trimmed(line).len() == 0
}

/// `line` holds a rule: it is neither a comment nor blank.
pub open spec fn is_rule_line(line: Seq<char>) -> bool {
    !is_comment(line) && !is_blank(line)
}

/// The rule that `line` holds, if it holds one.
pub open spec fn rule_of_line(line: Seq<char>) -> Option<Seq<char>> {
    if is_rule_line(line) {
        Some(trimmed(line))
    } else {
        None
    }
}

/// The rules that `lines` hold, in order.
pub open spec fn rules_of_lines(lines: Seq<Seq<char>>) -> Seq<Seq<char>> {
    lines.filter_map(|line: Seq<char>| rule_of_line(line))
}

/// The rules that the text of a rule file holds, in order.
pub open spec fn rules_in(text: Seq<char>) -> Seq<Seq<char>> {
    rules_of_lines(lines_of(text))
}

/// No rule that a line holds is empty, and none begins or ends with
/// whitespace.
pub proof fn lemma_rule_of_line_is_trimmed(line: Seq<char>)
    requires
        rule_of_line(line) is Some,
    ensures
        rule_of_line(line)->0.len() > 0,
        !is_whitespace(rule_of_line(line)->0.first()),
        !is_whitespace(rule_of_line(line)->0.last()),
{
    lemma_trim_start_ends(line);
    lemma_trim_end_ends(trim_start(line));
}

/// What is left of a line without the whitespace it begins with is empty or
/// begins with something else, and ends as the line does.
proof fn lemma_trim_start_ends(line: Seq<char>)
    ensures
        trim_start(line).len() > 0 ==> !is_whitespace(trim_start(line).first())
            && trim_start(line).last() == line.last(),
        trim_start(line).len() <= line.len(),
    decreases line.len(),
{
    if line.len() > 0 && is_whitespace(line.first()) {
        lemma_trim_start_ends(line.drop_first());
    }
}

/// What is left of a line without the whitespace it ends with is empty or
/// ends with something else, and begins as the line does.
proof fn lemma_trim_end_ends(line: Seq<char>)
    ensures
        trim_end(line).len() > 0 ==> !is_whitespace(trim_end(line).last()) && trim_end(
            line,
        ).first() == line.first(),
        trim_end(line).len() <= line.len(),
    decreases line.len(),
{
    if line.len() > 0 && is_whitespace(line.last()) {
        lemma_trim_end_ends(line.drop_last());
    }
}

/// A line ends at or behind its start and within the text, at a line feed if
/// the text goes on.
pub proof fn lemma_line_end_bounds(text: Seq<char>, start: int)
    requires
        0 <= start <= text.len(),
    ensures
        start <= line_end(text, start) <= text.len(),
        line_end(text, start) < text.len() ==> text[line_end(text, start)] == '\n',
        forall|i: int| start <= i < line_end(text, start) ==> text[i] != '\n',
    decreases text.len() - start,
{
    if start < text.len() && text[start] != '\n' {
        lemma_line_end_bounds(text, start + 1);
    }
}

/// Whether `c` is whitespace.
pub fn is_whitespace_char(c: char) -> (whitespace: bool)
    ensures
        whitespace == is_whitespace(c),
{
    ('\u{9}' <= c && c <= '\u{d}') || c == ' ' || c == '\u{85}' || c == '\u{a0}' || c
        == '\u{1680}' || ('\u{2000}' <= c && c <= '\u{200a}') || c == '\u{2028}' || c
        == '\u{2029}' || c == '\u{202f}' || c == '\u{205f}' || c == '\u{3000}'
}

/// `line` without the whitespace at both ends.
pub fn trim(line: &[char]) -> (inner: &[char])
    ensures
        inner@ == trimmed(line@),
{
    let n = line.len();
    let mut low: usize = 0;
    assert(line@.subrange(0, n as int) == line@);
    while low < n && is_whitespace_char(line[low])
        invariant
            low <= n,
            n == line.len(),
            trim_start(line@) == trim_start(line@.subrange(low as int, n as int)),
        decreases n - low,
    {
        assert(line@.subrange(low as int, n as int).drop_first() == line@.subrange(
            low + 1,
            n as int,
        ));
        low += 1;
    }
    let ghost rest = line@.subrange(low as int, n as int);
    assert(trim_start(line@) == rest);
    let mut high: usize = n;
    while high > low && is_whitespace_char(line[high - 1])
        invariant
            low <= high <= n,
            n == line.len(),
            rest == line@.subrange(low as int, n as int),
            trim_end(rest) == trim_end(line@.subrange(low as int, high as int)),
        decreases high - low,
    {
        assert(line@.subrange(low as int, high as int).drop_last() == line@.subrange(
            low as int,
            high - 1,
        ));
        high -= 1;
    }
    slice_subrange(line, low, high)
}

/// Reads the rules out of the text of a rule file.
pub fn parse_access_rules(content: &str) -> (rules: Vec<String>)
    ensures
        rules.deep_view() == rules_in(content@),
{
    let chars = chars_of(content);
    let n = chars.len();
    let ghost text = content@;
    let ghost mut done: Seq<Seq<char>> = Seq::empty();
    let mut rules: Vec<String> = Vec::new();
    let mut start: usize = 0;
    assert(rules.deep_view() =~= rules_of_lines(done));
    while start < n
        invariant
            start <= n,
            n == chars.len(),
            chars@ == text,
            lines_of(text) == done + lines_from(text, start as int),
            rules.deep_view() == rules_of_lines(done),
        decreases n - start,
    {
        let mut end: usize = start;
        while end < n && chars[end] != '\n'
            invariant
                start <= end <= n,
                n == chars.len(),
                chars@ == text,
                line_end(text, start as int) == line_end(text, end as int),
            decreases n - end,
        {
            end += 1;
        }
        let stop = if end < n && start < end && chars[end - 1] == '\r' {
            end - 1
        } else {
            end
        };
        let line = slice_subrange(chars.as_slice(), start, stop);
        let ghost before = rules.deep_view();
        proof {
            assert(line@ == line_at(text, start as int));
            let grown = done.push(line@);
            assert(grown.drop_last() == done);
            assert(grown.last() == line@);
            lemma_line_end_bounds(text, start as int);
            assert(done + lines_from(text, start as int) == grown + lines_from(text, end + 1));
            done = grown;
        }
        if !(stop > start && chars[start] == COMMENT_MARK) {
            let rule = trim(line);
            if rule.len() > 0 {
                rules.push(string_of(rule));
                assert(rules.deep_view() == before + seq![trimmed(line@)]);
            }
        }
        if end < n {
            start = end + 1;
        } else {
            start = n;
        }
    }
    assert(done + lines_from(text, start as int) == done);
    rules
}

} // verus!
