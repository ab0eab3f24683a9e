//! Glob matching of one pattern against one path, done by the `glob-match`
//! crate.
//!
//! A pattern is handed to the matcher only if each of its alternatives is
//! closed: a pattern with a `{` that no `}` closes matches no path.

use vstd::prelude::*;
use vstd::utf8::encode_utf8;
use crate::text::chars_of;

verus! {

/// Longest pattern, in bytes of UTF-8, that is handed to the matcher. The
/// matcher counts the open braces of a pattern in a signed 32-bit number.
pub const MAX_PATTERN_BYTES: usize = 0x7FFF_FFFF;

/// Longest path, in bytes of UTF-8, that is handed to the matcher. The
/// matcher keeps positions in 32-bit fields and adds one to them.
pub const MAX_PATH_BYTES: usize = 0xFFFF_FFFE;

/// What `glob_match::glob_match` answers for `pattern` and `path`, on the
/// target the crate is built for.
pub uninterp spec fn glob_match_result(pattern: Seq<char>, path: Seq<char>) -> bool;

/// Whether `pattern` and `path` are short enough for the matcher.
pub open spec fn within_glob_limits(pattern: Seq<char>, path: Seq<char>) -> bool {
    &&& encode_utf8(pattern).len() <= MAX_PATTERN_BYTES
    &&& encode_utf8(path).len() <= MAX_PATH_BYTES
}

/// The position behind the character at `at`: behind the next character
/// too where a backslash at `at` escapes it.
pub open spec fn next_position(pattern: Seq<char>, at: int) -> int {
    if pattern[at] == '\\' && at + 1 < pattern.len() {
        at + 2
    } else {
        at + 1
    }
}

/// How many alternatives are open at the end of `pattern`, read from
/// position `at` on with `open` of them open and, if `in_class`, inside a
/// character class. A `{` opens an alternative and a `}` closes the one
/// opened last; between `[` and `]`, behind a backslash, or with no
/// alternative open, they are ordinary characters.
pub open spec fn open_at_end(pattern: Seq<char>, at: int, open: nat, in_class: bool) -> nat
    decreases pattern.len() - at,
{
    if at < 0 || at >= pattern.len() {
        open
    } else {
        let c = pattern[at];
        let next = next_position(pattern, at);
        if c == '\\' {
            open_at_end(pattern, next, open, in_class)
        } else if in_class {
            open_at_end(pattern, next, open, c != ']')
        } else if c == '[' {
            open_at_end(pattern, next, open, true)
        } else if c == '{' {
            open_at_end(pattern, next, open + 1, false)
        } else if c == '}' && open > 0 {
            open_at_end(pattern, next, (open - 1) as nat, false)
        } else {
            open_at_end(pattern, next, open, false)
        }
    }
}

/// Every alternative of `pattern` is closed.
pub open spec fn braces_closed(pattern: Seq<char>) -> bool {
    open_at_end(pattern, 0, 0, false) == 0
}

/// Whether `pattern` matches `path`. A pattern with an alternative left
/// open matches nothing; text beyond the matcher's limits matches nothing
/// and is matched by nothing.
pub open spec fn glob_matches(pattern: Seq<char>, path: Seq<char>) -> bool {
    &&& braces_closed(pattern)
    &&& within_glob_limits(pattern, path)
    &&& glob_match_result(pattern, path)
}

/// A pattern with an alternative left open matches no path.
pub proof fn lemma_open_brace_never_matches(pattern: Seq<char>, path: Seq<char>)
    requires
        !braces_closed(pattern),
    ensures
        !glob_matches(pattern, path),
{
}

/// Once open, an alternative stays open where no `}` follows and nothing
/// that makes a brace an ordinary character.
proof fn lemma_stays_open(pattern: Seq<char>, at: int, open: nat)
    requires
        0 <= at <= pattern.len(),
        forall|i: int|
            0 <= i < pattern.len() ==> pattern[i] != '}' && pattern[i] != '[' && pattern[i]
                != '\\',
    ensures
        open_at_end(pattern, at, open, false) >= open,
    decreases pattern.len() - at,
{
    if at < pattern.len() {
        if pattern[at] == '{' {
            lemma_stays_open(pattern, at + 1, open + 1);
        } else {
            lemma_stays_open(pattern, at + 1, open);
        }
    }
}

/// A `{` at or behind `from` is still open at the end.
proof fn lemma_opens(pattern: Seq<char>, from: int, open: nat, at: int)
    requires
        0 <= from <= at < pattern.len(),
        pattern[at] == '{',
        forall|i: int|
            0 <= i < pattern.len() ==> pattern[i] != '}' && pattern[i] != '[' && pattern[i]
                != '\\',
    ensures
        open_at_end(pattern, from, open, false) > open,
    decreases at - from,
{
    if from == at {
        lemma_stays_open(pattern, at + 1, open + 1);
    } else if pattern[from] == '{' {
        lemma_opens(pattern, from + 1, open + 1, at);
    } else {
        lemma_opens(pattern, from + 1, open, at);
    }
}

/// A pattern that holds a `{`, and neither a `}` nor a `[` nor a backslash,
/// has an alternative left open, and so matches no path.
pub proof fn lemma_brace_without_close_is_open(pattern: Seq<char>, at: int, path: Seq<char>)
    requires
        0 <= at < pattern.len(),
        pattern[at] == '{',
        forall|i: int|
            0 <= i < pattern.len() ==> pattern[i] != '}' && pattern[i] != '[' && pattern[i]
                != '\\',
    ensures
        !braces_closed(pattern),
        !glob_matches(pattern, path),
{
    lemma_opens(pattern, 0, 0, at);
}

/// Calls `glob_match::glob_match`. The contract names the answer and claims
/// nothing else of it: that the matcher returns, and returns the same answer
/// for the same two texts, is taken from its source and not proved. The
/// bounds keep its arithmetic from overflowing: the 32-bit positions in the
/// path, to which it adds one, and the signed 32-bit count of open braces in
/// the pattern.
#[verifier::external_body]
fn glob_match_call(pattern: &str, path: &str) -> (matched: bool)
    requires
        within_glob_limits(pattern@, path@),
    ensures
        matched == glob_match_result(pattern@, path@),
{
    glob_match::glob_match(pattern, path)
}

/// Whether every alternative of `pattern` is closed.
pub fn has_closed_braces(pattern: &str) -> (closed: bool)
    ensures
        closed == braces_closed(pattern@),
{
    let chars = chars_of(pattern);
    let n = chars.len();
    let mut open: usize = 0;
    let mut in_class = false;
    let mut at: usize = 0;
    while at < n
        invariant
            at <= n,
            n == chars.len(),
            chars@ == pattern@,
            open <= at,
            open_at_end(pattern@, 0, 0, false) == open_at_end(
                pattern@,
                at as int,
                open as nat,
                in_class,
            ),
        decreases n - at,
    {
        let c = chars[at];
        if c == '\\' {
            if at + 1 < n {
                at += 1;
            }
        } else if in_class {
            in_class = c != ']';
        } else if c == '[' {
            in_class = true;
        } else if c == '{' {
            open += 1;
        } else if c == '}' && open > 0 {
            open -= 1;
        }
        at += 1;
    }
    open == 0
}

/// Matches `path` against `pattern`, given in `closed` whether every
/// alternative of the pattern is closed.
pub(crate) fn matches_checked(pattern: &str, path: &str, closed: bool) -> (matched: bool)
    requires
        closed == braces_closed(pattern@),
    ensures
        matched == glob_matches(pattern@, path@),
{
    if !closed || pattern.as_bytes().len() > MAX_PATTERN_BYTES || path.as_bytes().len()
        > MAX_PATH_BYTES {
        false
    } else {
        glob_match_call(pattern, path)
    }
}

/// Matches `path` against `pattern`.
pub fn matches_glob(pattern: &str, path: &str) -> (matched: bool)
    ensures
        matched == glob_matches(pattern@, path@),
{
    let closed = has_closed_braces(pattern);
    matches_checked(pattern, path, closed)
}

} // verus!
