//! What a list of access rules decides for one path.
//!
//! A rule is a glob pattern that allows the paths it matches, or, behind a
//! leading `!`, a glob pattern that takes the paths it matches away again.
//! Rules apply in the order given, and a path that no rule allows is denied.

use vstd::prelude::*;
use crate::glob::{braces_closed, glob_matches};

verus! {

/// The character that makes a rule a denial.
pub const DENY_MARK: char = '!';

/// Whether `rule` takes access away.
pub open spec fn is_deny(rule: Seq<char>) -> bool {
    rule.len() > 0 && rule[0] == DENY_MARK
}

/// The glob pattern of `rule`: the rule itself, without the mark of a denial.
pub open spec fn pattern_of(rule: Seq<char>) -> Seq<char> {
    if is_deny(rule) {
        rule.subrange(1, rule.len() as int)
    } else {
        rule
    }
}

/// Whether the pattern of `rule` matches `path`.
pub open spec fn rule_matches(rule: Seq<char>, path: Seq<char>) -> bool {
    glob_matches(pattern_of(rule), path)
}

/// The state of a path after one rule: an allowing rule that matches opens
/// it, a denying rule that matches closes it, a rule that does not match
/// leaves it as it was.
pub open spec fn after_rule(deny: bool, matched: bool, allowed: bool) -> bool {
    if deny {
        !matched && allowed
    } else {
        matched || allowed
    }
}

/// Whether `path` is allowed once `rules` have been applied in order,
/// starting from denied.
pub open spec fn allowed_by(rules: Seq<Seq<char>>, path: Seq<char>) -> bool
    decreases rules.len(),
{
    if rules.len() == 0 {
        false
    } else {
        after_rule(
            is_deny(rules.last()),
            rule_matches(rules.last(), path),
            allowed_by(rules.drop_last(), path),
        )
    }
}

/// With no rule at all, every path is denied.
pub proof fn lemma_default_deny(path: Seq<char>)
    ensures
        !allowed_by(Seq::empty(), path),
{
}

/// A path that no allowing rule matches is denied.
pub proof fn lemma_unmatched_is_denied(rules: Seq<Seq<char>>, path: Seq<char>)
    requires
        forall|i: int|
            0 <= i < rules.len() && !is_deny(rules[i]) ==> !rule_matches(#[trigger] rules[i], path),
    ensures
        !allowed_by(rules, path),
    decreases rules.len(),
{
    if rules.len() > 0 {
        let rest = rules.drop_last();
        assert forall|i: int| 0 <= i < rest.len() && !is_deny(rest[i]) implies !rule_matches(
            #[trigger] rest[i],
            path,
        ) by {
            assert(rest[i] == rules[i]);
        }
        lemma_unmatched_is_denied(rest, path);
        assert(rules.last() == rules[rules.len() - 1]);
    }
}

/// An allowing rule takes no access away: a path that was allowed stays
/// allowed behind it.
pub proof fn lemma_allow_rule_keeps_allowed(
    rules: Seq<Seq<char>>,
    rule: Seq<char>,
    path: Seq<char>,
)
    requires
        !is_deny(rule),
        allowed_by(rules, path),
    ensures
        allowed_by(rules.push(rule), path),
{
    assert(rules.push(rule).drop_last() =~= rules);
}

/// A denying rule gives no access: a path that was denied stays denied
/// behind it.
pub proof fn lemma_deny_rule_keeps_denied(rules: Seq<Seq<char>>, rule: Seq<char>, path: Seq<char>)
    requires
        is_deny(rule),
        !allowed_by(rules, path),
    ensures
        !allowed_by(rules.push(rule), path),
{
    assert(rules.push(rule).drop_last() =~= rules);
}

/// A rule that does not match a path leaves it as it was.
pub proof fn lemma_unmatched_rule_changes_nothing(
    rules: Seq<Seq<char>>,
    rule: Seq<char>,
    path: Seq<char>,
)
    requires
        !rule_matches(rule, path),
    ensures
        allowed_by(rules.push(rule), path) == allowed_by(rules, path),
{
    assert(rules.push(rule).drop_last() =~= rules);
}

/// A rule that does not match a path can be taken out of the list without
/// changing what the list decides for the path.
pub proof fn lemma_unmatched_rule_is_redundant(rules: Seq<Seq<char>>, at: int, path: Seq<char>)
    requires
        0 <= at < rules.len(),
        !rule_matches(rules[at], path),
    ensures
        allowed_by(rules.remove(at), path) == allowed_by(rules, path),
    decreases rules.len(),
{
    if at == rules.len() - 1 {
        assert(rules.remove(at) =~= rules.drop_last());
    } else {
        let rest = rules.drop_last();
        assert(rest[at] == rules[at]);
        lemma_unmatched_rule_is_redundant(rest, at, path);
        assert(rules.remove(at).drop_last() =~= rest.remove(at));
        assert(rules.remove(at).last() == rules.last());
    }
}

/// A rule whose pattern has an alternative left open matches no path, so
/// the list decides for every path what it decides without the rule.
pub proof fn lemma_malformed_rule_is_ignored(rules: Seq<Seq<char>>, at: int, path: Seq<char>)
    requires
        0 <= at < rules.len(),
        !braces_closed(pattern_of(rules[at])),
    ensures
        !rule_matches(rules[at], path),
        allowed_by(rules.remove(at), path) == allowed_by(rules, path),
{
    lemma_unmatched_rule_is_redundant(rules, at, path);
}

/// The last rule that matches a path decides: the path is allowed exactly
/// when some allowing rule matches it and no denying rule after that one
/// does.
pub proof fn lemma_last_match_decides(rules: Seq<Seq<char>>, path: Seq<char>)
    ensures
        allowed_by(rules, path) <==> exists|i: int|
            0 <= i < rules.len() && !is_deny(rules[i]) && rule_matches(#[trigger] rules[i], path)
                && forall|j: int|
                i < j < rules.len() && is_deny(rules[j]) ==> !rule_matches(
                    #[trigger] rules[j],
                    path,
                ),
    decreases rules.len(),
{
    if rules.len() > 0 {
        let rest = rules.drop_last();
        let n = rules.len() - 1;
        let last = rules[n];
        assert(rules.last() == last);
        lemma_last_match_decides(rest, path);
        assert(forall|k: int| 0 <= k < n ==> rest[k] == rules[k]);
        if allowed_by(rules, path) {
            if is_deny(last) || !rule_matches(last, path) {
                let i = choose|i: int|
                    0 <= i < rest.len() && !is_deny(rest[i]) && rule_matches(
                        #[trigger] rest[i],
                        path,
                    ) && forall|j: int|
                        i < j < rest.len() && is_deny(rest[j]) ==> !rule_matches(
                            #[trigger] rest[j],
                            path,
                        );
                assert(rules[i] == rest[i]);
                assert forall|j: int| i < j < rules.len() && is_deny(rules[j]) implies !rule_matches(
                    #[trigger] rules[j],
                    path,
                ) by {
                    if j < n {
                        assert(rest[j] == rules[j]);
                    }
                }
            } else {
                assert(!is_deny(rules[n]) && rule_matches(rules[n], path));
            }
        }
        if exists|i: int|
            0 <= i < rules.len() && !is_deny(rules[i]) && rule_matches(#[trigger] rules[i], path)
                && forall|j: int|
                i < j < rules.len() && is_deny(rules[j]) ==> !rule_matches(
                    #[trigger] rules[j],
                    path,
                ) {
            let i = choose|i: int|
                0 <= i < rules.len() && !is_deny(rules[i]) && rule_matches(
                    #[trigger] rules[i],
                    path,
                ) && forall|j: int|
                    i < j < rules.len() && is_deny(rules[j]) ==> !rule_matches(
                        #[trigger] rules[j],
                        path,
                    );
            if i < n {
                assert(rest[i] == rules[i]);
                assert forall|j: int| i < j < rest.len() && is_deny(rest[j]) implies !rule_matches(
                    #[trigger] rest[j],
                    path,
                ) by {
                    assert(rest[j] == rules[j]);
                }
                assert(allowed_by(rest, path));
                if is_deny(last) {
                    assert(!rule_matches(rules[n], path));
                }
            }
        }
    }
}

/// The order of rules matters. Where an allowing and a denying rule both
/// match a path, the path is denied if the denial comes last and allowed if
/// the allowance comes last.
pub proof fn lemma_rule_order_decides(allow: Seq<char>, deny: Seq<char>, path: Seq<char>)
    requires
        !is_deny(allow),
        is_deny(deny),
        rule_matches(allow, path),
        rule_matches(deny, path),
    ensures
        !allowed_by(seq![allow, deny], path),
        allowed_by(seq![deny, allow], path),
{
    let denied = seq![allow, deny];
    let opened = seq![deny, allow];
    assert(denied.last() == deny);
    assert(opened.last() == allow);
    assert(opened.drop_last() =~= seq![deny]);
}

/// Whether `rule` takes access away.
pub fn is_deny_rule(rule: &str) -> (deny: bool)
    ensures
        deny == is_deny(rule@),
{
    !rule.is_empty() && rule.get_char(0) == DENY_MARK
}

/// The glob pattern of `rule`.
pub fn rule_pattern(rule: &str) -> (pattern: &str)
    ensures
        pattern@ == pattern_of(rule@),
{
    if is_deny_rule(rule) {
        rule.substring_char(1, rule.unicode_len())
    } else {
        rule
    }
}

/// The state of a path after a rule that denies or allows (`deny`), given
/// whether the rule's pattern matched the path and whether the path was
/// allowed before.
pub fn apply_rule(deny: bool, matched: bool, allowed: bool) -> (next: bool)
    ensures
        next == after_rule(deny, matched, allowed),
{
    if deny {
        !matched && allowed
    } else {
        matched || allowed
    }
}

} // verus!
