//! The access control list: for every secret whether a user's rules allow it,
//! in ascending order of path.

use vstd::prelude::*;
use vstd::seq_lib::{group_to_multiset_ensures, to_multiset_len};
use crate::glob::{braces_closed, has_closed_braces, matches_checked};
use crate::order::{
    ascending, insertion_point, lemma_path_le_antisymmetric, lemma_path_le_reflexive,
    lemma_path_le_total, path_le, paths_in,
};
use crate::rules::{
    allowed_by, apply_rule, is_deny, is_deny_rule, lemma_default_deny,
    lemma_malformed_rule_is_ignored, pattern_of, rule_pattern,
};
use crate::text::chars_of;

verus! {

/// The paths of `list`, in the order of `list`.
pub open spec fn paths_of(list: Seq<(bool, Seq<char>)>) -> Seq<Seq<char>> {
    list.map_values(|decision: (bool, Seq<char>)| decision.1)
}

/// `list` is the access control list of `paths` under `rules`: it holds every
/// path as often as `paths` does, in ascending order, each with what the
/// rules decide for it.
pub open spec fn is_access_control_list(
    rules: Seq<Seq<char>>,
    paths: Seq<Seq<char>>,
    list: Seq<(bool, Seq<char>)>,
) -> bool {
    &&& paths_of(list).to_multiset() == paths.to_multiset()
    &&& ascending(paths_of(list))
    &&& forall|i: int| 0 <= i < list.len() ==> (#[trigger] list[i]).0 == allowed_by(rules, list[i].1)
}

/// Two ascending sequences that hold the same paths, each as often as the
/// other, are the same sequence.
pub proof fn lemma_ascending_is_unique(a: Seq<Seq<char>>, b: Seq<Seq<char>>)
    requires
        ascending(a),
        ascending(b),
        a.to_multiset() == b.to_multiset(),
    ensures
        a == b,
    decreases a.len(),
{
    broadcast use group_to_multiset_ensures;

    assert(a.len() == b.len()) by {
        to_multiset_len(a);
        to_multiset_len(b);
    }
    if a.len() > 0 {
        assert(a.contains(a[0]));
        assert(b.contains(b[0]));
        assert(b.to_multiset().count(a[0]) > 0);
        assert(a.to_multiset().count(b[0]) > 0);
        let j = choose|j: int| 0 <= j < b.len() && b[j] == a[0];
        let k = choose|k: int| 0 <= k < a.len() && a[k] == b[0];
        assert(path_le(b[0], a[0])) by {
            lemma_path_le_reflexive(b[0]);
        }
        assert(path_le(a[0], b[0])) by {
            lemma_path_le_reflexive(a[0]);
        }
        lemma_path_le_antisymmetric(a[0], b[0]);
        let a_rest = a.remove(0);
        let b_rest = b.remove(0);
        assert(ascending(a_rest)) by {
            assert forall|i: int, j: int| 0 <= i < j < a_rest.len() implies path_le(
                a_rest[i],
                a_rest[j],
            ) by {
                assert(a_rest[i] == a[i + 1] && a_rest[j] == a[j + 1]);
            }
        }
        assert(ascending(b_rest)) by {
            assert forall|i: int, j: int| 0 <= i < j < b_rest.len() implies path_le(
                b_rest[i],
                b_rest[j],
            ) by {
                assert(b_rest[i] == b[i + 1] && b_rest[j] == b[j + 1]);
            }
        }
        lemma_ascending_is_unique(a_rest, b_rest);
        assert forall|i: int| 0 <= i < a.len() implies a[i] == b[i] by {
            if i > 0 {
                assert(a[i] == a_rest[i - 1]);
                assert(b[i] == b_rest[i - 1]);
            }
        }
        assert(a =~= b);
    }
}

/// The order in which the paths are given does not matter: the same rules on
/// the same paths, given in any order, have one access control list.
pub proof fn lemma_path_order_is_irrelevant(
    rules: Seq<Seq<char>>,
    paths: Seq<Seq<char>>,
    shuffled: Seq<Seq<char>>,
    list: Seq<(bool, Seq<char>)>,
    other: Seq<(bool, Seq<char>)>,
)
    requires
        paths.to_multiset() == shuffled.to_multiset(),
        is_access_control_list(rules, paths, list),
        is_access_control_list(rules, shuffled, other),
    ensures
        list == other,
{
    lemma_ascending_is_unique(paths_of(list), paths_of(other));
    assert(list.len() == paths_of(list).len());
    assert(other.len() == paths_of(other).len());
    assert forall|i: int| 0 <= i < list.len() implies list[i] == other[i] by {
        assert(list[i].1 == paths_of(list)[i]);
        assert(other[i].1 == paths_of(other)[i]);
    }
    assert(list =~= other);
}

/// Rules and paths have exactly one access control list: whatever is
/// computed for them twice is the same, order included.
pub proof fn lemma_access_control_list_is_unique(
    rules: Seq<Seq<char>>,
    paths: Seq<Seq<char>>,
    list: Seq<(bool, Seq<char>)>,
    other: Seq<(bool, Seq<char>)>,
)
    requires
        is_access_control_list(rules, paths, list),
        is_access_control_list(rules, paths, other),
    ensures
        list == other,
{
    lemma_path_order_is_irrelevant(rules, paths, paths, list, other);
}

/// A rule whose pattern has an alternative left open changes nothing: the
/// access control list is the one of the rules without it.
pub proof fn lemma_malformed_rule_changes_no_list(
    rules: Seq<Seq<char>>,
    at: int,
    paths: Seq<Seq<char>>,
    list: Seq<(bool, Seq<char>)>,
    other: Seq<(bool, Seq<char>)>,
)
    requires
        0 <= at < rules.len(),
        !braces_closed(pattern_of(rules[at])),
        is_access_control_list(rules, paths, list),
        is_access_control_list(rules.remove(at), paths, other),
    ensures
        list == other,
{
    assert forall|i: int| 0 <= i < list.len() implies (#[trigger] list[i]).0 == allowed_by(
        rules.remove(at),
        list[i].1,
    ) by {
        lemma_malformed_rule_is_ignored(rules, at, list[i].1);
    }
    lemma_access_control_list_is_unique(rules.remove(at), paths, list, other);
}

/// With no rule, the access control list denies every path.
pub proof fn lemma_no_rule_denies_all(paths: Seq<Seq<char>>, list: Seq<(bool, Seq<char>)>)
    requires
        is_access_control_list(Seq::empty(), paths, list),
    ensures
        forall|i: int| 0 <= i < list.len() ==> !(#[trigger] list[i]).0,
{
    assert forall|i: int| 0 <= i < list.len() implies !(#[trigger] list[i]).0 by {
        lemma_default_deny(list[i].1);
    }
}

/// What `access_rules` decide for each of `secrets`, in the order of
/// `secrets`. One rule after the other is applied to all the paths.
pub fn decide(access_rules: &[String], secrets: &[String]) -> (allowed: Vec<bool>)
    ensures
        allowed.len() == secrets.len(),
        forall|i: int|
            0 <= i < secrets.len() ==> allowed[i] == allowed_by(
                access_rules.deep_view(),
                #[trigger] secrets[i]@,
            ),
{
    let mut allowed: Vec<bool> = Vec::new();
    let mut i: usize = 0;
    while i < secrets.len()
        invariant
            i <= secrets.len(),
            allowed.len() == i,
            forall|j: int| 0 <= j < i ==> allowed[j] == false,
        decreases secrets.len() - i,
    {
        allowed.push(false);
        i += 1;
    }
    let ghost rules = access_rules.deep_view();
    let mut k: usize = 0;
    while k < access_rules.len()
        invariant
            k <= access_rules.len(),
            rules == access_rules.deep_view(),
            allowed.len() == secrets.len(),
            forall|j: int|
                0 <= j < secrets.len() ==> allowed[j] == allowed_by(
                    rules.take(k as int),
                    #[trigger] secrets[j]@,
                ),
        decreases access_rules.len() - k,
    {
        let rule = access_rules[k].as_str();
        let deny = is_deny_rule(rule);
        let pattern = rule_pattern(rule);
        let closed = has_closed_braces(pattern);
        let ghost before = allowed@;
        proof {
            assert(rules.take(k + 1).last() == rule@);
            assert(rules.take(k + 1).drop_last() =~= rules.take(k as int));
        }
        let mut i: usize = 0;
        while i < secrets.len()
            invariant
                i <= secrets.len(),
                k < access_rules.len(),
                rules == access_rules.deep_view(),
                rule@ == rules[k as int],
                deny == is_deny(rule@),
                pattern@ == pattern_of(rule@),
                closed == braces_closed(pattern@),
                rules.take(k + 1).last() == rule@,
                rules.take(k + 1).drop_last() == rules.take(k as int),
                allowed.len() == secrets.len(),
                before.len() == secrets.len(),
                forall|j: int|
                    0 <= j < secrets.len() ==> before[j] == allowed_by(
                        rules.take(k as int),
                        #[trigger] secrets[j]@,
                    ),
                forall|j: int| i <= j < secrets.len() ==> allowed[j] == before[j],
                forall|j: int|
                    0 <= j < i ==> allowed[j] == allowed_by(
                        rules.take(k + 1),
                        #[trigger] secrets[j]@,
                    ),
            decreases secrets.len() - i,
        {
            let matched = matches_checked(pattern, secrets[i].as_str(), closed);
            let next = apply_rule(deny, matched, allowed[i]);
            allowed.set(i, next);
            i += 1;
        }
        k += 1;
    }
    assert(rules.take(k as int) =~= rules);
    allowed
}

/// Generate the list of secrets that are accessible by the given access
/// rules: every secret with the decision of the rules, in ascending order of
/// path.
pub fn get_access_control_list(access_rules: &[String], secrets: &[String]) -> (list: Vec<
    (bool, String),
>)
    ensures
        is_access_control_list(
            access_rules.deep_view(),
            secrets.deep_view(),
            list.deep_view(),
        ),
        list.len() == secrets.len(),
        access_rules.len() == 0 ==> forall|i: int| 0 <= i < list.len() ==> !(#[trigger] list[i]).0,
{
    let allowed = decide(access_rules, secrets);
    let ghost rules = access_rules.deep_view();
    let ghost paths = secrets.deep_view();
    let mut list: Vec<(bool, String)> = Vec::new();
    let mut keys: Vec<Vec<char>> = Vec::new();
    let mut i: usize = 0;
    assert(paths_of(list.deep_view()) =~= paths.take(0));
    while i < secrets.len()
        invariant
            i <= secrets.len(),
            rules == access_rules.deep_view(),
            paths == secrets.deep_view(),
            allowed.len() == secrets.len(),
            forall|j: int|
                0 <= j < secrets.len() ==> allowed[j] == allowed_by(rules, #[trigger] secrets[j]@),
            list.len() == i,
            keys.len() == i,
            paths_in(keys@) == paths_of(list.deep_view()),
            ascending(paths_in(keys@)),
            paths_of(list.deep_view()).to_multiset() == paths.take(i as int).to_multiset(),
            forall|j: int|
                0 <= j < list.len() ==> (#[trigger] list.deep_view()[j]).0 == allowed_by(
                    rules,
                    list.deep_view()[j].1,
                ),
        decreases secrets.len() - i,
    {
        let key = chars_of(secrets[i].as_str());
        let at = insertion_point(&keys, key.as_slice());
        let ghost old_keys = paths_in(keys@);
        let ghost old_list = list.deep_view();
        let ghost path = secrets[i as int]@;
        let ghost decision = (allowed[i as int], path);
        keys.insert(at, key);
        list.insert(at, (allowed[i], secrets[i].clone()));
        proof {
            broadcast use group_to_multiset_ensures;

            let new_keys = paths_in(keys@);
            let new_list = list.deep_view();
            assert(new_keys =~= old_keys.insert(at as int, path));
            assert(new_list =~= old_list.insert(at as int, decision));
            assert(paths_of(new_list) =~= paths_of(old_list).insert(at as int, path));
            assert(paths.take(i + 1) =~= paths.take(i as int).push(path));
            assert forall|a: int, b: int| 0 <= a < b < new_keys.len() implies path_le(
                new_keys[a],
                new_keys[b],
            ) by {
                if a == at {
                    assert(new_keys[b] == old_keys[b - 1]);
                    assert(old_keys[b - 1] == keys@[b]@);
                    lemma_path_le_total(path, new_keys[b]);
                } else if b == at {
                    assert(new_keys[a] == old_keys[a]);
                } else {
                    let a0 = if a < at { a } else { a - 1 };
                    let b0 = if b < at { b } else { b - 1 };
                    assert(new_keys[a] == old_keys[a0]);
                    assert(new_keys[b] == old_keys[b0]);
                }
            }
            assert forall|j: int| 0 <= j < new_list.len() implies (#[trigger] new_list[j]).0
                == allowed_by(rules, new_list[j].1) by {
                if j < at {
                    assert(new_list[j] == old_list[j]);
                } else if j > at {
                    assert(new_list[j] == old_list[j - 1]);
                }
            }
        }
        i += 1;
    }
    proof {
        assert(paths.take(i as int) =~= paths);
        if access_rules.len() == 0 {
            assert(rules =~= Seq::empty());
            lemma_no_rule_denies_all(paths, list.deep_view());
            assert forall|j: int| 0 <= j < list.len() implies !(#[trigger] list[j]).0 by {
                assert(list.deep_view()[j].0 == list[j].0);
            }
        }
    }
    list
}

} // verus!
