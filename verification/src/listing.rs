//! The secrets of an access control list under their Kubernetes names.

use vstd::prelude::*;
use crate::dns1035::{
    enforce_dns1035_format, is_label, label_of, lowercase_of, InvalidName, DNS1035_PATTERN,
};

verus! {

/// A secret as it is shown to a user or granted to an account.
#[derive(Debug)]
pub struct NamedSecret {
    /// Whether the rules allow the secret.
    pub allowed: bool,
    /// The DNS-1035 label made of the path.
    pub name: String,
    /// The path of the secret.
    pub path: String,
}

impl View for NamedSecret {
    type V = (bool, Seq<char>, Seq<char>);

    open spec fn view(&self) -> (bool, Seq<char>, Seq<char>) {
        (self.allowed, self.name@, self.path@)
    }
}

/// The views of `secrets`, in order.
pub open spec fn named_views(secrets: Seq<NamedSecret>) -> Seq<(bool, Seq<char>, Seq<char>)> {
    secrets.map_values(|secret: NamedSecret| secret@)
}

/// Whether a secret is listed: an allowed one always, a denied one unless
/// only the allowed are asked for.
pub open spec fn is_listed(allowed: bool, only_allowed: bool) -> bool {
    allowed || !only_allowed
}

/// One secret under its name, if it is listed, or its path in lower case
/// where the path has no label.
pub open spec fn named_one(decision: (bool, Seq<char>), only_allowed: bool) -> Result<
    Option<(bool, Seq<char>, Seq<char>)>,
    Seq<char>,
> {
    if !is_listed(decision.0, only_allowed) {
        Ok(None)
    } else {
        match label_of(decision.1) {
            Some(name) => Ok(Some((decision.0, name, decision.1))),
            None => Err(lowercase_of(decision.1)),
        }
    }
}

/// The listed secrets of `list` under their names, in the order of `list`,
/// or, where the path of a listed secret has no label, the first such path
/// in lower case.
pub open spec fn named(list: Seq<(bool, Seq<char>)>, only_allowed: bool) -> Result<
    Seq<(bool, Seq<char>, Seq<char>)>,
    Seq<char>,
>
    decreases list.len(),
{
    if list.len() == 0 {
        Ok(Seq::empty())
    } else {
        match named(list.drop_last(), only_allowed) {
            Err(name) => Err(name),
            Ok(secrets) => match named_one(list.last(), only_allowed) {
                Err(name) => Err(name),
                Ok(None) => Ok(secrets),
                Ok(Some(secret)) => Ok(secrets.push(secret)),
            },
        }
    }
}

/// Where every secret is named, every name is a label, nothing denied is
/// listed among the allowed, and no more secrets are listed than there are.
pub proof fn lemma_named_are_labels(list: Seq<(bool, Seq<char>)>, only_allowed: bool)
    requires
        named(list, only_allowed) is Ok,
    ensures
        named(list, only_allowed)->Ok_0.len() <= list.len(),
        forall|i: int|
            0 <= i < named(list, only_allowed)->Ok_0.len() ==> {
                let secret = #[trigger] named(list, only_allowed)->Ok_0[i];
                &&& is_listed(secret.0, only_allowed)
                &&& is_label(secret.1)
                &&& label_of(secret.2) == Some(secret.1)
            },
    decreases list.len(),
{
    if list.len() > 0 {
        lemma_named_are_labels(list.drop_last(), only_allowed);
    }
}

/// Where all are listed and every path has a label, the secrets are those of
/// the list, one for one.
pub proof fn lemma_named_all(list: Seq<(bool, Seq<char>)>)
    requires
        forall|i: int| 0 <= i < list.len() ==> label_of((#[trigger] list[i]).1) is Some,
    ensures
        named(list, false) is Ok,
        named(list, false)->Ok_0.len() == list.len(),
        forall|i: int|
            0 <= i < list.len() ==> #[trigger] named(list, false)->Ok_0[i] == (
                list[i].0,
                label_of(list[i].1)->0,
                list[i].1,
            ),
    decreases list.len(),
{
    if list.len() > 0 {
        let rest = list.drop_last();
        assert forall|i: int| 0 <= i < rest.len() implies label_of((#[trigger] rest[i]).1)
            is Some by {
            assert(rest[i] == list[i]);
        }
        lemma_named_all(rest);
        assert(list.last() == list[list.len() - 1]);
        assert forall|i: int| 0 <= i < list.len() implies #[trigger] named(list, false)->Ok_0[i]
            == (list[i].0, label_of(list[i].1)->0, list[i].1) by {
            if i < rest.len() {
                assert(rest[i] == list[i]);
                assert(named(list, false)->Ok_0[i] == named(rest, false)->Ok_0[i]);
            }
        }
    }
}

/// Names one secret of an access control list, if it is listed: an allowed
/// one always, a denied one unless `only_allowed`. Fails where the path of a
/// listed secret cannot be made a label.
pub fn name_secret(allowed: bool, path: &str, only_allowed: bool) -> (listed: Result<
    Option<NamedSecret>,
    InvalidName,
>)
    ensures
        match listed {
            Ok(Some(secret)) => named_one((allowed, path@), only_allowed) == Ok::<_, Seq<char>>(
                Some(secret@),
            ),
            Ok(None) => named_one((allowed, path@), only_allowed) == Ok::<
                Option<(bool, Seq<char>, Seq<char>)>,
                Seq<char>,
            >(None),
            Err(invalid) => named_one((allowed, path@), only_allowed) == Err::<
                Option<(bool, Seq<char>, Seq<char>)>,
                _,
            >(invalid.name@) && invalid.pattern@ == DNS1035_PATTERN@,
        },
{
    if allowed || !only_allowed {
        match enforce_dns1035_format(path) {
            Ok(name) => Ok(Some(NamedSecret { allowed, name, path: path.to_owned() })),
            Err(invalid) => Err(invalid),
        }
    } else {
        Ok(None)
    }
}

/// Names the secrets of an access control list: the allowed ones, and the
/// denied ones too unless `only_allowed`. Fails at the first listed secret
/// whose path cannot be made a label.
pub fn name_secrets(list: &[(bool, String)], only_allowed: bool) -> (listed: Result<
    Vec<NamedSecret>,
    InvalidName,
>)
    ensures
        match listed {
            Ok(secrets) => named(list.deep_view(), only_allowed) == Ok::<_, Seq<char>>(
                named_views(secrets@),
            ),
            Err(invalid) => named(list.deep_view(), only_allowed) == Err::<
                Seq<(bool, Seq<char>, Seq<char>)>,
                _,
            >(invalid.name@) && invalid.pattern@ == DNS1035_PATTERN@,
        },
{
    let ghost whole = list.deep_view();
    let mut secrets: Vec<NamedSecret> = Vec::new();
    let mut i: usize = 0;
    assert(named_views(secrets@) =~= Seq::empty());
    assert(whole.take(0) =~= Seq::empty());
    while i < list.len()
        invariant
            i <= list.len(),
            whole == list.deep_view(),
            named(whole.take(i as int), only_allowed) == Ok::<_, Seq<char>>(named_views(secrets@)),
        decreases list.len() - i,
    {
        let ghost before = named_views(secrets@);
        proof {
            let seen = whole.take(i + 1);
            assert(seen.drop_last() =~= whole.take(i as int));
            assert(seen.last() == (list[i as int].0, list[i as int].1@));
        }
        match name_secret(list[i].0, list[i].1.as_str(), only_allowed) {
            Ok(Some(secret)) => {
                secrets.push(secret);
                assert(named_views(secrets@) =~= before.push(secret@));
            },
            Ok(None) => {},
            Err(invalid) => {
                proof {
                    lemma_named_stays_err(whole, i + 1, only_allowed);
                }
                return Err(invalid);
            },
        }
        i += 1;
    }
    assert(whole.take(i as int) =~= whole);
    Ok(secrets)
}

/// Once a path has no label, no later secret changes that.
proof fn lemma_named_stays_err(list: Seq<(bool, Seq<char>)>, upto: int, only_allowed: bool)
    requires
        0 <= upto <= list.len(),
        named(list.take(upto), only_allowed) is Err,
    ensures
        named(list, only_allowed) == named(list.take(upto), only_allowed),
    decreases list.len() - upto,
{
    if upto < list.len() {
        assert(list.take(upto + 1).drop_last() =~= list.take(upto));
        lemma_named_stays_err(list, upto + 1, only_allowed);
    } else {
        assert(list.take(upto) =~= list);
    }
}

} // verus!
