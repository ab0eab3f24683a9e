//! The names, annotations and types that the Kubernetes manifests of a vault
//! carry.

use vstd::prelude::*;
use vstd::string::StringExecFns;
use crate::text::{chars_of, push_char};

verus! {

/// Annotation of a secret: the path it was made from.
pub const SOURCE_ANNOTATION: &'static str = "kubevault.chezmoi.sh/source";

/// Annotation of a role: the rules it was made from.
pub const RULES_ANNOTATION: &'static str = "kubevault.chezmoi.sh/rules";

/// Annotation of a token secret: the service account it belongs to.
pub const SERVICE_ACCOUNT_ANNOTATION: &'static str = "kubernetes.io/service-account.name";

/// Type of a secret that holds the values of the vault.
pub const OPAQUE_TYPE: &'static str = "Opaque";

/// Type of a secret that holds the token of a service account.
pub const SERVICE_ACCOUNT_TOKEN_TYPE: &'static str = "kubernetes.io/service-account-token";

/// What the name of a role begins with.
pub const ROLE_PREFIX: &'static str = "kubevault:";

/// What the name of a role ends with.
pub const ROLE_SUFFIX: &'static str = ":read";

/// What the name of the secret begins with that an external secret store
/// reads its token from.
pub const STORE_SECRET_PREFIX: &'static str = "kubevault-";

/// `c` with a slash for a backslash.
pub open spec fn slashed_char(c: char) -> char {
    if c == '\\' {
        '/'
    } else {
        c
    }
}

/// `path` with a slash for every backslash.
pub open spec fn slashed(path: Seq<char>) -> Seq<char> {
    path.map_values(|c: char| slashed_char(c))
}

/// `rules` joined, a line feed between one and the next.
pub open spec fn joined(rules: Seq<Seq<char>>) -> Seq<char>
    decreases rules.len(),
{
    if rules.len() == 0 {
        Seq::empty()
    } else if rules.len() == 1 {
        rules[0]
    } else {
        joined(rules.drop_last()) + seq!['\n'] + rules.last()
    }
}

/// The value of the source annotation for the secret at `path`: the path
/// with forward slashes.
pub fn source_annotation(path: &str) -> (source: String)
    ensures
        source@ == slashed(path@),
{
    let mut source = String::new();
    for c in it: path.chars()
        invariant
            it.seq() == path@,
            source@ == slashed(path@.take(it.index() as int)),
    {
        push_char(&mut source, if c == '\\' { '/' } else { c });
        assert(source@ =~= slashed(path@.take(it.index() + 1)));
    }
    assert(path@.take(path@.len() as int) =~= path@);
    source
}

/// The value of the rules annotation for `rules`: one rule a line.
pub fn rules_annotation(rules: &[String]) -> (text: String)
    ensures
        text@ == joined(rules.deep_view()),
{
    let ghost all = rules.deep_view();
    let mut text = String::new();
    let mut i: usize = 0;
    assert(all.take(0) =~= Seq::empty());
    while i < rules.len()
        invariant
            i <= rules.len(),
            all == rules.deep_view(),
            text@ == joined(all.take(i as int)),
        decreases rules.len() - i,
    {
        proof {
            let seen = all.take(i + 1);
            assert(seen.drop_last() =~= all.take(i as int));
            assert(seen.last() == rules[i as int]@);
            if i == 0 {
                assert(seen[0] == rules[0]@);
                assert(Seq::<char>::empty() + rules[0]@ =~= rules[0]@);
            }
        }
        if i > 0 {
            push_char(&mut text, '\n');
        }
        text.append(rules[i].as_str());
        i += 1;
    }
    assert(all.take(i as int) =~= all);
    text
}

/// The name of the role, and of its binding, that lets `account` read its
/// secrets.
pub fn role_name(account: &str) -> (name: String)
    ensures
        name@ == ROLE_PREFIX@ + account@ + ROLE_SUFFIX@,
{
    let mut name = String::from_str(ROLE_PREFIX);
    name.append(account);
    name.append(ROLE_SUFFIX);
    name
}

/// The name of the secret that an external secret store reads the token of
/// `user` from.
pub fn store_secret_name(user: &str) -> (name: String)
    ensures
        name@ == STORE_SECRET_PREFIX@ + user@,
{
    let mut name = String::from_str(STORE_SECRET_PREFIX);
    name.append(user);
    name
}

/// Whether a secret of type `secret_type` holds the token of a service
/// account.
pub fn is_service_account_token(secret_type: &str) -> (token: bool)
    ensures
        token == (secret_type@ == SERVICE_ACCOUNT_TOKEN_TYPE@),
{
    let given = chars_of(secret_type);
    let wanted = chars_of(SERVICE_ACCOUNT_TOKEN_TYPE);
    if given.len() != wanted.len() {
        return false;
    }
    let mut i: usize = 0;
    while i < given.len()
        invariant
            i <= given.len(),
            given.len() == wanted.len(),
            given@ == secret_type@,
            wanted@ == SERVICE_ACCOUNT_TOKEN_TYPE@,
            given@.take(i as int) == wanted@.take(i as int),
        decreases given.len() - i,
    {
        if given[i] != wanted[i] {
            return false;
        }
        assert(given@.take(i + 1) == given@.take(i as int).push(given[i as int]));
        assert(wanted@.take(i + 1) == wanted@.take(i as int).push(wanted[i as int]));
        i += 1;
    }
    assert(given@.take(i as int) == given@);
    assert(wanted@.take(i as int) == wanted@);
    true
}

} // verus!
