//! The order of paths: lexicographic by character, a proper prefix first.

use vstd::prelude::*;
use crate::text::chars_of;

verus! {

/// `a` does not come after `b`, looking only at the characters from position
/// `from` on.
pub open spec fn le_from(a: Seq<char>, b: Seq<char>, from: int) -> bool
    decreases a.len() - from,
{
    if from >= a.len() {
        true
    } else if from >= b.len() {
        false
    } else if a[from] != b[from] {
        (a[from] as int) < (b[from] as int)
    } else {
        le_from(a, b, from + 1)
    }
}

/// `a` does not come after `b` in lexicographic order.
pub open spec fn path_le(a: Seq<char>, b: Seq<char>) -> bool {
    le_from(a, b, 0)
}

/// `paths` is in ascending order.
pub open spec fn ascending(paths: Seq<Seq<char>>) -> bool {
    forall|i: int, j: int| 0 <= i < j < paths.len() ==> path_le(paths[i], paths[j])
}

proof fn lemma_le_from_reflexive(a: Seq<char>, from: int)
    ensures
        le_from(a, a, from),
    decreases a.len() - from,
{
    if from < a.len() {
        lemma_le_from_reflexive(a, from + 1);
    }
}

proof fn lemma_le_from_total(a: Seq<char>, b: Seq<char>, from: int)
    ensures
        le_from(a, b, from) || le_from(b, a, from),
    decreases a.len() - from,
{
    if from < a.len() && from < b.len() && a[from] == b[from] {
        lemma_le_from_total(a, b, from + 1);
    }
}

proof fn lemma_le_from_transitive(a: Seq<char>, b: Seq<char>, c: Seq<char>, from: int)
    requires
        le_from(a, b, from),
        le_from(b, c, from),
    ensures
        le_from(a, c, from),
    decreases a.len() - from,
{
    if from < a.len() && a[from] == b[from] && b[from] == c[from] {
        lemma_le_from_transitive(a, b, c, from + 1);
    }
}

proof fn lemma_le_from_antisymmetric(a: Seq<char>, b: Seq<char>, from: int)
    requires
        0 <= from <= a.len(),
        from <= b.len(),
        le_from(a, b, from),
        le_from(b, a, from),
    ensures
        a.len() == b.len(),
        forall|k: int| from <= k < a.len() ==> a[k] == b[k],
    decreases a.len() - from,
{
    if from < a.len() {
        lemma_le_from_antisymmetric(a, b, from + 1);
    }
}

/// Every path stands in order with itself.
pub proof fn lemma_path_le_reflexive(a: Seq<char>)
    ensures
        path_le(a, a),
{
    lemma_le_from_reflexive(a, 0);
}

/// Of two paths one does not come after the other.
pub proof fn lemma_path_le_total(a: Seq<char>, b: Seq<char>)
    ensures
        path_le(a, b) || path_le(b, a),
{
    lemma_le_from_total(a, b, 0);
}

/// The order carries over a path in between.
pub proof fn lemma_path_le_transitive(a: Seq<char>, b: Seq<char>, c: Seq<char>)
    requires
        path_le(a, b),
        path_le(b, c),
    ensures
        path_le(a, c),
{
    lemma_le_from_transitive(a, b, c, 0);
}

/// Two paths that each do not come after the other are the same path.
pub proof fn lemma_path_le_antisymmetric(a: Seq<char>, b: Seq<char>)
    requires
        path_le(a, b),
        path_le(b, a),
    ensures
        a == b,
{
    lemma_le_from_antisymmetric(a, b, 0);
    assert(a =~= b);
}

/// Whether `a` does not come after `b`, both given as characters.
pub fn chars_le(a: &[char], b: &[char]) -> (le: bool)
    ensures
        le == path_le(a@, b@),
{
    let mut i: usize = 0;
    while i < a.len() && i < b.len()
        invariant
            i <= a.len(),
            i <= b.len(),
            path_le(a@, b@) == le_from(a@, b@, i as int),
        decreases a.len() - i,
    {
        if a[i] != b[i] {
            return a[i] < b[i];
        }
        i += 1;
    }
    i >= a.len()
}

/// The paths that `keys` hold, each as its characters.
pub open spec fn paths_in(keys: Seq<Vec<char>>) -> Seq<Seq<char>> {
    keys.map_values(|key: Vec<char>| key@)
}

/// Where a path with the characters `key` goes into `keys`, which are in
/// ascending order: behind every path that does not come after it.
pub fn insertion_point(keys: &Vec<Vec<char>>, key: &[char]) -> (at: usize)
    requires
        ascending(paths_in(keys@)),
    ensures
        at <= keys.len(),
        forall|j: int| 0 <= j < at ==> path_le(#[trigger] keys[j]@, key@),
        forall|j: int| at <= j < keys.len() ==> !path_le(#[trigger] keys[j]@, key@),
{
    let mut low: usize = 0;
    let mut high: usize = keys.len();
    while low < high
        invariant
            low <= high <= keys.len(),
            ascending(paths_in(keys@)),
            forall|j: int| 0 <= j < low ==> path_le(#[trigger] keys[j]@, key@),
            forall|j: int| high <= j < keys.len() ==> !path_le(#[trigger] keys[j]@, key@),
        decreases high - low,
    {
        let mid = low + (high - low) / 2;
        if chars_le(keys[mid].as_slice(), key) {
            assert forall|j: int| 0 <= j < mid + 1 implies path_le(#[trigger] keys[j]@, key@) by {
                if j < mid {
                    assert(path_le(paths_in(keys@)[j], paths_in(keys@)[mid as int]));
                    lemma_path_le_transitive(keys[j]@, keys[mid as int]@, key@);
                }
            }
            low = mid + 1;
        } else {
            assert forall|j: int| mid <= j < keys.len() implies !path_le(
                #[trigger] keys[j]@,
                key@,
            ) by {
                if j > mid && path_le(keys[j]@, key@) {
                    assert(path_le(paths_in(keys@)[mid as int], paths_in(keys@)[j]));
                    lemma_path_le_transitive(keys[mid as int]@, keys[j]@, key@);
                }
            }
            high = mid;
        }
    }
    low
}

/// Whether `a` does not come after `b`.
pub fn str_le(a: &str, b: &str) -> (le: bool)
    ensures
        le == path_le(a@, b@),
{
    let a_chars = chars_of(a);
    let b_chars = chars_of(b);
    chars_le(a_chars.as_slice(), b_chars.as_slice())
}

/// The order in which `names` ascend: the positions of its entries, those of
/// smaller names first and, of equal names, the earlier first.
pub fn ascending_order(names: &[String]) -> (order: Vec<usize>)
    ensures
        order.len() == names.len(),
        forall|k: int| 0 <= k < order.len() ==> #[trigger] order[k] < names.len(),
        order@.no_duplicates(),
        forall|a: int, b: int|
            0 <= a < b < order.len() ==> path_le(
                #[trigger] names[order[a] as int]@,
                #[trigger] names[order[b] as int]@,
            ),
        forall|a: int, b: int|
            0 <= a < b < order.len() && names[order[a] as int]@ == names[order[b] as int]@
                ==> #[trigger] order[a] < #[trigger] order[b],
{
    let mut order: Vec<usize> = Vec::new();
    let mut keys: Vec<Vec<char>> = Vec::new();
    let mut i: usize = 0;
    while i < names.len()
        invariant
            i <= names.len(),
            order.len() == i,
            keys.len() == i,
            forall|k: int| 0 <= k < i ==> #[trigger] order[k] < i,
            order@.no_duplicates(),
            forall|k: int| 0 <= k < i ==> (#[trigger] keys[k])@ == names[order[k] as int]@,
            ascending(paths_in(keys@)),
            forall|a: int, b: int|
                0 <= a < b < i && keys[a]@ == keys[b]@ ==> #[trigger] order[a] < #[trigger] order[b],
        decreases names.len() - i,
    {
        let key = chars_of(names[i].as_str());
        let at = insertion_point(&keys, key.as_slice());
        let ghost old_order = order@;
        let ghost old_keys = keys@;
        keys.insert(at, key);
        order.insert(at, i);
        proof {
            let path = names[i as int]@;
            lemma_path_le_reflexive(path);
            assert forall|k: int| 0 <= k < i + 1 implies #[trigger] order[k] < i + 1 && keys[k]@
                == names[order[k] as int]@ by {
                if k < at {
                    assert(order[k] == old_order[k] && keys[k] == old_keys[k]);
                } else if k > at {
                    assert(order[k] == old_order[k - 1] && keys[k] == old_keys[k - 1]);
                }
            }
            assert forall|a: int, b: int| 0 <= a < b < i + 1 implies order[a] != order[b] by {
                let a0 = if a < at { a } else { a - 1 };
                let b0 = if b < at { b } else { b - 1 };
                if a != at && b != at {
                    assert(order[a] == old_order[a0] && order[b] == old_order[b0]);
                } else if a == at {
                    assert(order[b] == old_order[b0]);
                } else {
                    assert(order[a] == old_order[a0]);
                }
            }
            assert forall|a: int, b: int| 0 <= a < b < i + 1 implies path_le(
                paths_in(keys@)[a],
                paths_in(keys@)[b],
            ) && (keys[a]@ == keys[b]@ ==> order[a] < order[b]) by {
                let a0 = if a < at { a } else { a - 1 };
                let b0 = if b < at { b } else { b - 1 };
                if a == at {
                    assert(keys[b] == old_keys[b0] && order[b] == old_order[b0]);
                    lemma_path_le_total(path, old_keys[b0]@);
                } else if b == at {
                    assert(keys[a] == old_keys[a0] && order[a] == old_order[a0]);
                } else {
                    assert(keys[a] == old_keys[a0] && order[a] == old_order[a0]);
                    assert(keys[b] == old_keys[b0] && order[b] == old_order[b0]);
                    assert(path_le(paths_in(old_keys)[a0], paths_in(old_keys)[b0]));
                }
            }
        }
        i += 1;
    }
    proof {
        assert forall|a: int, b: int| 0 <= a < b < order.len() implies path_le(
            #[trigger] names[order[a] as int]@,
            #[trigger] names[order[b] as int]@,
        ) by {
            assert(path_le(paths_in(keys@)[a], paths_in(keys@)[b]));
        }
    }
    order
}

} // verus!
