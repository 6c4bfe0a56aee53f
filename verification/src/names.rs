//! Facts about the names of a group while it is brought in line with a new
//! descriptor: which names stay, which are new, and that none occurs twice.
use crate::model::counterpart;
use crate::model::is_missing;
use crate::model::kept_names;
use crate::model::missing_names_upto;
use crate::model::named_child;
use crate::node::distinct;
use vstd::prelude::*;

verus! {

/// Whether `key` is among the first `n` entries of `names`.
pub open spec fn occurs(names: Seq<Seq<char>>, n: int, key: Seq<char>) -> bool {
    exists|j: int| 0 <= j < n && j < names.len() && #[trigger] names[j] == key
}

/// What it means for a name to have a child, or to have none, among the
/// first `count` children.
pub proof fn lemma_named_child(names: Seq<Seq<char>>, count: nat, key: Seq<char>)
    ensures
        match named_child(names, count, key) {
            Some(k) => 0 <= k < count && k < names.len() && names[k] == key,
            None => !occurs(names, count as int, key),
        },
{
    names.index_of_first_ensures(key);
    match names.index_of_first(key) {
        Some(k) => {
            if k >= count {
                assert forall|j: int| 0 <= j < count && j < names.len() implies #[trigger] names[j]
                    != key by {}
            }
        },
        None => {
            assert forall|j: int| 0 <= j < count && j < names.len() implies #[trigger] names[j]
                != key by {
                if names[j] == key {
                    assert(names.contains(key));
                }
            }
        },
    }
}

/// A name that occurs among the first `count` has a child there.
pub proof fn lemma_occurs_named(names: Seq<Seq<char>>, count: nat, key: Seq<char>)
    requires
        occurs(names, count as int, key),
    ensures
        named_child(names, count, key).is_some(),
{
    lemma_named_child(names, count, key);
}

/// The names that stay are names of mounted children that the new group has
/// too; none occurs twice; and every such name stays.
pub proof fn lemma_kept_names(
    names: Seq<Seq<char>>,
    count: nat,
    new_names: Seq<Seq<char>>,
    new_count: nat,
    n: nat,
)
    requires
        n <= count,
        distinct(names),
    ensures
        ({
            let kept = kept_names(names, count, new_names, new_count, n);
            &&& distinct(kept)
            &&& forall|a: int|
                0 <= a < kept.len() ==> occurs(names, n as int, #[trigger] kept[a]) && occurs(
                    new_names,
                    new_count as int,
                    kept[a],
                )
            &&& forall|j: int|
                0 <= j < n && counterpart(names, new_names, new_count, j).is_some()
                    ==> kept.contains(#[trigger] names[j])
        }),
    decreases n,
{
    let kept = kept_names(names, count, new_names, new_count, n);
    if n > 0 {
        let before = kept_names(names, count, new_names, new_count, (n - 1) as nat);
        lemma_kept_names(names, count, new_names, new_count, (n - 1) as nat);
        if counterpart(names, new_names, new_count, n - 1).is_some() {
            let last = names[n - 1];
            lemma_named_child(new_names, new_count, last);
            assert(kept =~= before.push(last));
            assert forall|a: int| 0 <= a < kept.len() implies occurs(
                names,
                n as int,
                #[trigger] kept[a],
            ) && occurs(new_names, new_count as int, kept[a]) by {
                if a < before.len() {
                    assert(occurs(names, n - 1, before[a]));
                    let j = choose|j: int|
                        0 <= j < n - 1 && j < names.len() && #[trigger] names[j] == before[a];
                    assert(names[j] == kept[a]);
                } else {
                    assert(names[n - 1] == kept[a]);
                    let k = named_child(new_names, new_count, last)->0;
                    assert(new_names[k] == kept[a]);
                }
            }
            assert forall|a: int, b: int| 0 <= a < b < kept.len() implies kept[a] != kept[b] by {
                if b == before.len() {
                    assert(occurs(names, n - 1, before[a]));
                    let j = choose|j: int|
                        0 <= j < n - 1 && j < names.len() && #[trigger] names[j] == before[a];
                    assert(names[j] != names[n - 1]);
                }
            }
            assert forall|j: int|
                0 <= j < n && counterpart(
                    names,
                    new_names,
                    new_count,
                    j,
                ).is_some() implies kept.contains(#[trigger] names[j]) by {
                if j < n - 1 {
                    assert(before.contains(names[j]));
                    let a = choose|a: int| 0 <= a < before.len() && before[a] == names[j];
                    assert(kept[a] == names[j]);
                } else {
                    assert(kept[before.len() as int] == names[j]);
                }
            }
        } else {
            assert(kept =~= before);
            assert forall|a: int| 0 <= a < kept.len() implies occurs(
                names,
                n as int,
                #[trigger] kept[a],
            ) && occurs(new_names, new_count as int, kept[a]) by {
                assert(occurs(names, n - 1, before[a]));
                let j = choose|j: int|
                    0 <= j < n - 1 && j < names.len() && #[trigger] names[j] == before[a];
                assert(names[j] == kept[a]);
            }
        }
    }
}

/// The names that are new are names of the new group that no mounted child
/// has; none occurs twice; and every such name is among them.
pub proof fn lemma_missing_names(
    names: Seq<Seq<char>>,
    count: nat,
    new_names: Seq<Seq<char>>,
    n: nat,
)
    requires
        distinct(new_names),
    ensures
        ({
            let fresh = missing_names_upto(names, count, new_names, n);
            &&& distinct(fresh)
            &&& forall|a: int|
                0 <= a < fresh.len() ==> occurs(new_names, n as int, #[trigger] fresh[a])
                    && !occurs(names, count as int, fresh[a])
            &&& forall|i: int|
                0 <= i < n && is_missing(names, count, new_names, i) ==> fresh.contains(
                    #[trigger] new_names[i],
                )
        }),
    decreases n,
{
    let fresh = missing_names_upto(names, count, new_names, n);
    if n > 0 {
        let before = missing_names_upto(names, count, new_names, (n - 1) as nat);
        lemma_missing_names(names, count, new_names, (n - 1) as nat);
        if is_missing(names, count, new_names, n - 1) {
            let last = new_names[n - 1];
            lemma_named_child(names, count, last);
            assert(fresh =~= before.push(last));
            assert forall|a: int| 0 <= a < fresh.len() implies occurs(
                new_names,
                n as int,
                #[trigger] fresh[a],
            ) && !occurs(names, count as int, fresh[a]) by {
                if a < before.len() {
                    assert(occurs(new_names, n - 1, before[a]));
                    let j = choose|j: int|
                        0 <= j < n - 1 && j < new_names.len() && #[trigger] new_names[j]
                            == before[a];
                    assert(new_names[j] == fresh[a]);
                } else {
                    assert(new_names[n - 1] == fresh[a]);
                }
            }
            assert forall|a: int, b: int| 0 <= a < b < fresh.len() implies fresh[a]
                != fresh[b] by {
                if b == before.len() {
                    assert(occurs(new_names, n - 1, before[a]));
                    let j = choose|j: int|
                        0 <= j < n - 1 && j < new_names.len() && #[trigger] new_names[j]
                            == before[a];
                    assert(new_names[j] != new_names[n - 1]);
                }
            }
            assert forall|i: int|
                0 <= i < n && is_missing(names, count, new_names, i) implies fresh.contains(
                #[trigger] new_names[i],
            ) by {
                if i < n - 1 {
                    assert(before.contains(new_names[i]));
                    let a = choose|a: int| 0 <= a < before.len() && before[a] == new_names[i];
                    assert(fresh[a] == new_names[i]);
                } else {
                    assert(fresh[before.len() as int] == new_names[i]);
                }
            }
        } else {
            assert(fresh =~= before);
            assert forall|a: int| 0 <= a < fresh.len() implies occurs(
                new_names,
                n as int,
                #[trigger] fresh[a],
            ) && !occurs(names, count as int, fresh[a]) by {
                assert(occurs(new_names, n - 1, before[a]));
                let j = choose|j: int|
                    0 <= j < n - 1 && j < new_names.len() && #[trigger] new_names[j] == before[a];
                assert(new_names[j] == fresh[a]);
            }
        }
    }
}

/// The names of a group after it has been brought in line with a new one
/// are the names of the new one, each once.
pub proof fn lemma_names_after_diff(
    names: Seq<Seq<char>>,
    new_names: Seq<Seq<char>>,
)
    requires
        distinct(names),
        distinct(new_names),
    ensures
        ({
            let after = kept_names(names, names.len(), new_names, new_names.len(), names.len())
                + missing_names_upto(names, names.len(), new_names, new_names.len());
            &&& distinct(after)
            &&& forall|a: int| 0 <= a < after.len() ==> new_names.contains(#[trigger] after[a])
            &&& forall|i: int| 0 <= i < new_names.len() ==> after.contains(#[trigger] new_names[i])
        }),
{
    let count = names.len();
    let new_count = new_names.len();
    let kept = kept_names(names, count, new_names, new_count, count);
    let fresh = missing_names_upto(names, count, new_names, new_count);
    let after = kept + fresh;
    lemma_kept_names(names, count, new_names, new_count, count);
    lemma_missing_names(names, count, new_names, new_count);
    assert forall|a: int| 0 <= a < after.len() implies new_names.contains(#[trigger] after[a]) by {
        if a < kept.len() {
            assert(occurs(new_names, new_count as int, kept[a]));
        } else {
            assert(occurs(new_names, new_count as int, fresh[a - kept.len()]));
        }
    }
    assert forall|a: int, b: int| 0 <= a < b < after.len() implies after[a] != after[b] by {
        if a < kept.len() && b >= kept.len() {
            assert(occurs(names, count as int, kept[a]));
            assert(!occurs(names, count as int, fresh[b - kept.len()]));
        }
    }
    assert forall|i: int| 0 <= i < new_names.len() implies after.contains(
        #[trigger] new_names[i],
    ) by {
        let key = new_names[i];
        lemma_named_child(names, count, key);
        match named_child(names, count, key) {
            Some(j) => {
                assert(occurs(new_names, new_count as int, key));
                lemma_occurs_named(new_names, new_count, key);
                assert(kept.contains(names[j]));
                let a = choose|a: int| 0 <= a < kept.len() && kept[a] == names[j];
                assert(after[a] == key);
            },
            None => {
                assert(is_missing(names, count, new_names, i));
                assert(fresh.contains(new_names[i]));
                let a = choose|a: int| 0 <= a < fresh.len() && fresh[a] == key;
                assert(after[kept.len() + a] == key);
            },
        }
    }
}

} // verus!
