//! Sets of identifiers held as vectors, and the choice of a candidate.

use vstd::prelude::*;
use vstd::seq_lib::seq_to_set_is_finite;
use vstd::set_lib::lemma_len_subset;
use crate::model::ObjectId;

verus! {

/// The candidate holds every current identifier and is of another size:
/// it holds at least one identifier more.
pub open spec fn strictly_contains(candidate: Seq<ObjectId>, current: Set<ObjectId>) -> bool {
    &&& current.subset_of(candidate.to_set())
    &&& current.len() != candidate.to_set().len()
}

/// `k` is the first candidate of the pool that strictly contains `current`.
pub open spec fn is_first_match(pool: Seq<Seq<ObjectId>>, current: Set<ObjectId>, k: int) -> bool {
    &&& 0 <= k < pool.len()
    &&& strictly_contains(pool[k], current)
    &&& forall|j: int| 0 <= j < k ==> !strictly_contains(#[trigger] pool[j], current)
}

/// The place of the first candidate that strictly contains `current`.
pub open spec fn first_match(pool: Seq<Seq<ObjectId>>, current: Set<ObjectId>) -> Option<int> {
    if exists|k: int| is_first_match(pool, current, k) {
        Some(choose|k: int| is_first_match(pool, current, k))
    } else {
        None
    }
}

/// A first match is the one that `first_match` gives.
pub proof fn lemma_first_match(pool: Seq<Seq<ObjectId>>, current: Set<ObjectId>, k: int)
    requires
        is_first_match(pool, current, k),
    ensures
        first_match(pool, current) == Some(k),
{
    let c = choose|c: int| is_first_match(pool, current, c);
    assert(is_first_match(pool, current, c));
    if c < k {
        assert(!strictly_contains(pool[c], current));
    }
    if k < c {
        assert(!strictly_contains(pool[k], current));
    }
}

/// Where no candidate strictly contains `current`, there is no first match.
pub proof fn lemma_no_match(pool: Seq<Seq<ObjectId>>, current: Set<ObjectId>)
    requires
        forall|j: int| 0 <= j < pool.len() ==> !strictly_contains(#[trigger] pool[j], current),
    ensures
        first_match(pool, current) is None,
{
    if exists|k: int| is_first_match(pool, current, k) {
        let c = choose|c: int| is_first_match(pool, current, c);
        assert(!strictly_contains(pool[c], current));
    }
}

/// Whether `id` occurs in `ids`.
pub fn contains(ids: &Vec<ObjectId>, id: ObjectId) -> (found: bool)
    ensures
        found == ids@.contains(id),
{
    let mut i: usize = 0;
    while i < ids.len()
        invariant
            i <= ids.len(),
            forall|j: int| 0 <= j < i ==> ids@[j] != id,
        decreases ids.len() - i,
    {
        if ids[i] == id {
            return true;
        }
        i += 1;
    }
    false
}

/// Whether every identifier of `inner` occurs in `outer`.
pub fn is_subset(inner: &Vec<ObjectId>, outer: &Vec<ObjectId>) -> (subset: bool)
    ensures
        subset == inner@.to_set().subset_of(outer@.to_set()),
{
    let mut i: usize = 0;
    while i < inner.len()
        invariant
            i <= inner.len(),
            forall|j: int| 0 <= j < i ==> outer@.contains(#[trigger] inner@[j]),
        decreases inner.len() - i,
    {
        if !contains(outer, inner[i]) {
            proof {
                assert(inner@.to_set().contains(inner@[i as int]));
                assert(!outer@.to_set().contains(inner@[i as int]));
            }
            return false;
        }
        i += 1;
    }
    proof {
        assert forall|id: ObjectId| inner@.to_set().contains(id) implies outer@.to_set().contains(
            id,
        ) by {
            let j = choose|j: int| 0 <= j < inner@.len() && inner@[j] == id;
            assert(outer@.contains(inner@[j]));
        }
    }
    true
}

/// The number of distinct identifiers in `ids`.
pub fn distinct_len(ids: &Vec<ObjectId>) -> (count: usize)
    ensures
        count == ids@.to_set().len(),
{
    let mut count: usize = 0;
    let mut i: usize = 0;
    proof {
        assert(ids@.take(0).to_set() =~= Set::<ObjectId>::empty());
    }
    while i < ids.len()
        invariant
            i <= ids.len(),
            count <= i,
            count == ids@.take(i as int).to_set().len(),
        decreases ids.len() - i,
    {
        let mut seen: bool = false;
        let mut j: usize = 0;
        while j < i
            invariant
                j <= i,
                i < ids.len(),
                seen == ids@.take(j as int).contains(ids@[i as int]),
            decreases i - j,
        {
            if ids[j] == ids[i] {
                seen = true;
            }
            proof {
                let id = ids@[i as int];
                let before = ids@.take(j as int);
                let after = ids@.take(j + 1);
                assert(after =~= before.push(ids@[j as int]));
                if before.contains(id) {
                    let w = choose|w: int| 0 <= w < before.len() && before[w] == id;
                    assert(after[w] == id);
                }
                if ids@[j as int] == id {
                    assert(after[j as int] == id);
                }
            }
            j += 1;
        }
        proof {
            let before = ids@.take(i as int);
            let after = ids@.take(i + 1);
            let id = ids@[i as int];
            seq_to_set_is_finite(before);
            assert(after =~= before.push(id));
            assert(after.to_set() =~= before.to_set().insert(id)) by {
                assert forall|x: ObjectId| after.to_set().contains(x) implies before.to_set().insert(
                    id,
                ).contains(x) by {
                    let w = choose|w: int| 0 <= w < after.len() && after[w] == x;
                    if w < i {
                        assert(before[w] == x);
                    }
                }
                assert forall|x: ObjectId| before.to_set().insert(id).contains(
                    x,
                ) implies after.to_set().contains(x) by {
                    if x == id {
                        assert(after[i as int] == x);
                    } else {
                        let w = choose|w: int| 0 <= w < before.len() && before[w] == x;
                        assert(after[w] == x);
                    }
                }
            }
            if seen {
                assert(before.to_set().contains(id));
                assert(before.to_set().insert(id) =~= before.to_set());
            }
        }
        if !seen {
            count += 1;
        }
        i += 1;
    }
    proof {
        assert(ids@.take(ids.len() as int) =~= ids@);
    }
    count
}

/// Whether the candidate strictly contains the current identifiers.
pub fn is_strict_superset(candidate: &Vec<ObjectId>, current: &Vec<ObjectId>) -> (strict: bool)
    ensures
        strict == strictly_contains(candidate@, current@.to_set()),
{
    distinct_len(current) != distinct_len(candidate) && is_subset(current, candidate)
}

/// The first candidate of the pool that strictly contains the current
/// identifiers.
pub fn find_candidate(pool: &Vec<Vec<ObjectId>>, current: &Vec<ObjectId>) -> (found: Option<usize>)
    ensures
        match found {
            Some(k) => first_match(pool_view(pool@), current@.to_set()) == Some(k as int)
                && k < pool.len(),
            None => first_match(pool_view(pool@), current@.to_set()) is None,
        },
{
    let mut i: usize = 0;
    while i < pool.len()
        invariant
            i <= pool.len(),
            forall|j: int|
                0 <= j < i ==> !strictly_contains(
                    #[trigger] pool_view(pool@)[j],
                    current@.to_set(),
                ),
        decreases pool.len() - i,
    {
        if is_strict_superset(&pool[i], current) {
            proof {
                lemma_first_match(pool_view(pool@), current@.to_set(), i as int);
            }
            return Some(i);
        }
        i += 1;
    }
    proof {
        lemma_no_match(pool_view(pool@), current@.to_set());
    }
    None
}

/// A pool of candidates, each by its view.
pub open spec fn pool_view(pool: Seq<Vec<ObjectId>>) -> Seq<Seq<ObjectId>> {
    Seq::new(pool.len(), |i: int| pool[i]@)
}

/// What a replacement adds: the candidate's size less the current size.
pub open spec fn added_by(candidate: Seq<ObjectId>, current: Set<ObjectId>) -> nat {
    (candidate.to_set().len() - current.len()) as nat
}

/// The number of identifiers that replacing `current` by `candidate` adds.
pub fn added_count(candidate: &Vec<ObjectId>, current: &Vec<ObjectId>) -> (added: usize)
    requires
        strictly_contains(candidate@, current@.to_set()),
    ensures
        added == added_by(candidate@, current@.to_set()),
        added == candidate@.to_set().len() - current@.to_set().len(),
        0 < added <= candidate.len(),
{
    proof {
        seq_to_set_is_finite(candidate@);
        lemma_len_subset(current@.to_set(), candidate@.to_set());
        candidate@.lemma_cardinality_of_set();
    }
    distinct_len(candidate) - distinct_len(current)
}

} // verus!
