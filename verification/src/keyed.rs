//! Tables kept as a run of keys beside a run of values, and what changing
//! the runs does to the map from key to value.

use vstd::prelude::*;

verus! {

/// No id occurs twice in `ids`.
pub open spec fn distinct<K>(ids: Seq<K>) -> bool {
    forall|i: int, j: int| 0 <= i < j < ids.len() ==> ids[i] != ids[j]
}

/// `id` stands at `i` in `ids`.
pub open spec fn stands_at<K>(ids: Seq<K>, id: K, i: int) -> bool {
    0 <= i < ids.len() && ids[i] == id
}

/// `id` occurs in `ids`.
pub open spec fn listed<K>(ids: Seq<K>, id: K) -> bool {
    exists|i: int| stands_at(ids, id, i)
}

/// Where `id` stands in `ids`.
pub open spec fn place_of<K>(ids: Seq<K>, id: K) -> int {
    choose|i: int| stands_at(ids, id, i)
}

/// The map from each id in `ids` to the value that stands beside it.
pub open spec fn table<K, V>(ids: Seq<K>, values: Seq<V>) -> Map<K, V> {
    Map::new(|id: K| listed(ids, id), |id: K| values[place_of(ids, id)])
}

/// In a list without repeats, the table maps the id at `i` to the value at `i`.
pub proof fn lemma_table_at<K, V>(ids: Seq<K>, values: Seq<V>, i: int)
    requires
        distinct(ids),
        0 <= i < ids.len(),
    ensures
        table(ids, values).contains_key(ids[i]),
        table(ids, values)[ids[i]] == values[i],
{
    assert(stands_at(ids, ids[i], i));
}

/// An id that stands nowhere is no key of the table.
pub proof fn lemma_table_absent<K, V>(ids: Seq<K>, values: Seq<V>, id: K)
    requires
        forall|i: int| 0 <= i < ids.len() ==> ids[i] != id,
    ensures
        !table(ids, values).contains_key(id),
{
    assert(forall|i: int| !stands_at(ids, id, i));
}

/// Replacing the value at `i` is an insert under the id at `i`.
pub proof fn lemma_table_replace<K, V>(ids: Seq<K>, values: Seq<V>, i: int, value: V)
    requires
        distinct(ids),
        ids.len() == values.len(),
        0 <= i < ids.len(),
    ensures
        table(ids, values.update(i, value)) == table(ids, values).insert(ids[i], value),
{
    let after = table(ids, values.update(i, value));
    let wanted = table(ids, values).insert(ids[i], value);
    assert(stands_at(ids, ids[i], i));
    assert forall|id: K| after.contains_key(id) implies after[id] == wanted[id] by {
        let k = place_of(ids, id);
        assert(stands_at(ids, id, k));
    }
    assert(after =~= wanted);
}

/// Adding a new id with its value at the end is an insert.
pub proof fn lemma_table_push<K, V>(ids: Seq<K>, values: Seq<V>, id: K, value: V)
    requires
        distinct(ids),
        ids.len() == values.len(),
        forall|i: int| 0 <= i < ids.len() ==> ids[i] != id,
    ensures
        distinct(ids.push(id)),
        table(ids.push(id), values.push(value)) == table(ids, values).insert(id, value),
{
    let more = ids.push(id);
    let after = table(more, values.push(value));
    let wanted = table(ids, values).insert(id, value);
    assert(stands_at(more, id, ids.len() as int));
    assert forall|other: K| after.contains_key(other) <==> wanted.contains_key(other) by {
        if other != id {
            if listed(more, other) {
                assert(stands_at(ids, other, place_of(more, other)));
            }
            if listed(ids, other) {
                assert(stands_at(more, other, place_of(ids, other)));
            }
        }
    }
    assert forall|other: K| after.contains_key(other) implies after[other]
        == wanted[other] by {
        let k = place_of(more, other);
        assert(stands_at(more, other, k));
        if other != id {
            assert(stands_at(ids, other, k));
            assert(place_of(ids, other) == k);
        }
    }
    assert(after =~= wanted);
}

/// Taking the id at `i` out with its value is a remove.
pub proof fn lemma_table_remove<K, V>(ids: Seq<K>, values: Seq<V>, i: int)
    requires
        distinct(ids),
        ids.len() == values.len(),
        0 <= i < ids.len(),
    ensures
        distinct(ids.remove(i)),
        table(ids.remove(i), values.remove(i)) == table(ids, values).remove(ids[i]),
{
    let fewer = ids.remove(i);
    let after = table(fewer, values.remove(i));
    let wanted = table(ids, values).remove(ids[i]);
    assert(forall|k: int| 0 <= k < i ==> fewer[k] == ids[k]);
    assert(forall|k: int| i <= k < fewer.len() ==> fewer[k] == ids[k + 1]);
    assert forall|other: K| after.contains_key(other) <==> wanted.contains_key(other) by {
        if listed(fewer, other) {
            let k = place_of(fewer, other);
            if k < i {
                assert(stands_at(ids, other, k));
            } else {
                assert(stands_at(ids, other, k + 1));
            }
        }
        if listed(ids, other) && other != ids[i] {
            let k = place_of(ids, other);
            if k < i {
                assert(stands_at(fewer, other, k));
            } else {
                assert(stands_at(fewer, other, k - 1));
            }
        }
    }
    assert forall|other: K| after.contains_key(other) implies after[other]
        == wanted[other] by {
        let k = place_of(fewer, other);
        assert(stands_at(fewer, other, k));
        if k < i {
            assert(stands_at(ids, other, k));
            assert(place_of(ids, other) == k);
        } else {
            assert(stands_at(ids, other, k + 1));
            assert(place_of(ids, other) == k + 1);
        }
    }
    assert(after =~= wanted);
}

} // verus!
