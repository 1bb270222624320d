//! Laws relating sequences of store operations, stated over the map view
//! that the operations' contracts use: a create that returns `id` under
//! value `v` takes a store with view `m` and `!m.contains_key(id)` to one
//! with view `m.insert(id, v)`; a successful update to `m.insert(id, v)`; a
//! successful delete to `m.remove(id)`; and the keyed operations succeed
//! exactly on the identifiers in `m.dom()`.

use vstd::prelude::*;

verus! {

/// The view of the store after a sequence of creates, each step recording
/// the identifier the create returned and the value it bound.
pub open spec fn apply_creates(m: Map<u128, u64>, ops: Seq<(u128, u64)>) -> Map<u128, u64>
    decreases ops.len(),
{
    if ops.len() == 0 {
        m
    } else {
        apply_creates(m, ops.drop_last()).insert(ops.last().0, ops.last().1)
    }
}

/// True when each create in `ops` returned an identifier that was not live
/// at its point in the sequence — exactly what `create` ensures of its
/// result.
pub open spec fn creates_fresh(m: Map<u128, u64>, ops: Seq<(u128, u64)>) -> bool {
    forall|i: int|
        0 <= i < ops.len() ==> !apply_creates(m, #[trigger] ops.take(i)).contains_key(ops[i].0)
}

/// An identifier that is live, or is returned by some create of the
/// sequence, is live after the whole sequence: creates never drop entries.
pub proof fn lemma_apply_creates_keeps(m: Map<u128, u64>, ops: Seq<(u128, u64)>, k: u128)
    requires
        m.contains_key(k) || exists|i: int| 0 <= i < ops.len() && (#[trigger] ops[i]).0 == k,
    ensures
        apply_creates(m, ops).contains_key(k),
    decreases ops.len(),
{
    if ops.len() > 0 {
        if ops.last().0 != k {
            if !m.contains_key(k) {
                let i = choose|i: int| 0 <= i < ops.len() && (#[trigger] ops[i]).0 == k;
                assert(i < ops.len() - 1);
                assert(ops.drop_last()[i] == ops[i]);
            }
            lemma_apply_creates_keeps(m, ops.drop_last(), k);
        }
    }
}

/// Uniqueness: the identifiers returned by any sequence of creates are
/// pairwise distinct.
pub proof fn lemma_creates_unique(m: Map<u128, u64>, ops: Seq<(u128, u64)>)
    requires
        creates_fresh(m, ops),
    ensures
        forall|i: int, j: int| 0 <= i < j < ops.len() ==> (#[trigger] ops[i]).0 != (
        #[trigger] ops[j]).0,
{
    assert forall|i: int, j: int| 0 <= i < j < ops.len() implies (#[trigger] ops[i]).0 != (
    #[trigger] ops[j]).0 by {
        let pre = ops.take(j);
        assert(pre[i] == ops[i]);
        lemma_apply_creates_keeps(m, pre, ops[i].0);
        assert(!apply_creates(m, ops.take(j)).contains_key(ops[j].0));
    }
}

/// Not-found on unknown identifiers: one that is not live and that no create
/// of the sequence returned is still not live afterwards, so the keyed
/// operations — which succeed exactly on live identifiers — signal not-found
/// on it.
pub proof fn lemma_unknown_id_stays_absent(m: Map<u128, u64>, ops: Seq<(u128, u64)>, k: u128)
    requires
        !m.contains_key(k),
        forall|i: int| 0 <= i < ops.len() ==> (#[trigger] ops[i]).0 != k,
    ensures
        !apply_creates(m, ops).contains_key(k),
    decreases ops.len(),
{
    if ops.len() > 0 {
        lemma_unknown_id_stays_absent(m, ops.drop_last(), k);
    }
}

/// Round-trip: looking an identifier up right after creating it under value
/// `v` finds a live entry and returns `v`.
pub proof fn lemma_create_then_get(m: Map<u128, u64>, id: u128, v: u64)
    ensures
        m.insert(id, v).contains_key(id),
        m.insert(id, v)[id] == v,
{
}

/// Update visibility: after a create of `v1` under `id`, an update of `id`
/// to `v2` succeeds, and a lookup of `id` then returns `v2`.
pub proof fn lemma_update_then_get(m: Map<u128, u64>, id: u128, v1: u64, v2: u64)
    ensures
        m.insert(id, v1).contains_key(id),
        m.insert(id, v1).insert(id, v2).contains_key(id),
        m.insert(id, v1).insert(id, v2)[id] == v2,
{
}

/// Delete finality: after a create of `v` under `id`, a delete of `id`
/// succeeds, and `id` is not live afterwards — a lookup, an update or a
/// second delete of it signals not-found.
pub proof fn lemma_delete_is_final(m: Map<u128, u64>, id: u128, v: u64)
    ensures
        m.insert(id, v).contains_key(id),
        !m.insert(id, v).remove(id).contains_key(id),
{
}

/// Writers on distinct identifiers commute: neither update is lost,
/// whichever order the store serializes them in.
pub proof fn lemma_distinct_updates_commute(m: Map<u128, u64>, id1: u128, v1: u64, id2: u128, v2: u64)
    requires
        id1 != id2,
    ensures
        m.insert(id1, v1).insert(id2, v2) == m.insert(id2, v2).insert(id1, v1),
        m.insert(id1, v1).insert(id2, v2)[id1] == v1,
        m.insert(id1, v1).insert(id2, v2)[id2] == v2,
{
    assert(m.insert(id1, v1).insert(id2, v2) =~= m.insert(id2, v2).insert(id1, v1));
}

} // verus!
