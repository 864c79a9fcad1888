//! Laws of the map, stated over the views that the operations' contracts
//! use: `insert` ensures the new view is `old@.insert(key@, value)`, `take`
//! ensures it is `old@.remove(key@)`, and `get`, `len` and `keys` are exact
//! over the view, so each law below composes with those contracts.

use vstd::prelude::*;

verus! {

/// Round trip: after an insertion the inserted key is contained and maps to
/// the inserted value, and the size grows by exactly one when the key was
/// absent and not at all when it was present.
pub proof fn lemma_insert_round_trip<KV, V>(m: Map<KV, V>, kv: KV, v: V)
    requires
        m.dom().finite(),
    ensures
        m.insert(kv, v).contains_key(kv),
        m.insert(kv, v)[kv] == v,
        !m.contains_key(kv) ==> m.insert(kv, v).dom().len() == m.dom().len() + 1,
        m.contains_key(kv) ==> m.insert(kv, v).dom().len() == m.dom().len(),
{
    broadcast use vstd::set::group_set_axioms, vstd::map::group_map_axioms;

    assert(m.insert(kv, v).dom() =~= m.dom().insert(kv));
    if m.contains_key(kv) {
        assert(m.dom().insert(kv) =~= m.dom());
    }
}

/// Update, not duplicate: inserting twice under the same key is the same as
/// inserting the second value once, so the size and the other bindings are
/// unchanged and the key maps to the second value.
pub proof fn lemma_insert_overwrites<KV, V>(m: Map<KV, V>, kv: KV, v1: V, v2: V)
    ensures
        m.insert(kv, v1).insert(kv, v2) == m.insert(kv, v2),
        m.insert(kv, v1).contains_key(kv),
        m.insert(kv, v2)[kv] == v2,
{
    broadcast use vstd::set::group_set_axioms, vstd::map::group_map_axioms;

    assert(m.insert(kv, v1).insert(kv, v2) =~= m.insert(kv, v2));
}

/// Remove after insert: removing a key just inserted leaves a map without
/// the key, with every other binding as it was, and with one binding fewer
/// than the map with the insertion.
pub proof fn lemma_insert_then_remove<KV, V>(m: Map<KV, V>, kv: KV, v: V)
    requires
        m.dom().finite(),
    ensures
        !m.insert(kv, v).remove(kv).contains_key(kv),
        m.insert(kv, v).remove(kv) == m.remove(kv),
        m.insert(kv, v).remove(kv).dom().len() == m.insert(kv, v).dom().len() - 1,
{
    broadcast use vstd::set::group_set_axioms, vstd::map::group_map_axioms;

    assert(m.insert(kv, v).remove(kv) =~= m.remove(kv));
    assert(m.insert(kv, v).dom() =~= m.dom().insert(kv));
    assert(m.insert(kv, v).remove(kv).dom() =~= m.dom().insert(kv).remove(kv));
}

/// Idempotent absence: removing a key that is not contained changes
/// nothing, so removing twice is the same as removing once.
pub proof fn lemma_remove_absent<KV, V>(m: Map<KV, V>, kv: KV)
    requires
        !m.contains_key(kv),
    ensures
        m.remove(kv) == m,
{
    broadcast use vstd::set::group_set_axioms, vstd::map::group_map_axioms;

    assert(m.remove(kv) =~= m);
}

} // verus!
