//! Laws relating the public operations through their map models.

use vstd::prelude::*;

verus! {

/// Deleting a key makes it absent, shrinks the key set by exactly one
/// when it was present, and is a no-op on the map when it was absent.
pub proof fn lemma_delete_get_consistency<Kv, V>(m: Map<Kv, V>, k: Kv)
    requires
        m.dom().finite(),
    ensures
        !m.remove(k).dom().contains(k),
        m.dom().contains(k) ==> m.remove(k).dom().len() == m.dom().len() - 1,
        !m.dom().contains(k) ==> m.remove(k) == m,
{
    if m.dom().contains(k) {
        m.lemma_remove_key_len(k);
    } else {
        assert(m.remove(k) =~= m);
    }
}

/// A key just inserted is present with the inserted value.
pub proof fn lemma_insert_get<Kv, V>(m: Map<Kv, V>, k: Kv, v: V)
    ensures
        m.insert(k, v).dom().contains(k),
        m.insert(k, v)[k] == v,
{
}

/// Operations on other keys leave a stored pair untouched: inserting,
/// updating or deleting under a different key preserves both membership
/// and value of `k`.
pub proof fn lemma_other_keys_preserved<Kv, V>(m: Map<Kv, V>, k: Kv, k2: Kv, v2: V)
    requires
        m.dom().contains(k),
        k2 != k,
    ensures
        m.insert(k2, v2).dom().contains(k),
        m.insert(k2, v2)[k] == m[k],
        m.remove(k2).dom().contains(k),
        m.remove(k2)[k] == m[k],
{
}

/// Updating a freshly inserted key replaces the first value with the
/// second: the map afterwards holds `v2` at `k`, while the value found by
/// the update was `v1`.
pub proof fn lemma_update_after_insert<Kv, V>(m: Map<Kv, V>, k: Kv, v1: V, v2: V)
    ensures
        m.insert(k, v1).dom().contains(k),
        m.insert(k, v1)[k] == v1,
        m.insert(k, v1).insert(k, v2)[k] == v2,
{
}

} // verus!
