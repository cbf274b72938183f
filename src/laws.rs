//! Laws that relate the map's operations to one another.
use vstd::prelude::*;

use crate::map::ArrayMap;
use crate::{Addressing, MapError};

verus! {

/// After `insert(k, v)` succeeds, `get(k)` finds `v`: a map with room and a
/// key its addressing can place accepts the insertion, and the resulting
/// contents bind `k` to `v` under the same key range.
pub proof fn lemma_insert_then_get<V: Copy>(before: ArrayMap<V>, after: ArrayMap<V>, k: u32, v: V)
    requires
        before.wf(),
        before.len_spec() < before.capacity_spec(),
        before.key_fits(k),
        after.same_shape(before),
        after@ == before@.insert(k, v),
    ensures
        before.insert_outcome(k) == Ok::<(), MapError>(()),
        after.key_fits(k),
        after@.contains_key(k),
        after@[k] == v,
{
}

/// A full map refuses every insertion with `CapacityExceeded`; once one live
/// entry has been removed from it, a new key that its addressing can place is
/// accepted.
pub proof fn lemma_full_then_room<V: Copy>(
    full: ArrayMap<V>,
    after_remove: ArrayMap<V>,
    k: u32,
)
    requires
        full.wf(),
        full.len_spec() == full.capacity_spec(),
        after_remove.same_shape(full),
        after_remove.len_spec() + 1 == full.len_spec(),
        full.key_fits(k),
    ensures
        full.insert_outcome(k) == Err::<(), MapError>(MapError::CapacityExceeded),
        after_remove.insert_outcome(k) == Ok::<(), MapError>(()),
{
}

/// Under direct indexing, a map with room refuses a key not below the
/// capacity with `KeyOutOfRange`.
pub proof fn lemma_direct_key_out_of_range<V: Copy>(m: ArrayMap<V>, k: u32)
    requires
        m.wf(),
        m.addressing_spec() == Addressing::Direct,
        m.len_spec() < m.capacity_spec(),
        k as nat >= m.capacity_spec(),
    ensures
        m.insert_outcome(k) == Err::<(), MapError>(MapError::KeyOutOfRange),
{
}

} // verus!
