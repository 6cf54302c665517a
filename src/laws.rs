//! Properties that relate several operations of the storage, stated over the
//! models that the operations' own contracts use.

use vstd::prelude::*;

use crate::gpu::{GPUDenseVecStorage, Index};

verus! {

/// Reading an id right after a value was stored under it gives that value
/// back.
pub proof fn lemma_get_after_insert<T: Copy>(
    before: GPUDenseVecStorage<T>,
    after: GPUDenseVecStorage<T>,
    id: Index,
    v: T,
)
    requires
        after@ == before@.insert(id, v),
    ensures
        after@.contains_key(id),
        after@[id] == v,
{
}

/// Store `x`, `y`, `z` under three distinct ids into an empty storage, then
/// remove the middle one: the other two still read back their own values,
/// and the buffer holds two values.
pub proof fn lemma_swap_remove_keeps_others<T: Copy>(
    s0: GPUDenseVecStorage<T>,
    s1: GPUDenseVecStorage<T>,
    s2: GPUDenseVecStorage<T>,
    s3: GPUDenseVecStorage<T>,
    s4: GPUDenseVecStorage<T>,
    a: Index,
    b: Index,
    c: Index,
    x: T,
    y: T,
    z: T,
)
    requires
        s0@ == Map::<Index, T>::empty(),
        s0.dense().len() == 0,
        a != b,
        b != c,
        a != c,
        s1@ == s0@.insert(a, x),
        s1.dense() == s0.dense().push(x),
        s2@ == s1@.insert(b, y),
        s2.dense() == s1.dense().push(y),
        s3@ == s2@.insert(c, z),
        s3.dense() == s2.dense().push(z),
        s3.wf(),
        s4@ == s3@.remove(b),
        s4.dense() == s3.dense().update(s3.slot_of(b), s3.dense().last()).drop_last(),
    ensures
        s4@.contains_key(a),
        s4@[a] == x,
        s4@.contains_key(c),
        s4@[c] == z,
        s4.dense().len() == 2,
{
    s3.lemma_live_slot(b);
}

/// Removing the id in the last slot moves nothing: every other live id keeps
/// its slot and its value, and the buffer and the reverse table just lose
/// their last entry.
pub proof fn lemma_remove_last_slot<T: Copy>(
    before: GPUDenseVecStorage<T>,
    after: GPUDenseVecStorage<T>,
    id: Index,
)
    requires
        before.wf(),
        before@.contains_key(id),
        before.slot_of(id) == before.ids().len() - 1,
        after.wf(),
        after@ == before@.remove(id),
        after.dense() == before.dense().update(
            before.slot_of(id),
            before.dense().last(),
        ).drop_last(),
        after.ids() == before.ids().update(before.slot_of(id), before.ids().last()).drop_last(),
    ensures
        after.dense() == before.dense().drop_last(),
        after.ids() == before.ids().drop_last(),
        forall|e: Index|
            #[trigger] before@.contains_key(e) && e != id ==> after@.contains_key(e)
                && after.slot_of(e) == before.slot_of(e) && after@[e] == before@[e],
{
    before.lemma_live_slot(id);
    assert(after.dense() =~= before.dense().drop_last());
    assert(after.ids() =~= before.ids().drop_last());
    assert forall|e: Index| #[trigger] before@.contains_key(e) && e != id implies after@.contains_key(
        e,
    ) && after.slot_of(e) == before.slot_of(e) && after@[e] == before@[e] by {
        before.lemma_live_slot(e);
        assert(after@.contains_key(e));
        after.lemma_live_slot(e);
        let k = before.slot_of(e);
        assert(k != before.slot_of(id));
        assert(after.ids()[k] == e);
    }
}

} // verus!
