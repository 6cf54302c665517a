use hibitset::BitSet;
use vstd::prelude::*;

verus! {

/// The liveness set of the wider system, from `hibitset`; carried through
/// `clean` and never read here.
#[verifier::external_type_specification]
#[verifier::external_body]
pub struct ExBitSet(BitSet);

/// A sparse id, assigned outside this storage.
pub type Index = u32;

/// Dense storage: values are packed in slot order, and an id finds its slot
/// through the index table.
///
/// Slot order reflects the history of inserts and swap-removals, not the
/// order of ids.
pub struct GPUDenseVecStorage<T: Copy> {
    /// Slot to value.
    data: Vec<T>,
    /// Slot to id; always as long as `data`.
    entity_id: Vec<Index>,
    /// Id to slot; `None` for an id that was never stored. An entry of an id
    /// that was removed is stale and never read.
    index: Vec<Option<Index>>,
}

/// Access to the raw tables of a storage, as a device kernel reads them.
pub trait GPUStorage<T: Copy> {
    /// The index table: for each id, the slot that was written for it.
    spec fn index_entries(&self) -> Seq<Option<Index>>;

    /// The values in slot order.
    spec fn slot_values(&self) -> Seq<T>;

    /// The index table itself.
    fn gpu_index(&self) -> (r: &Vec<Option<Index>>)
        ensures
            r@ == self.index_entries(),
    ;

    /// The value buffer itself.
    fn gpu_data(&self) -> (r: &Vec<T>)
        ensures
            r@ == self.slot_values(),
    ;
}

impl<T: Copy> GPUStorage<T> for GPUDenseVecStorage<T> {
    open spec fn index_entries(&self) -> Seq<Option<Index>> {
        self.index_table()
    }

    open spec fn slot_values(&self) -> Seq<T> {
        self.dense()
    }

    fn gpu_index(&self) -> (r: &Vec<Option<Index>>) {
        &self.index
    }

    fn gpu_data(&self) -> (r: &Vec<T>) {
        &self.data
    }
}

impl<T: Copy> Default for GPUDenseVecStorage<T> {
    /// An empty storage.
    fn default() -> (r: Self)
        ensures
            r.wf(),
            r@ == Map::<Index, T>::empty(),
            r.dense() == Seq::<T>::empty(),
            r.ids() == Seq::<Index>::empty(),
            r.index_table() == Seq::<Option<Index>>::empty(),
    {
        let r = GPUDenseVecStorage { data: Vec::new(), entity_id: Vec::new(), index: Vec::new() };
        assert(r@ =~= Map::<Index, T>::empty());
        r
    }
}

impl<T: Copy> GPUDenseVecStorage<T> {
    /// The values in slot order.
    pub closed spec fn dense(&self) -> Seq<T> {
        self.data@
    }

    /// The id stored at each slot.
    pub closed spec fn ids(&self) -> Seq<Index> {
        self.entity_id@
    }

    /// The index table: the slot of each id, where one was written.
    pub closed spec fn index_table(&self) -> Seq<Option<Index>> {
        self.index@
    }

    /// The slot that the index table gives for `e`.
    pub open spec fn slot_of(&self, e: Index) -> int {
        self.index_table()[e as int]->Some_0 as int
    }

    /// The three tables agree: buffer and reverse table have one entry per
    /// slot, every slot fits in an `Index`, and the index table sends the id
    /// of every slot back to it.
    pub closed spec fn wf(&self) -> bool {
        &&& self.data@.len() == self.entity_id@.len()
        &&& self.entity_id@.len() <= Index::MAX as int + 1
        &&& forall|k: int|
            0 <= k < self.entity_id@.len() ==> {
                &&& (#[trigger] self.entity_id@[k]) < self.index@.len()
                &&& self.index@[self.entity_id@[k] as int] == Some(k as Index)
            }
    }

    /// The stored values, by id.
    pub open spec fn view(&self) -> Map<Index, T> {
        Map::new(|e: Index| self.ids().contains(e), |e: Index| self.dense()[self.slot_of(e)])
    }

    /// Every live id has a slot within the buffer, the reverse table sends
    /// that slot back to the id, and no other slot holds the id.
    pub proof fn lemma_live_slot(&self, e: Index)
        requires
            self.wf(),
            self@.contains_key(e),
        ensures
            (e as int) < self.index_table().len(),
            self.index_table()[e as int] is Some,
            0 <= self.slot_of(e) < self.ids().len(),
            self.ids()[self.slot_of(e)] == e,
            self.dense().len() == self.ids().len(),
            forall|k: int| 0 <= k < self.ids().len() && #[trigger] self.ids()[k] == e ==> k
                == self.slot_of(e),
    {
        let k = choose|k: int| 0 <= k < self.entity_id@.len() && self.entity_id@[k] == e;
        assert(self.entity_id@[k] == e);
    }

    /// Writing a new value into the slot of a live id, and changing nothing
    /// else, stores that value under the id and keeps the tables in
    /// agreement.
    proof fn lemma_overwrite(&self, id: Index)
        requires
            self.wf(),
            self@.contains_key(id),
        ensures
            forall|post: Self, v: T|
                #![trigger post.dense(), self@.insert(id, v)]
                post.dense() == self.dense().update(self.slot_of(id), v) && post.ids()
                    == self.ids() && post.index_table() == self.index_table() ==> post.wf()
                    && post@ == self@.insert(id, v),
    {
        assert forall|post: Self, v: T|
            post.dense() == self.dense().update(self.slot_of(id), v) && post.ids() == self.ids()
                && post.index_table() == self.index_table() implies post.wf() && post@
            == self@.insert(id, v) by {
            self.lemma_live_slot(id);
            assert forall|e: Index| #[trigger] post@.contains_key(e) implies post@[e]
                == self@.insert(id, v)[e] by {
                self.lemma_live_slot(e);
            }
            assert(post@ =~= self@.insert(id, v));
        }
    }

    /// The value stored under `id`.
    pub fn get(&self, id: Index) -> (r: &T)
        requires
            self.wf(),
            self@.contains_key(id),
        ensures
            *r == self@[id],
    {
        proof {
            self.lemma_live_slot(id);
        }
        let did = self.index[id as usize].unwrap();
        &self.data[did as usize]
    }

    /// The value stored under `id`, to be changed in place; it keeps its
    /// slot.
    pub fn get_mut(&mut self, id: Index) -> (r: &mut T)
        requires
            old(self).wf(),
            old(self)@.contains_key(id),
        ensures
            *r == old(self)@[id],
            final(self).wf(),
            final(self)@ == old(self)@.insert(id, *final(r)),
            final(self).dense() == old(self).dense().update(old(self).slot_of(id), *final(r)),
            final(self).ids() == old(self).ids(),
            final(self).index_table() == old(self).index_table(),
    {
        proof {
            self.lemma_live_slot(id);
            self.lemma_overwrite(id);
        }
        let did = self.index[id as usize].unwrap();
        &mut self.data[did as usize]
    }

    /// All values, in slot order. A position in the slice says nothing of
    /// the id stored there.
    pub fn as_slice(&self) -> (r: &[T])
        ensures
            r@ == self.dense(),
    {
        self.data.as_slice()
    }

    /// All values, in slot order, to be changed in place. A position in the
    /// slice says nothing of the id stored there. The tables still agree
    /// afterwards as long as the slice keeps its length, as every slice does.
    pub fn as_mut_slice(&mut self) -> (r: &mut [T])
        requires
            old(self).wf(),
        ensures
            r@ == old(self).dense(),
            final(self).dense() == final(r)@,
            final(self).ids() == old(self).ids(),
            final(self).index_table() == old(self).index_table(),
            final(r)@.len() == r@.len() ==> final(self).wf(),
    {
        self.data.as_mut_slice()
    }

    /// Sweeps the ids that `_has` no longer holds. Every removal already
    /// compacted the buffer, so there is nothing left to reclaim and the
    /// storage stays as it is.
    pub fn clean(&mut self, _has: &BitSet)
        ensures
            *final(self) == *old(self),
    {
    }

    /// Stores `v` under `id`, which holds no value: the value is appended at
    /// the end of the buffer, and the index table grows to cover `id` where
    /// it is too short.
    pub fn insert(&mut self, id: Index, v: T)
        requires
            old(self).wf(),
            !old(self)@.contains_key(id),
            old(self).dense().len() <= Index::MAX,
        ensures
            final(self).wf(),
            final(self)@ == old(self)@.insert(id, v),
            final(self).dense() == old(self).dense().push(v),
            final(self).ids() == old(self).ids().push(id),
            final(self).slot_of(id) == old(self).dense().len(),
            forall|e: Index| #[trigger]
                old(self)@.contains_key(e) ==> final(self).slot_of(e) == old(self).slot_of(e),
    {
        let idx = id as usize;
        while self.index.len() <= idx
            invariant
                self.data == old(self).data,
                self.entity_id == old(self).entity_id,
                old(self).index@.len() <= self.index@.len(),
                forall|i: int|
                    0 <= i < old(self).index@.len() ==> #[trigger] self.index@[i]
                        == old(self).index@[i],
            decreases idx + 1 - self.index@.len(),
        {
            self.index.push(None);
        }
        let slot = self.data.len() as Index;
        self.index.set(idx, Some(slot));
        self.entity_id.push(id);
        self.data.push(v);
        proof {
            let pre = *old(self);
            assert forall|k: int| 0 <= k < pre.entity_id@.len() implies pre.entity_id@[k] != id by {
                if pre.entity_id@[k] == id {
                    assert(pre.ids().contains(id));
                }
            }
            assert(self.entity_id@[pre.entity_id@.len() as int] == id);
            assert forall|e: Index| #[trigger] pre@.contains_key(e) implies self.slot_of(e)
                == pre.slot_of(e) by {
                pre.lemma_live_slot(e);
            }
            assert(self.ids() =~= pre.ids().push(id));
            assert forall|e: Index| #[trigger] self@.contains_key(e) <==> pre@.insert(
                id,
                v,
            ).contains_key(e) by {
                if self.ids().contains(e) && e != id {
                    let k = choose|k: int| 0 <= k < self.ids().len() && self.ids()[k] == e;
                    assert(pre.ids()[k] == e);
                }
                if pre.ids().contains(e) {
                    let k = choose|k: int| 0 <= k < pre.ids().len() && pre.ids()[k] == e;
                    assert(self.ids()[k] == e);
                }
                if e == id {
                    assert(self.ids()[pre.ids().len() as int] == id);
                }
            }
            assert forall|e: Index| #[trigger] pre@.contains_key(e) implies self@[e] == pre@[e] by {
                pre.lemma_live_slot(e);
                assert(self@.contains_key(e));
                assert(self.slot_of(e) == pre.slot_of(e));
                assert(self.dense()[pre.slot_of(e)] == pre.dense()[pre.slot_of(e)]);
            }
            assert(self@ =~= pre@.insert(id, v));
        }
    }

    /// Takes out the value stored under `id`. The value in the last slot
    /// moves into the freed slot, and the index table learns its new place;
    /// nothing else moves.
    pub fn remove(&mut self, id: Index) -> (r: T)
        requires
            old(self).wf(),
            old(self)@.contains_key(id),
        ensures
            final(self).wf(),
            r == old(self)@[id],
            final(self)@ == old(self)@.remove(id),
            final(self).dense() == old(self).dense().update(
                old(self).slot_of(id),
                old(self).dense().last(),
            ).drop_last(),
            final(self).ids() == old(self).ids().update(
                old(self).slot_of(id),
                old(self).ids().last(),
            ).drop_last(),
            forall|e: Index| #[trigger]
                final(self)@.contains_key(e) ==> final(self).slot_of(e) == if e == old(
                    self,
                ).ids().last() {
                    old(self).slot_of(id)
                } else {
                    old(self).slot_of(e)
                },
    {
        proof {
            self.lemma_live_slot(id);
        }
        let did = self.index[id as usize].unwrap();
        let last = self.entity_id[self.entity_id.len() - 1];
        proof {
            assert(self.entity_id@[self.entity_id@.len() - 1] == last);
        }
        self.index.set(last as usize, Some(did));
        self.entity_id.swap_remove(did as usize);
        let r = self.data.swap_remove(did as usize);
        proof {
            let pre = *old(self);
            let n = pre.ids().len() - 1;
            assert forall|k1: int, k2: int|
                0 <= k1 < pre.ids().len() && 0 <= k2 < pre.ids().len() && k1 != k2 implies
                #[trigger] pre.ids()[k1] != #[trigger] pre.ids()[k2] by {
                assert(pre.index@[pre.entity_id@[k1] as int] == Some(k1 as Index));
                assert(pre.index@[pre.entity_id@[k2] as int] == Some(k2 as Index));
            }
            assert forall|k: int| 0 <= k < self.entity_id@.len() implies {
                &&& (#[trigger] self.entity_id@[k]) < self.index@.len()
                &&& self.index@[self.entity_id@[k] as int] == Some(k as Index)
            } by {
                if k != did as int {
                    assert(pre.ids()[k] != pre.ids()[n]);
                    assert(pre.index@[pre.entity_id@[k] as int] == Some(k as Index));
                }
            }
            assert(self.wf());
            assert forall|e: Index| #[trigger] self@.contains_key(e) <==> pre@.remove(
                id,
            ).contains_key(e) by {
                if self.ids().contains(e) {
                    let k = choose|k: int| 0 <= k < self.ids().len() && self.ids()[k] == e;
                    if k == did as int {
                        assert(pre.ids()[n] == e);
                        assert(pre.ids().contains(e));
                        assert(n != did as int);
                    } else {
                        assert(pre.ids()[k] == e);
                    }
                }
                if pre.ids().contains(e) && e != id {
                    let k = choose|k: int| 0 <= k < pre.ids().len() && pre.ids()[k] == e;
                    if k == n {
                        assert(self.ids()[did as int] == e);
                    } else {
                        assert(self.ids()[k] == e);
                    }
                }
            }
            assert forall|e: Index| #[trigger] self@.contains_key(e) implies self@[e] == pre@[e] by {
                pre.lemma_live_slot(e);
                self.lemma_live_slot(e);
                assert(self.ids()[self.slot_of(e)] == e);
            }
            assert(self@ =~= pre@.remove(id));
            assert forall|e: Index| #[trigger] self@.contains_key(e) implies self.slot_of(e)
                == if e == last {
                pre.slot_of(id)
            } else {
                pre.slot_of(e)
            } by {
                pre.lemma_live_slot(e);
                if e != last {
                    assert(pre.slot_of(e) != n);
                    if pre.slot_of(e) == did as int {
                        assert(e == id);
                    }
                }
            }
        }
        r
    }
}

} // verus!
