//! Generation-checked slot arenas: the identity layer behind every handle.
//!
//! Every cross-entity link in the graph is an `(index, generation)` pair into
//! one of these arenas. A slot's generation is bumped when its entity is
//! removed, so a handle to a removed entity can never resolve to an unrelated
//! entity that later reuses the slot: it is *retired* for good.

use vstd::prelude::*;

verus! {

pub(crate) struct Slot<V> {
    pub(crate) generation: u64,
    pub(crate) value: Option<V>,
}

/// A slot table with a free list. Freed slots are reused only after their
/// generation is bumped; a slot whose generation reaches `u64::MAX` is never
/// reused at all.
pub(crate) struct Arena<V> {
    pub(crate) slots: Vec<Slot<V>>,
    pub(crate) free: Vec<usize>,
}

impl<V> Arena<V> {
    /// Free-list consistency: free entries are distinct indices of vacant
    /// slots whose generation can still be bumped.
    pub(crate) open spec fn wf(self) -> bool {
        &&& forall|k: int|
            0 <= k < self.free@.len() ==> {
                &&& (#[trigger] self.free@[k]) < self.slots@.len()
                &&& self.slots@[self.free@[k] as int].value is None
                &&& self.slots@[self.free@[k] as int].generation < u64::MAX
            }
        &&& forall|k1: int, k2: int|
            0 <= k1 < k2 < self.free@.len() ==> #[trigger] self.free@[k1] != #[trigger] self.free@[k2]
    }

    /// The handle `(index, generation)` names the entity currently in slot
    /// `index`.
    pub(crate) open spec fn live(self, index: int, generation: u64) -> bool {
        &&& 0 <= index < self.slots@.len()
        &&& self.slots@[index].generation == generation
        &&& self.slots@[index].value is Some
    }

    /// The entity a live handle names.
    pub(crate) open spec fn value_at(self, index: int) -> V
        recommends
            0 <= index < self.slots@.len(),
            self.slots@[index].value is Some,
    {
        self.slots@[index].value->Some_0
    }

    /// The handle named an entity that has since been removed; no later entity
    /// will ever answer to it.
    pub(crate) open spec fn retired(self, index: int, generation: u64) -> bool {
        &&& 0 <= index < self.slots@.len()
        &&& {
            ||| generation < self.slots@[index].generation
            ||| (generation == self.slots@[index].generation
                && self.slots@[index].generation == u64::MAX
                && self.slots@[index].value is None)
        }
    }

    pub(crate) fn new() -> (r: Self)
        ensures
            r.wf(),
            r.slots@.len() == 0,
            r.free@.len() == 0,
            forall|i: int, g: u64| !r.live(i, g) && !r.retired(i, g),
    {
        Arena { slots: Vec::new(), free: Vec::new() }
    }

    /// Store `value` in a vacant slot and hand out a handle that no entity,
    /// past or present, has answered to.
    pub(crate) fn insert(&mut self, value: V) -> (key: (usize, u64))
        requires
            old(self).wf(),
        ensures
            final(self).wf(),
            final(self).live(key.0 as int, key.1),
            final(self).value_at(key.0 as int) == value,
            forall|g: u64| !old(self).live(key.0 as int, g),
            !old(self).retired(key.0 as int, key.1),
            forall|i: int, g: u64|
                #![trigger final(self).live(i, g)]
                #![trigger old(self).live(i, g)]
                !(i == key.0 as int && g == key.1) ==> final(self).live(i, g) == old(self).live(i, g),
            forall|i: int|
                0 <= i < old(self).slots@.len() && i != key.0 as int ==> final(self).value_at(i)
                    == old(self).value_at(i),
            forall|i: int, g: u64|
                #![trigger final(self).retired(i, g)]
                #![trigger old(self).retired(i, g)]
                final(self).retired(i, g) == old(self).retired(i, g),
            old(self).slots@.len() <= final(self).slots@.len() <= old(self).slots@.len() + 1,
    {
        if let Some(index) = self.free.pop() {
            let generation = self.slots[index].generation;
            let slot = &mut self.slots[index];
            slot.value = Some(value);
            assert(self.slots@ == old(self).slots@.update(
                index as int,
                Slot { generation, value: Some(value) },
            ));
            (index, generation)
        } else {
            let index = self.slots.len();
            self.slots.push(Slot { generation: 0, value: Some(value) });
            (index, 0)
        }
    }

    /// Remove the entity a live handle names and retire the handle.
    pub(crate) fn remove(&mut self, index: usize, generation: u64) -> (r: V)
        requires
            old(self).wf(),
            old(self).live(index as int, generation),
        ensures
            final(self).wf(),
            r == old(self).value_at(index as int),
            forall|i: int, g: u64|
                #![trigger final(self).live(i, g)]
                #![trigger old(self).live(i, g)]
                final(self).live(i, g) == (old(self).live(i, g) && !(i == index as int && g
                    == generation)),
            forall|i: int|
                0 <= i < old(self).slots@.len() && i != index as int ==> final(self).value_at(i) == old(
                    self,
                ).value_at(i),
            forall|i: int, g: u64| #[trigger]
                old(self).retired(i, g) ==> final(self).retired(i, g),
            final(self).retired(index as int, generation),
            final(self).slots@.len() == old(self).slots@.len(),
    {
        let slot = &mut self.slots[index];
        let value = slot.value.take();
        let r = match value {
            Some(v) => v,
            None => { proof { assert(false); } unreached() },
        };
        if generation < u64::MAX {
            let slot = &mut self.slots[index];
            slot.generation = generation + 1;
            if generation + 1 < u64::MAX {
                self.free.push(index);
            }
        }
        r
    }

    /// Replace the entity a live handle names.
    pub(crate) fn update(&mut self, index: usize, generation: u64, value: V)
        requires
            old(self).wf(),
            old(self).live(index as int, generation),
        ensures
            final(self).wf(),
            final(self).live(index as int, generation),
            final(self).value_at(index as int) == value,
            forall|i: int, g: u64|
                #![trigger final(self).live(i, g)]
                #![trigger old(self).live(i, g)]
                final(self).live(i, g) == old(self).live(i, g),
            forall|i: int|
                0 <= i < old(self).slots@.len() && i != index as int ==> final(self).value_at(i) == old(
                    self,
                ).value_at(i),
            forall|i: int, g: u64|
                #![trigger final(self).retired(i, g)]
                #![trigger old(self).retired(i, g)]
                final(self).retired(i, g) == old(self).retired(i, g),
            final(self).slots@.len() == old(self).slots@.len(),
    {
        let slot = &mut self.slots[index];
        slot.value = Some(value);
    }

    /// Borrow the entity a live handle names for in-place mutation.
    pub(crate) fn borrow_mut(&mut self, index: usize, generation: u64) -> (r: &mut V)
        requires
            old(self).wf(),
            old(self).live(index as int, generation),
        ensures
            *r == old(self).value_at(index as int),
            final(self).wf(),
            final(self).live(index as int, generation),
            final(self).value_at(index as int) == *final(r),
            forall|i: int, g: u64|
                #![trigger final(self).live(i, g)]
                #![trigger old(self).live(i, g)]
                final(self).live(i, g) == old(self).live(i, g),
            forall|i: int|
                0 <= i < old(self).slots@.len() && i != index as int ==> final(self).value_at(i)
                    == old(self).value_at(i),
            forall|i: int, g: u64|
                #![trigger final(self).retired(i, g)]
                #![trigger old(self).retired(i, g)]
                final(self).retired(i, g) == old(self).retired(i, g),
            final(self).slots@.len() == old(self).slots@.len(),
    {
        let slot = &mut self.slots[index];
        match &mut slot.value {
            Some(v) => v,
            None => { proof { assert(false); } unreached() },
        }
    }

    /// Resolve a handle: `None` for a handle that is stale or was never
    /// issued.
    pub(crate) fn get(&self, index: usize, generation: u64) -> (r: Option<&V>)
        ensures
            match r {
                Some(v) => self.live(index as int, generation) && *v == self.value_at(
                    index as int,
                ),
                None => !self.live(index as int, generation),
            },
    {
        if index < self.slots.len() {
            let slot = &self.slots[index];
            if slot.generation == generation {
                slot.value.as_ref()
            } else {
                None
            }
        } else {
            None
        }
    }

    /// How many slots the table has grown to (live or vacant).
    pub(crate) fn slot_count(&self) -> (r: usize)
        ensures
            r == self.slots@.len(),
    {
        self.slots.len()
    }

    /// The generation of the entity currently living in slot `index`, if any.
    pub(crate) fn live_gen(&self, index: usize) -> (r: Option<u64>)
        ensures
            match r {
                Some(g) => self.live(index as int, g),
                None => forall|g: u64| !self.live(index as int, g),
            },
    {
        if index < self.slots.len() {
            let slot = &self.slots[index];
            if slot.value.is_some() {
                Some(slot.generation)
            } else {
                None
            }
        } else {
            None
        }
    }
}

} // verus!
