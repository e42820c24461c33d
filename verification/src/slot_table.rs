//! A table of slots that hands out indices.
//!
//! The linked lists keep their nodes in such a table and link them by index.
//! An item keeps its index until it is taken out; the slot it leaves goes to
//! a free list and is handed out again before the table grows.

use vstd::prelude::*;

verus! {

/// A table from indices to items.
pub struct SlotTable<N> {
    slots: Vec<Option<N>>,
    free: Vec<usize>,
}

impl<N> View for SlotTable<N> {
    type V = Map<usize, N>;

    /// The items by their indices.
    closed spec fn view(&self) -> Map<usize, N> {
        Map::new(
            |at: usize| at < self.slots@.len() && self.slots@[at as int] is Some,
            |at: usize| self.slots@[at as int]->Some_0,
        )
    }
}

impl<N> SlotTable<N> {
    /// The invariant of the table: the free list names every empty slot, once.
    pub closed spec fn wf(&self) -> bool {
        &&& forall|f: int|
            0 <= f < self.free@.len() ==> (#[trigger] self.free@[f]) < self.slots@.len()
                && self.slots@[self.free@[f] as int] is None
        &&& forall|a: int, b: int| 0 <= a < b < self.free@.len() ==> self.free@[a] != self.free@[b]
        &&& forall|at: usize|
            at < self.slots@.len() && self.slots@[at as int] is None
                ==> #[trigger] self.free@.contains(at)
    }

    /// An empty table.
    pub fn new() -> (table: Self)
        ensures
            table.wf(),
            table@ == Map::<usize, N>::empty(),
    {
        let table = SlotTable { slots: Vec::new(), free: Vec::new() };
        assert(table@ =~= Map::<usize, N>::empty());
        table
    }

    /// Puts an item into the table and returns the index it got, which no
    /// other item has.
    pub fn insert(&mut self, item: N) -> (at: usize)
        requires
            old(self).wf(),
        ensures
            final(self).wf(),
            !old(self)@.contains_key(at),
            final(self)@ == old(self)@.insert(at, item),
    {
        match self.free.pop() {
            Some(at) => {
                let ghost last = old(self).free@.len() - 1;
                assert(at == old(self).free@[last]);
                assert forall|f: int| 0 <= f < self.free@.len() implies self.free@[f] != at by {
                    assert(self.free@[f] == old(self).free@[f]);
                }
                self.slots[at] = Some(item);
                proof {
                    assert forall|other: usize|
                        other < self.slots@.len()
                            && self.slots@[other as int] is None implies #[trigger]
                    self.free@.contains(other) by {
                        assert(old(self).free@.contains(other));
                        let f = old(self).free@.index_of(other);
                        assert(self.free@[f] == other);
                    }
                    assert(self@ =~= old(self)@.insert(at, item));
                }
                at
            },
            None => {
                proof {
                    assert forall|other: usize|
                        other < self.slots@.len() implies self.slots@[other as int] is Some by {
                        if self.slots@[other as int] is None {
                            assert(old(self).free@.contains(other));
                        }
                    }
                }
                self.slots.push(Some(item));
                let at = self.slots.len() - 1;
                assert(self@ =~= old(self)@.insert(at, item));
                at
            },
        }
    }

    /// Takes the item with the given index out of the table.
    pub fn remove(&mut self, at: usize) -> (item: N)
        requires
            old(self).wf(),
            old(self)@.contains_key(at),
        ensures
            final(self).wf(),
            item == old(self)@[at],
            final(self)@ == old(self)@.remove(at),
    {
        let item = self.slots[at].take().unwrap();
        self.free.push(at);
        proof {
            assert forall|f: int| 0 <= f < self.free@.len() implies (#[trigger] self.free@[f])
                < self.slots@.len() && self.slots@[self.free@[f] as int] is None by {
                if f < old(self).free@.len() {
                    assert(self.free@[f] == old(self).free@[f]);
                }
            }
            assert forall|a: int, b: int| 0 <= a < b < self.free@.len() implies self.free@[a]
                != self.free@[b] by {
                assert(self.free@[a] == old(self).free@[a]);
                if b < old(self).free@.len() {
                    assert(self.free@[b] == old(self).free@[b]);
                }
            }
            assert forall|other: usize|
                other < self.slots@.len() && self.slots@[other as int] is None implies #[trigger]
            self.free@.contains(other) by {
                if other == at {
                    assert(self.free@[old(self).free@.len() as int] == at);
                } else {
                    assert(old(self).free@.contains(other));
                    let f = old(self).free@.index_of(other);
                    assert(self.free@[f] == other);
                }
            }
            assert(self@ =~= old(self)@.remove(at));
        }
        item
    }

    /// The item with the given index.
    pub fn get(&self, at: usize) -> (item: &N)
        requires
            self.wf(),
            self@.contains_key(at),
        ensures
            *item == self@[at],
    {
        self.slots[at].as_ref().unwrap()
    }

    /// The item with the given index, to be changed in place.
    pub fn get_mut(&mut self, at: usize) -> (item: &mut N)
        requires
            old(self).wf(),
            old(self)@.contains_key(at),
        ensures
            *item == old(self)@[at],
            final(self).wf(),
            final(self)@ == old(self)@.insert(at, *final(item)),
    {
        self.slots[at].as_mut().unwrap()
    }
}

} // verus!
