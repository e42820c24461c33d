//! A growable array: a buffer of slots of which a prefix is filled.
//!
//! When a value does not fit, the buffer grows to one and a half times its
//! size, or to the size that is asked for if that is more.

use vstd::pervasive::cloned;
use vstd::prelude::*;

verus! {

/// The capacity that a buffer of `capacity` slots grows to when at least
/// `min_capacity` slots are asked for: half as much again, or what is asked
/// for if that is more, and never more than a `usize` can count.
pub open spec fn grown_capacity(capacity: usize, min_capacity: usize) -> usize {
    let half_more = capacity + capacity / 2;
    if half_more > usize::MAX {
        usize::MAX
    } else if half_more > min_capacity {
        half_more as usize
    } else {
        min_capacity
    }
}

/// An array that grows as values are added at its end.
pub struct DynamicArray<T: Clone> {
    buffer: Vec<Option<T>>,
    capacity: usize,
    length: usize,
}

impl<T: Clone> View for DynamicArray<T> {
    type V = Seq<T>;

    /// The values in the order in which they were added.
    closed spec fn view(&self) -> Seq<T> {
        Seq::new(self.length as nat, |i: int| self.buffer@[i]->Some_0)
    }
}

impl<T: Clone> DynamicArray<T> {
    /// The number of slots of the buffer.
    pub closed spec fn spec_capacity(&self) -> usize {
        self.capacity
    }

    /// The invariant of the structure: the buffer has `capacity` slots, and
    /// exactly the first `len` of them are filled.
    pub closed spec fn wf(&self) -> bool {
        &&& self.buffer@.len() == self.capacity
        &&& self.length <= self.capacity
        &&& forall|i: int| 0 <= i < self.length ==> self.buffer@[i] is Some
        &&& forall|i: int| self.length <= i < self.capacity ==> self.buffer@[i] is None
    }

    /// An empty array without any slot.
    pub fn new() -> (array: Self)
        ensures
            array.wf(),
            array@ == Seq::<T>::empty(),
            array.spec_capacity() == 0,
    {
        let array = DynamicArray { buffer: Vec::new(), length: 0, capacity: 0 };
        assert(array@ =~= Seq::<T>::empty());
        array
    }

    /// The number of values.
    pub fn len(&self) -> (length: usize)
        requires
            self.wf(),
        ensures
            length == self@.len(),
    {
        self.length
    }

    /// The number of slots, filled or not.
    #[verifier::when_used_as_spec(spec_capacity)]
    pub fn capacity(&self) -> (capacity: usize)
        ensures
            capacity == self.spec_capacity(),
    {
        self.capacity
    }

    /// The number of slots that the buffer holds, which is the capacity.
    pub fn buffer_len(&self) -> (slots: usize)
        requires
            self.wf(),
        ensures
            slots == self.spec_capacity(),
    {
        self.buffer.len()
    }

    /// Grows the buffer so that it has at least `min_cap` slots.
    pub fn grow(&mut self, min_cap: usize)
        requires
            old(self).wf(),
        ensures
            final(self).wf(),
            final(self)@ == old(self)@,
            final(self).spec_capacity() == grown_capacity(old(self).spec_capacity(), min_cap),
    {
        let current_capacity = self.buffer.len();
        let mut extended_capacity = current_capacity.saturating_add(current_capacity / 2);
        if extended_capacity < min_cap {
            extended_capacity = min_cap;
        }
        self.capacity = extended_capacity;
        while self.buffer.len() < extended_capacity
            invariant
                self.length == old(self).length,
                self.capacity == extended_capacity,
                old(self).buffer@.len() <= self.buffer@.len() <= extended_capacity,
                forall|i: int|
                    0 <= i < old(self).buffer@.len() ==> self.buffer@[i] == old(self).buffer@[i],
                forall|i: int|
                    old(self).buffer@.len() <= i < self.buffer@.len() ==> self.buffer@[i] is None,
            decreases extended_capacity - self.buffer@.len(),
        {
            self.buffer.push(None);
        }
        assert(self@ =~= old(self)@);
    }

    /// Makes room for `items_to_add` more values.
    fn ensure_capacity(&mut self, items_to_add: usize)
        requires
            old(self).wf(),
            old(self)@.len() + items_to_add <= usize::MAX,
        ensures
            final(self).wf(),
            final(self)@ == old(self)@,
            final(self).spec_capacity() >= old(self)@.len() + items_to_add,
            final(self).spec_capacity() == if old(self)@.len() + items_to_add > old(
                self).spec_capacity() {
                grown_capacity(
                    old(self).spec_capacity(),
                    (old(self)@.len() + items_to_add) as usize,
                )
            } else {
                old(self).spec_capacity()
            },
    {
        if self.length + items_to_add > self.capacity {
            self.grow(self.length + items_to_add);
        }
    }

    /// A clone of the value at `index`, or nothing past the end.
    pub fn item_at(&mut self, index: usize) -> (item: Option<T>)
        requires
            old(self).wf(),
        ensures
            *final(self) == *old(self),
            index >= old(self)@.len() ==> item is None,
            index < old(self)@.len() ==> item is Some && cloned(
                old(self)@[index as int],
                item->Some_0,
            ),
    {
        if self.length > index {
            return self.buffer[index].clone();
        }
        None
    }

    /// Adds a value at the end.
    pub fn add(&mut self, value: T)
        requires
            old(self).wf(),
            old(self)@.len() < usize::MAX,
        ensures
            final(self).wf(),
            final(self)@ == old(self)@.push(value),
            final(self).spec_capacity() == if old(self)@.len() == old(self).spec_capacity() {
                grown_capacity(old(self).spec_capacity(), (old(self)@.len() + 1) as usize)
            } else {
                old(self).spec_capacity()
            },
    {
        self.ensure_capacity(1);
        let ghost grown = self@;
        self.buffer[self.length] = Some(value);
        self.length += 1;
        assert(self@ =~= grown.push(value));
    }
}

/// A cursor on the values of an array.
pub struct DynamicArrayIterator<T: Clone> {
    current: usize,
    data: Vec<T>,
}

impl<T: Clone> DynamicArrayIterator<T> {
    /// The values that the cursor walks.
    pub closed spec fn data(&self) -> Seq<T> {
        self.data@
    }

    /// The index that the cursor stands on.
    pub closed spec fn position(&self) -> usize {
        self.current
    }

    /// A cursor on the first of the given values.
    pub fn new(data: Vec<T>) -> (cursor: Self)
        ensures
            cursor.data() == data@,
            cursor.position() == 0,
    {
        DynamicArrayIterator { current: 0, data }
    }

    /// Returns a clone of the value under the cursor and moves the cursor
    /// one index up; past the last value there is nothing to return.
    pub fn next(&mut self) -> (item: Option<T>)
        ensures
            final(self).data() == old(self).data(),
            old(self).position() >= old(self).data().len() ==> item is None && final(
                self).position() == old(self).position(),
            old(self).position() < old(self).data().len() ==> item is Some && cloned(
                old(self).data()[old(self).position() as int],
                item->Some_0,
            ) && final(self).position() == old(self).position() + 1,
    {
        if self.current < self.data.len() {
            let item = self.data[self.current].clone();
            self.current += 1;
            return Some(item);
        }
        None
    }

    /// Returns a clone of the value under the cursor and moves the cursor
    /// one index down; from the first value it moves to the last.
    pub fn next_back(&mut self) -> (item: Option<T>)
        ensures
            final(self).data() == old(self).data(),
            old(self).position() >= old(self).data().len() ==> item is None && final(
                self).position() == old(self).position(),
            old(self).position() < old(self).data().len() ==> item is Some && cloned(
                old(self).data()[old(self).position() as int],
                item->Some_0,
            ) && final(self).position() == if old(self).position() == 0 {
                old(self).data().len() - 1
            } else {
                old(self).position() - 1
            },
    {
        if self.current < self.data.len() {
            let item = self.data[self.current].clone();
            if self.current == 0 {
                self.current = self.data.len() - 1;
            } else {
                self.current -= 1;
            }
            return Some(item);
        }
        None
    }
}

} // verus!
