//! A singly linked list: values are appended at the tail and popped from the
//! head.
//!
//! The nodes live in a slot table owned by the list, and each node holds the
//! link to the next.

use crate::links::{link_after, link_to_first, link_to_last, Link};
use crate::slot_table::SlotTable;
use vstd::prelude::*;

verus! {

/// A node holding a value and the link to the next node.
pub struct Node<T> {
    next: Link,
    value: T,
}

impl<T> Node<T> {
    /// The value held by the node.
    pub closed spec fn spec_value(&self) -> T {
        self.value
    }

    /// The link to the node that follows.
    pub closed spec fn spec_next(&self) -> Link {
        self.next
    }

    /// A node with the given value and no successor.
    pub fn new(value: T) -> (node: Self)
        ensures
            node.spec_value() == value,
            node.spec_next() is None,
    {
        Node { next: None, value }
    }

    /// A reference to the node's value.
    pub fn peek_value(&self) -> (value: &T)
        ensures
            *value == self.spec_value(),
    {
        &self.value
    }
}

/// A first-in, first-out list of values.
pub struct SinglyLinkedList<T> {
    nodes: SlotTable<Node<T>>,
    head: Link,
    tail: Link,
    length: u32,
    order: Ghost<Seq<usize>>,
}

impl<T> View for SinglyLinkedList<T> {
    type V = Seq<T>;

    /// The values from head to tail.
    closed spec fn view(&self) -> Seq<T> {
        Seq::new(self.order@.len(), |j: int| self.nodes@[self.order@[j]].value)
    }
}

impl<T> SinglyLinkedList<T> {
    /// The invariant of the structure: the links lead from the head through
    /// every node of the table, once, to the tail.
    pub closed spec fn wf(&self) -> bool {
        let order = self.order@;
        &&& self.nodes.wf()
        &&& self.length == order.len()
        &&& self.head == link_to_first(order)
        &&& self.tail == link_to_last(order)
        &&& forall|a: int, b: int| 0 <= a < b < order.len() ==> order[a] != order[b]
        &&& forall|at: usize| #[trigger] self.nodes@.contains_key(at) ==> order.contains(at)
        &&& forall|j: int|
            0 <= j < order.len() ==> self.nodes@.contains_key(#[trigger] order[j])
                && self.nodes@[order[j]].next == link_after(order, j)
    }

    /// An empty list.
    pub fn new() -> (list: Self)
        ensures
            list.wf(),
            list@ == Seq::<T>::empty(),
    {
        let list = SinglyLinkedList {
            nodes: SlotTable::new(),
            head: None,
            tail: None,
            length: 0,
            order: Ghost(Seq::empty()),
        };
        assert(list@ =~= Seq::<T>::empty());
        list
    }

    /// The number of nodes.
    pub fn len(&self) -> (length: u32)
        requires
            self.wf(),
        ensures
            length == self@.len(),
    {
        self.length
    }

    /// The first node, if the list is not empty.
    pub fn head(&self) -> (node: Option<&Node<T>>)
        requires
            self.wf(),
        ensures
            self@.len() == 0 ==> node is None,
            self@.len() > 0 ==> node is Some && node->Some_0.spec_value() == self@[0],
    {
        match self.head {
            None => None,
            Some(at) => {
                assert(at == self.order@[0]);
                Some(self.nodes.get(at))
            },
        }
    }

    /// The last node, if the list is not empty.
    pub fn tail(&self) -> (node: Option<&Node<T>>)
        requires
            self.wf(),
        ensures
            self@.len() == 0 ==> node is None,
            self@.len() > 0 ==> node is Some && node->Some_0.spec_value() == self@[self@.len() - 1],
    {
        match self.tail {
            None => None,
            Some(at) => {
                assert(at == self.order@[self.order@.len() - 1]);
                Some(self.nodes.get(at))
            },
        }
    }

    /// Appends a value at the tail.
    pub fn append(&mut self, value: T)
        requires
            old(self).wf(),
            old(self)@.len() < u32::MAX,
        ensures
            final(self).wf(),
            final(self)@ == old(self)@.push(value),
    {
        let ghost before = *self;
        let ghost count = before.order@.len() as int;
        let at = self.nodes.insert(Node::new(value));
        match self.tail {
            Some(last) => {
                assert(last == before.order@[count - 1]);
                let node = self.nodes.get_mut(last);
                node.next = Some(at);
            },
            None => {
                self.head = Some(at);
            },
        }
        self.length = self.length + 1;
        self.tail = Some(at);
        proof {
            self.order@ = before.order@.push(at);
            let order = self.order@;
            assert forall|j: int| 0 <= j < order.len() implies self.nodes@.contains_key(
                #[trigger] order[j],
            ) && self.nodes@[order[j]].next == link_after(order, j) by {
                if j < count {
                    assert(order[j] == before.order@[j]);
                    if j + 1 < count {
                        assert(order[j + 1] == before.order@[j + 1]);
                        assert(before.order@[j] != before.order@[count - 1]);
                    } else {
                        assert(order[j + 1] == at);
                    }
                }
            }
            assert forall|a: int, b: int| 0 <= a < b < order.len() implies order[a] != order[b] by {
                assert(order[a] == before.order@[a]);
                if b < count {
                    assert(order[b] == before.order@[b]);
                }
            }
            assert forall|other: usize| #[trigger]
                self.nodes@.contains_key(other) implies order.contains(other) by {
                if other == at {
                    assert(order[count] == at);
                } else {
                    assert(before.nodes@.contains_key(other));
                    let j = before.order@.index_of(other);
                    assert(order[j] == other);
                }
            }
            assert(self@ =~= before@.push(value)) by {
                assert forall|j: int| 0 <= j < count implies self@[j] == before@[j] by {
                    assert(order[j] == before.order@[j]);
                }
            }
        }
    }

    /// Pops the value at the head.
    pub fn pop(&mut self) -> (popped: Option<T>)
        requires
            old(self).wf(),
        ensures
            final(self).wf(),
            old(self)@.len() == 0 ==> popped is None && final(self)@ == old(self)@,
            old(self)@.len() > 0 ==> popped == Some(old(self)@[0]) && final(self)@ == old(
                self)@.skip(1),
    {
        let ghost before = *self;
        match self.head {
            None => None,
            Some(first) => {
                assert(first == before.order@[0]);
                let node = self.nodes.remove(first);
                self.head = node.next;
                if node.next.is_none() {
                    self.tail = None;
                }
                self.length = self.length - 1;
                proof {
                    self.order@ = before.order@.skip(1);
                    let order = self.order@;
                    assert forall|j: int| 0 <= j < order.len() implies self.nodes@.contains_key(
                        #[trigger] order[j],
                    ) && self.nodes@[order[j]].next == link_after(order, j) by {
                        assert(order[j] == before.order@[j + 1]);
                        assert(before.order@[0] != before.order@[j + 1]);
                        if j + 1 < order.len() {
                            assert(order[j + 1] == before.order@[j + 2]);
                        }
                    }
                    assert forall|a: int, b: int| 0 <= a < b < order.len() implies order[a]
                        != order[b] by {
                        assert(order[a] == before.order@[a + 1]);
                        assert(order[b] == before.order@[b + 1]);
                    }
                    assert forall|other: usize| #[trigger]
                        self.nodes@.contains_key(other) implies order.contains(other) by {
                        assert(before.nodes@.contains_key(other));
                        let j = before.order@.index_of(other);
                        assert(order[j - 1] == other);
                    }
                    if order.len() > 0 {
                        assert(order[0] == before.order@[1]);
                        assert(order[order.len() - 1] == before.order@[before.order@.len() - 1]);
                    }
                    assert(self@ =~= before@.skip(1)) by {
                        assert forall|j: int| 0 <= j < order.len() implies self@[j] == before@[j
                            + 1] by {
                            assert(order[j] == before.order@[j + 1]);
                            assert(before.order@[0] != before.order@[j + 1]);
                        }
                    }
                }
                Some(node.value)
            },
        }
    }
}

} // verus!
