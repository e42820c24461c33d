//! A doubly linked list: values are appended at the tail and popped from the
//! head, and a cursor walks the nodes in either direction.
//!
//! The nodes live in a slot table owned by the list.  Each node holds the
//! link to the next node and the link to the previous one; as both are
//! indices into the table, neither of them owns a node.

use crate::links::{link_after, link_before, link_to_first, link_to_last, Link};
use crate::slot_table::SlotTable;
use vstd::pervasive::cloned;
use vstd::prelude::*;

verus! {

/// A node holding a value and the links to both of its neighbours.
pub struct Node<T> {
    value: T,
    next: Link,
    prev: Link,
}

impl<T> Node<T> {
    /// The value held by the node.
    pub closed spec fn spec_value(&self) -> T {
        self.value
    }

    /// The link to the node that follows.
    pub closed spec fn spec_next(&self) -> Link {
        self.next
    }

    /// The link to the node that precedes.
    pub closed spec fn spec_prev(&self) -> Link {
        self.prev
    }

    /// A node with the given value and no neighbours.
    pub fn new(value: T) -> (node: Self)
        ensures
            node.spec_value() == value,
            node.spec_next() is None,
            node.spec_prev() is None,
    {
        Node { value, next: None, prev: None }
    }

    /// A reference to the node's value.
    pub fn peek_value(&self) -> (value: &T)
        ensures
            *value == self.spec_value(),
    {
        &self.value
    }
}

/// A list of values that can be walked from either end.
pub struct DoublyLinkedList<T> {
    nodes: SlotTable<Node<T>>,
    head: Link,
    tail: Link,
    length: u32,
    order: Ghost<Seq<usize>>,
}

impl<T> View for DoublyLinkedList<T> {
    type V = Seq<T>;

    /// The values from head to tail.
    closed spec fn view(&self) -> Seq<T> {
        Seq::new(self.order@.len(), |j: int| self.nodes@[self.order@[j]].value)
    }
}

impl<T> DoublyLinkedList<T> {
    /// The invariant of the structure: the forward links lead from the head
    /// through every node of the table, once, to the tail, and the backward
    /// links lead the same way back.
    pub closed spec fn wf(&self) -> bool {
        let order = self.order@;
        &&& self.nodes.wf()
        &&& self.length == order.len()
        &&& self.head == link_to_first(order)
        &&& self.tail == link_to_last(order)
        &&& forall|a: int, b: int| 0 <= a < b < order.len() ==> order[a] != order[b]
        &&& forall|at: usize| #[trigger] self.nodes@.contains_key(at) ==> order.contains(at)
        &&& forall|j: int|
            0 <= j < order.len() ==> self.nodes@.contains_key(#[trigger] order[j])
                && self.nodes@[order[j]].next == link_after(order, j)
                && self.nodes@[order[j]].prev == link_before(order, j)
    }

    /// An empty list.
    pub fn new() -> (list: Self)
        ensures
            list.wf(),
            list@ == Seq::<T>::empty(),
    {
        let list = DoublyLinkedList {
            nodes: SlotTable::new(),
            head: None,
            tail: None,
            length: 0,
            order: Ghost(Seq::empty()),
        };
        assert(list@ =~= Seq::<T>::empty());
        list
    }

    /// The number of nodes.
    pub fn len(&self) -> (length: u32)
        requires
            self.wf(),
        ensures
            length == self@.len(),
    {
        self.length
    }

    /// The first node, if the list is not empty.
    pub fn head(&self) -> (node: Option<&Node<T>>)
        requires
            self.wf(),
        ensures
            self@.len() == 0 ==> node is None,
            self@.len() > 0 ==> node is Some && node->Some_0.spec_value() == self@[0],
    {
        match self.head {
            None => None,
            Some(at) => {
                assert(at == self.order@[0]);
                Some(self.nodes.get(at))
            },
        }
    }

    /// The last node, if the list is not empty.
    pub fn tail(&self) -> (node: Option<&Node<T>>)
        requires
            self.wf(),
        ensures
            self@.len() == 0 ==> node is None,
            self@.len() > 0 ==> node is Some && node->Some_0.spec_value() == self@[self@.len() - 1],
    {
        match self.tail {
            None => None,
            Some(at) => {
                assert(at == self.order@[self.order@.len() - 1]);
                Some(self.nodes.get(at))
            },
        }
    }

    /// Appends a value at the tail.
    pub fn append(&mut self, value: T)
        requires
            old(self).wf(),
            old(self)@.len() < u32::MAX,
        ensures
            final(self).wf(),
            final(self)@ == old(self)@.push(value),
    {
        let ghost before = *self;
        let ghost count = before.order@.len() as int;
        let mut node = Node::new(value);
        node.prev = self.tail;
        let at = self.nodes.insert(node);
        match self.tail {
            Some(last) => {
                assert(last == before.order@[count - 1]);
                let tail_node = self.nodes.get_mut(last);
                tail_node.next = Some(at);
            },
            None => {
                self.head = Some(at);
            },
        }
        self.length = self.length + 1;
        self.tail = Some(at);
        proof {
            self.order@ = before.order@.push(at);
            let order = self.order@;
            assert forall|j: int| 0 <= j < order.len() implies self.nodes@.contains_key(
                #[trigger] order[j],
            ) && self.nodes@[order[j]].next == link_after(order, j) && self.nodes@[order[j]].prev
                == link_before(order, j) by {
                if j < count {
                    assert(order[j] == before.order@[j]);
                    if j > 0 {
                        assert(order[j - 1] == before.order@[j - 1]);
                    }
                    if j + 1 < count {
                        assert(order[j + 1] == before.order@[j + 1]);
                        assert(before.order@[j] != before.order@[count - 1]);
                    } else {
                        assert(order[j + 1] == at);
                    }
                } else if count > 0 {
                    assert(order[j - 1] == before.order@[count - 1]);
                }
            }
            assert forall|a: int, b: int| 0 <= a < b < order.len() implies order[a] != order[b] by {
                assert(order[a] == before.order@[a]);
                if b < count {
                    assert(order[b] == before.order@[b]);
                }
            }
            assert forall|other: usize| #[trigger]
                self.nodes@.contains_key(other) implies order.contains(other) by {
                if other == at {
                    assert(order[count] == at);
                } else {
                    assert(before.nodes@.contains_key(other));
                    let j = before.order@.index_of(other);
                    assert(order[j] == other);
                }
            }
            assert(self@ =~= before@.push(value)) by {
                assert forall|j: int| 0 <= j < count implies self@[j] == before@[j] by {
                    assert(order[j] == before.order@[j]);
                }
            }
        }
    }

    /// Pops the value at the head.
    pub fn pop(&mut self) -> (popped: Option<T>)
        requires
            old(self).wf(),
        ensures
            final(self).wf(),
            old(self)@.len() == 0 ==> popped is None && final(self)@ == old(self)@,
            old(self)@.len() > 0 ==> popped == Some(old(self)@[0]) && final(self)@ == old(
                self)@.skip(1),
    {
        let ghost before = *self;
        match self.head {
            None => None,
            Some(first) => {
                assert(first == before.order@[0]);
                let node = self.nodes.remove(first);
                self.head = node.next;
                match node.next {
                    Some(second) => {
                        assert(second == before.order@[1]);
                        let head_node = self.nodes.get_mut(second);
                        head_node.prev = None;
                    },
                    None => {
                        self.tail = None;
                    },
                }
                self.length = self.length - 1;
                proof {
                    self.order@ = before.order@.skip(1);
                    let order = self.order@;
                    assert forall|j: int| 0 <= j < order.len() implies self.nodes@.contains_key(
                        #[trigger] order[j],
                    ) && self.nodes@[order[j]].next == link_after(order, j)
                        && self.nodes@[order[j]].prev == link_before(order, j) by {
                        assert(order[j] == before.order@[j + 1]);
                        assert(before.order@[0] != before.order@[j + 1]);
                        if j + 1 < order.len() {
                            assert(order[j + 1] == before.order@[j + 2]);
                        }
                        if j > 0 {
                            assert(order[j - 1] == before.order@[j]);
                            assert(before.order@[1] != before.order@[j + 1]);
                        }
                    }
                    assert forall|a: int, b: int| 0 <= a < b < order.len() implies order[a]
                        != order[b] by {
                        assert(order[a] == before.order@[a + 1]);
                        assert(order[b] == before.order@[b + 1]);
                    }
                    assert forall|other: usize| #[trigger]
                        self.nodes@.contains_key(other) implies order.contains(other) by {
                        assert(before.nodes@.contains_key(other));
                        let j = before.order@.index_of(other);
                        assert(order[j - 1] == other);
                    }
                    if order.len() > 0 {
                        assert(order[0] == before.order@[1]);
                        assert(order[order.len() - 1] == before.order@[before.order@.len() - 1]);
                    }
                    assert(self@ =~= before@.skip(1)) by {
                        assert forall|j: int| 0 <= j < order.len() implies self@[j] == before@[j
                            + 1] by {
                            assert(order[j] == before.order@[j + 1]);
                            assert(before.order@[0] != before.order@[j + 1]);
                        }
                    }
                }
                Some(node.value)
            },
        }
    }
}

/// A cursor on the nodes of a list: it stands on a node or past either end.
pub struct ListIterator<'a, T> {
    list: &'a DoublyLinkedList<T>,
    current: Link,
}

impl<'a, T: Clone> ListIterator<'a, T> {
    /// The list that the cursor walks.
    pub closed spec fn list(&self) -> &'a DoublyLinkedList<T> {
        self.list
    }

    /// The position of the node that the cursor stands on, counted from the
    /// head, or nothing when it has left the list.
    pub closed spec fn position(&self) -> Option<int> {
        match self.current {
            Some(at) => Some(self.list.order@.index_of(at)),
            None => None,
        }
    }

    /// The invariant of the cursor: the list is well formed, and the node
    /// that the cursor stands on is one of its nodes.
    pub closed spec fn wf(&self) -> bool {
        &&& self.list.wf()
        &&& self.current matches Some(at) ==> self.list.order@.contains(at)
    }

    /// A cursor on the head of the list.
    pub fn new(list: &'a DoublyLinkedList<T>) -> (cursor: Self)
        requires
            list.wf(),
        ensures
            cursor.wf(),
            cursor.list() == list,
            cursor.position() == if list@.len() > 0 {
                Some(0int)
            } else {
                None
            },
    {
        proof {
            if list.order@.len() > 0 {
                assert(list.order@[0] == list.head->Some_0);
                lemma_position(list.order@, 0);
            }
        }
        ListIterator { list, current: list.head }
    }

    /// A cursor on the tail of the list.
    pub fn from_tail(list: &'a DoublyLinkedList<T>) -> (cursor: Self)
        requires
            list.wf(),
        ensures
            cursor.wf(),
            cursor.list() == list,
            cursor.position() == if list@.len() > 0 {
                Some(list@.len() - 1)
            } else {
                None
            },
    {
        proof {
            if list.order@.len() > 0 {
                assert(list.order@[list.order@.len() - 1] == list.tail->Some_0);
                lemma_position(list.order@, list.order@.len() - 1);
            }
        }
        ListIterator { list, current: list.tail }
    }

    /// Returns a clone of the value under the cursor and moves the cursor
    /// towards the tail.
    pub fn next(&mut self) -> (value: Option<T>)
        requires
            old(self).wf(),
        ensures
            final(self).wf(),
            final(self).list() == old(self).list(),
            match old(self).position() {
                Some(at) => 0 <= at < old(self).list()@.len() && value is Some && cloned(
                    old(self).list()@[at],
                    value->Some_0,
                ) && final(self).position() == if at + 1 < old(self).list()@.len() {
                    Some(at + 1)
                } else {
                    None
                },
                None => value is None && final(self).position() is None,
            },
    {
        match self.current {
            Some(at) => {
                let ghost here = self.list.order@.index_of(at);
                assert(self.list.order@[here] == at);
                let node = self.list.nodes.get(at);
                let value = node.value.clone();
                self.current = node.next;
                proof {
                    if here + 1 < self.list.order@.len() {
                        lemma_position(self.list.order@, here + 1);
                    }
                }
                Some(value)
            },
            None => None,
        }
    }

    /// Returns a clone of the value under the cursor and moves the cursor
    /// towards the head.
    pub fn next_back(&mut self) -> (value: Option<T>)
        requires
            old(self).wf(),
        ensures
            final(self).wf(),
            final(self).list() == old(self).list(),
            match old(self).position() {
                Some(at) => 0 <= at < old(self).list()@.len() && value is Some && cloned(
                    old(self).list()@[at],
                    value->Some_0,
                ) && final(self).position() == if at > 0 {
                    Some(at - 1)
                } else {
                    None
                },
                None => value is None && final(self).position() is None,
            },
    {
        match self.current {
            Some(at) => {
                let ghost here = self.list.order@.index_of(at);
                assert(self.list.order@[here] == at);
                let node = self.list.nodes.get(at);
                let value = node.value.clone();
                self.current = node.prev;
                proof {
                    if here > 0 {
                        lemma_position(self.list.order@, here - 1);
                    }
                }
                Some(value)
            },
            None => None,
        }
    }
}

/// In a sequence without repetition, the position of an element is the one
/// position that holds it.
proof fn lemma_position(order: Seq<usize>, at: int)
    requires
        0 <= at < order.len(),
        forall|a: int, b: int| 0 <= a < b < order.len() ==> order[a] != order[b],
    ensures
        order.contains(order[at]),
        order.index_of(order[at]) == at,
{
    assert(order.contains(order[at]));
    let found = order.index_of(order[at]);
    assert(order[found] == order[at]);
    if found < at {
        assert(order[found] != order[at]);
    } else if at < found {
        assert(order[at] != order[found]);
    }
}

} // verus!
