//! A binary search tree: every node stores a value that no value of its left
//! subtree comes after and that precedes every value of its right subtree.
//!
//! The tree is viewed as the sequence of its values from left to right, which
//! is ascending.  A value that is added goes behind the values that precede
//! it and in front of all others.

use crate::ordering::{
    lemma_precedes_chain, lemma_precedes_strict, place_of, precedes, strict_total_order, Place,
};
use vstd::pervasive::cloned;
use vstd::prelude::*;

verus! {

/// A subtree: a node, or nothing.
type Tree<T> = Option<Box<Node<T>>>;

/// A node with a value and its two subtrees.
pub struct Node<T: Ord + Clone> {
    value: T,
    left: Tree<T>,
    right: Tree<T>,
}

/// The values of a subtree from left to right.
pub closed spec fn values_of<T: Ord + Clone>(tree: Tree<T>) -> Seq<T>
    decreases tree,
{
    match tree {
        None => Seq::empty(),
        Some(node) => values_of(node.left).push(node.value) + values_of(node.right),
    }
}

/// The search order holds at every node of a subtree.
pub closed spec fn ordered<T: Ord + Clone>(tree: Tree<T>) -> bool
    decreases tree,
{
    match tree {
        None => true,
        Some(node) => {
            &&& ordered(node.left)
            &&& ordered(node.right)
            &&& forall|i: int|
                0 <= i < values_of(node.left).len() ==> !precedes(
                    node.value,
                    #[trigger] values_of(node.left)[i],
                )
            &&& forall|i: int|
                0 <= i < values_of(node.right).len() ==> precedes(
                    node.value,
                    #[trigger] values_of(node.right)[i],
                )
        },
    }
}

/// No value of the sequence precedes a value in front of it.
pub open spec fn ascending<T: Ord>(values: Seq<T>) -> bool {
    forall|i: int, j: int| 0 <= i < j < values.len() ==> !precedes(values[j], values[i])
}

/// The number of values that precede `value`.
pub open spec fn rank<T: Ord>(values: Seq<T>, value: T) -> nat
    decreases values.len(),
{
    if values.len() == 0 {
        0
    } else {
        rank(values.drop_last(), value) + if precedes(values.last(), value) {
            1nat
        } else {
            0nat
        }
    }
}

/// The values after `value` has been added: it stands behind as many values
/// as precede it.
pub open spec fn placed<T: Ord>(values: Seq<T>, value: T) -> Seq<T> {
    values.insert(rank(values, value) as int, value)
}

/// A rank is a position in the sequence or its end.
pub proof fn lemma_rank_in_bounds<T: Ord>(values: Seq<T>, value: T)
    ensures
        rank(values, value) <= values.len(),
    decreases values.len(),
{
    if values.len() > 0 {
        lemma_rank_in_bounds(values.drop_last(), value);
    }
}

/// The rank in a sequence made of two is the sum of the ranks in both.
proof fn lemma_rank_of_both<T: Ord>(front: Seq<T>, back: Seq<T>, value: T)
    ensures
        rank(front + back, value) == rank(front, value) + rank(back, value),
    decreases back.len(),
{
    if back.len() == 0 {
        assert(front + back =~= front);
    } else {
        assert((front + back).drop_last() =~= front + back.drop_last());
        assert((front + back).last() == back.last());
        lemma_rank_of_both(front, back.drop_last(), value);
    }
}

/// The rank in the values of a node with its two subtrees.
proof fn lemma_rank_around<T: Ord>(left: Seq<T>, middle: T, right: Seq<T>, value: T)
    ensures
        rank(left.push(middle) + right, value) == rank(left, value) + rank(right, value)
            + if precedes(middle, value) {
            1nat
        } else {
            0nat
        },
        rank(left, value) <= left.len(),
        rank(right, value) <= right.len(),
{
    lemma_rank_of_both(left.push(middle), right, value);
    assert(left.push(middle).drop_last() =~= left);
    lemma_rank_in_bounds(left, value);
    lemma_rank_in_bounds(right, value);
}

/// Where all values precede, the rank is the length; where none does, it is 0.
proof fn lemma_rank_uniform<T: Ord>(values: Seq<T>, value: T)
    ensures
        (forall|i: int| 0 <= i < values.len() ==> precedes(#[trigger] values[i], value)) ==> rank(
            values,
            value,
        ) == values.len(),
        (forall|i: int| 0 <= i < values.len() ==> !precedes(#[trigger] values[i], value)) ==> rank(
            values,
            value,
        ) == 0,
    decreases values.len(),
{
    if values.len() > 0 {
        let front = values.drop_last();
        lemma_rank_uniform(front, value);
        if forall|i: int| 0 <= i < values.len() ==> precedes(#[trigger] values[i], value) {
            assert forall|i: int| 0 <= i < front.len() implies precedes(
                #[trigger] front[i],
                value,
            ) by {
                assert(front[i] == values[i]);
            }
            assert(precedes(values[values.len() - 1], value));
        }
        if forall|i: int| 0 <= i < values.len() ==> !precedes(#[trigger] values[i], value) {
            assert forall|i: int| 0 <= i < front.len() implies !precedes(
                #[trigger] front[i],
                value,
            ) by {
                assert(front[i] == values[i]);
            }
            assert(!precedes(values[values.len() - 1], value));
        }
    }
}

/// The values after an addition are the values before it and the new one.
pub proof fn lemma_placed_holds<T: Ord>(values: Seq<T>, value: T, other: T)
    ensures
        placed(values, value).contains(other) <==> values.contains(other) || other == value,
        placed(values, value).len() == values.len() + 1,
{
    lemma_rank_in_bounds(values, value);
    let at = rank(values, value) as int;
    let after = placed(values, value);
    assert(after[at] == value);
    if values.contains(other) {
        let from = values.index_of(other);
        if from < at {
            assert(after[from] == other);
        } else {
            assert(after[from + 1] == other);
        }
    }
    if after.contains(other) && other != value {
        let to = after.index_of(other);
        if to < at {
            assert(values[to] == other);
        } else {
            assert(values[to - 1] == other);
        }
    }
}

/// The values of an ordered subtree are ascending.
proof fn lemma_ordered_ascending<T: Ord + Clone>(tree: Tree<T>)
    requires
        strict_total_order::<T>(),
        ordered(tree),
    ensures
        ascending(values_of(tree)),
    decreases tree,
{
    if let Some(node) = tree {
        lemma_ordered_ascending(node.left);
        lemma_ordered_ascending(node.right);
        let left = values_of(node.left);
        let right = values_of(node.right);
        let all = values_of(tree);
        assert forall|i: int, j: int| 0 <= i < j < all.len() implies !precedes(all[j], all[i]) by {
            let middle = left.len() as int;
            if j < middle {
                assert(all[i] == left[i] && all[j] == left[j]);
            } else if i > middle {
                assert(all[i] == right[i - middle - 1] && all[j] == right[j - middle - 1]);
            } else if i == middle {
                assert(all[j] == right[j - middle - 1]);
                lemma_precedes_strict(node.value, all[j]);
            } else if j == middle {
                assert(all[i] == left[i]);
            } else {
                assert(all[i] == left[i]);
                assert(all[j] == right[j - middle - 1]);
                lemma_precedes_chain(all[i], node.value, all[j]);
                lemma_precedes_strict(all[i], all[j]);
            }
        }
    }
}

impl<T: Ord + Clone> Node<T> {
    /// The value stored in the node.
    pub closed spec fn spec_value(&self) -> T {
        self.value
    }

    /// A node with the given value and no subtrees.
    pub fn new(value: T) -> (node: Self)
        ensures
            node.spec_value() == value,
            values_of(Some(Box::new(node))) == seq![value],
            ordered(Some(Box::new(node))),
    {
        let node = Node { value, left: None, right: None };
        proof {
            reveal_with_fuel(values_of, 2);
            reveal_with_fuel(ordered, 2);
            assert(values_of(Some(Box::new(node))) =~= seq![value]);
        }
        node
    }

    /// A node with the given value and no subtrees, on the heap.
    pub fn boxed(value: T) -> (node: Box<Self>)
        ensures
            node.spec_value() == value,
            values_of(Some(node)) == seq![value],
            ordered(Some(node)),
    {
        Box::new(Node::new(value))
    }

    /// A reference to the node's value.
    pub fn peek(&self) -> (value: &T)
        ensures
            *value == self.spec_value(),
    {
        &self.value
    }
}

/// A binary search tree that keeps every value it is given.
pub struct BinarySearchTree<T: Ord + Clone> {
    root: Tree<T>,
    length: u64,
}

impl<T: Ord + Clone> View for BinarySearchTree<T> {
    type V = Seq<T>;

    /// The values from left to right.
    closed spec fn view(&self) -> Seq<T> {
        values_of(self.root)
    }
}

impl<T: Ord + Clone> BinarySearchTree<T> {
    /// The invariant of the structure: the search order holds at every node,
    /// and the length counts the nodes.
    pub closed spec fn wf(&self) -> bool {
        &&& ordered(self.root)
        &&& self.length == values_of(self.root).len()
    }

    /// The value at the root: the one that was added first.
    pub closed spec fn root_value(&self) -> Option<T> {
        match self.root {
            Some(node) => Some(node.value),
            None => None,
        }
    }

    /// An empty tree.
    pub fn new() -> (tree: Self)
        ensures
            tree.wf(),
            tree@ == Seq::<T>::empty(),
            tree.root_value() is None,
    {
        BinarySearchTree { root: None, length: 0 }
    }

    /// The number of values.
    pub fn len(&self) -> (length: u64)
        requires
            self.wf(),
        ensures
            length == self@.len(),
    {
        self.length
    }

    /// The node at the root, if the tree is not empty.
    pub fn root(&self) -> (node: Option<&Node<T>>)
        ensures
            node is None <==> self@.len() == 0,
            match node {
                Some(node) => self.root_value() == Some(node.spec_value()),
                None => self.root_value() is None,
            },
    {
        match &self.root {
            Some(node) => {
                assert(values_of(self.root).len() > 0);
                Some(&**node)
            },
            None => None,
        }
    }

    /// Adds a value to the tree.
    pub fn add(&mut self, value: T)
        requires
            strict_total_order::<T>(),
            old(self).wf(),
            old(self)@.len() < u64::MAX,
        ensures
            final(self).wf(),
            final(self)@ == placed(old(self)@, value),
            final(self)@.len() == old(self)@.len() + 1,
            final(self).root_value() == if old(self)@.len() == 0 {
                Some(value)
            } else {
                old(self).root_value()
            },
    {
        let root = self.root.take();
        self.root = Self::add_recursive(root, value);
        self.length += 1;
        proof {
            lemma_rank_in_bounds(old(self)@, value);
        }
    }

    /// Walks down from `node` to the empty place where `value` belongs, to
    /// the left where the node's value does not precede it and to the right
    /// where it does, and puts a new node there.
    fn add_recursive(node: Tree<T>, value: T) -> (grown: Tree<T>)
        requires
            strict_total_order::<T>(),
            ordered(node),
        ensures
            ordered(grown),
            values_of(grown) == placed(values_of(node), value),
            grown is Some,
            grown->Some_0.value == match node {
                Some(root) => root.value,
                None => value,
            },
        decreases node,
    {
        if let Some(mut node) = node {
            let ghost before = node;
            let ghost left = values_of(before.left);
            let ghost right = values_of(before.right);
            let ghost all = values_of(Some(before));
            proof {
                lemma_rank_around(left, before.value, right, value);
                lemma_rank_uniform(left, value);
                lemma_rank_uniform(right, value);
            }
            match place_of(&node.value, &value) {
                Place::Before => {
                    let grown_right = Self::add_recursive(node.right.take(), value);
                    node.right = grown_right;
                    proof {
                        assert forall|i: int| 0 <= i < left.len() implies precedes(
                            #[trigger] left[i],
                            value,
                        ) by {
                            lemma_precedes_chain(left[i], before.value, value);
                        }
                        let after_right = values_of(node.right);
                        assert forall|i: int| 0 <= i < after_right.len() implies precedes(
                            node.value,
                            #[trigger] after_right[i],
                        ) by {
                            let at = rank(right, value) as int;
                            if i < at {
                                assert(after_right[i] == right[i]);
                            } else if i > at {
                                assert(after_right[i] == right[i - 1]);
                            }
                        }
                        assert(values_of(Some(node)) =~= placed(all, value));
                    }
                },
                _ => {
                    let grown_left = Self::add_recursive(node.left.take(), value);
                    node.left = grown_left;
                    proof {
                        lemma_precedes_strict(before.value, value);
                        assert forall|i: int| 0 <= i < right.len() implies !precedes(
                            #[trigger] right[i],
                            value,
                        ) by {
                            lemma_precedes_chain(value, before.value, right[i]);
                            lemma_precedes_strict(value, right[i]);
                        }
                        let after_left = values_of(node.left);
                        assert forall|i: int| 0 <= i < after_left.len() implies !precedes(
                            node.value,
                            #[trigger] after_left[i],
                        ) by {
                            let at = rank(left, value) as int;
                            if i < at {
                                assert(after_left[i] == left[i]);
                            } else if i > at {
                                assert(after_left[i] == left[i - 1]);
                            }
                        }
                        assert(values_of(Some(node)) =~= placed(all, value));
                    }
                },
            }
            return Some(node);
        }
        proof {
            assert(placed(Seq::<T>::empty(), value) =~= seq![value]);
        }
        Some(Node::boxed(value))
    }

    /// Searches the tree for a value and returns a clone of it.
    pub fn find(&self, value: T) -> (found: Option<T>)
        requires
            strict_total_order::<T>(),
            self.wf(),
        ensures
            self@.contains(value) ==> found is Some && cloned(value, found->Some_0),
            !self@.contains(value) ==> found is None,
    {
        Self::find_recursive(&self.root, value)
    }

    /// Walks down from `node` towards the place of `value` until a node
    /// stores it or the tree ends.
    fn find_recursive(node: &Tree<T>, value: T) -> (found: Option<T>)
        requires
            strict_total_order::<T>(),
            ordered(*node),
        ensures
            values_of(*node).contains(value) ==> found is Some && cloned(value, found->Some_0),
            !values_of(*node).contains(value) ==> found is None,
        decreases *node,
    {
        if let Some(node) = node {
            let ghost left = values_of(node.left);
            let ghost right = values_of(node.right);
            let ghost all = values_of(Some(*node));
            let ghost middle = left.len() as int;
            proof {
                assert(all[middle] == node.value);
                assert forall|i: int| 0 <= i < left.len() implies all[i] == left[i] by {}
                assert forall|i: int| 0 <= i < right.len() implies all[middle + 1 + i]
                    == right[i] by {}
                if all.contains(value) {
                    let at = all.index_of(value);
                    if at < middle {
                        assert(left[at] == value);
                    } else if at > middle {
                        assert(right[at - middle - 1] == value);
                    }
                }
            }
            return match place_of(&node.value, &value) {
                Place::Before => {
                    proof {
                        lemma_precedes_strict(node.value, value);
                        if left.contains(value) {
                            let at = left.index_of(value);
                            assert(!precedes(node.value, left[at]));
                        }
                        if right.contains(value) {
                            let at = right.index_of(value);
                            assert(all[middle + 1 + at] == value);
                        }
                    }
                    Self::find_recursive(&node.right, value)
                },
                Place::Same => Some(node.value.clone()),
                Place::After => {
                    proof {
                        lemma_precedes_strict(node.value, value);
                        if right.contains(value) {
                            let at = right.index_of(value);
                            assert(precedes(node.value, right[at]));
                        }
                        if left.contains(value) {
                            let at = left.index_of(value);
                            assert(all[at] == value);
                        }
                    }
                    Self::find_recursive(&node.left, value)
                },
            };
        }
        None
    }

    /// Calls `func` on every value, from left to right.
    pub fn walk(&self, func: impl Fn(&T) -> ())
        requires
            forall|i: int| 0 <= i < self@.len() ==> call_requires(func, (&#[trigger] self@[i],)),
        ensures
            forall|i: int| 0 <= i < self@.len() ==> call_ensures(func, (&#[trigger] self@[i],), ()),
    {
        Self::walk_in_order(&self.root, &func);
    }

    /// Calls `func` on the values of the left subtree, on the node's own
    /// value, and on the values of the right subtree.
    fn walk_in_order(node: &Tree<T>, func: &impl Fn(&T) -> ())
        requires
            forall|i: int|
                0 <= i < values_of(*node).len() ==> call_requires(
                    *func,
                    (&#[trigger] values_of(*node)[i],),
                ),
        ensures
            forall|i: int|
                0 <= i < values_of(*node).len() ==> call_ensures(
                    *func,
                    (&#[trigger] values_of(*node)[i],),
                    (),
                ),
        decreases *node,
    {
        if let Some(node) = node {
            let ghost left = values_of(node.left);
            let ghost right = values_of(node.right);
            let ghost all = values_of(Some(*node));
            let ghost middle = left.len() as int;
            proof {
                assert(all[middle] == node.value);
                assert forall|i: int| 0 <= i < left.len() implies call_requires(
                    *func,
                    (&#[trigger] left[i],),
                ) by {
                    assert(all[i] == left[i]);
                }
                assert forall|i: int| 0 <= i < right.len() implies call_requires(
                    *func,
                    (&#[trigger] right[i],),
                ) by {
                    assert(all[middle + 1 + i] == right[i]);
                }
            }
            Self::walk_in_order(&node.left, func);
            func(&node.value);
            Self::walk_in_order(&node.right, func);
            proof {
                assert forall|i: int| 0 <= i < all.len() implies call_ensures(
                    *func,
                    (&#[trigger] all[i],),
                    (),
                ) by {
                    if i < middle {
                        assert(all[i] == left[i]);
                    } else if i > middle {
                        assert(all[i] == right[i - middle - 1]);
                    }
                }
            }
        }
    }

    /// The values of a tree, from left to right, are ascending.
    pub proof fn lemma_values_ascending(&self)
        requires
            strict_total_order::<T>(),
            self.wf(),
        ensures
            ascending(self@),
    {
        lemma_ordered_ascending(self.root);
    }
}

} // verus!
