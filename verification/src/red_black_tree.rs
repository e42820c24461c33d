//! The types of a red-black tree: a search tree whose nodes carry a colour
//! by which the tree is kept in balance.
//!
//! - Every node is red or black, and the root is black.
//! - Every leaf counts as black.
//! - A red node has only black children.
//! - Every path from the root to a leaf passes the same number of black
//!   nodes.
//!
//! The nodes of a tree live in a table owned by the tree; the links of a node
//! to its children and to its parent are indices into that table.

use crate::links::Link;
use vstd::prelude::*;
use vstd::std_specs::cmp::{PartialEqSpec, PartialEqSpecImpl};

verus! {

/// The colour by which a node is marked when the tree is balanced.
#[derive(Clone, Copy, Debug, PartialEq, Eq, Structural)]
pub enum Color {
    Black,
    Red,
}

/// The direction in which a subtree is rotated when the tree is balanced.
#[derive(Clone, Copy, Debug, PartialEq, Eq, Structural)]
pub enum Rotation {
    Left,
    Right,
}

/// A node with its value, its colour and the links to its children and to
/// its parent.
pub struct Node<T: Clone + Ord + PartialEq> {
    color: Color,
    value: T,
    left: Link,
    right: Link,
    parent: Link,
}

impl<T: Clone + Ord + PartialEq> Node<T> {
    /// The value stored in the node.
    pub closed spec fn spec_value(&self) -> T {
        self.value
    }

    /// The colour of the node.
    pub closed spec fn spec_color(&self) -> Color {
        self.color
    }

    /// Whether the node has neither children nor a parent.
    pub closed spec fn is_detached(&self) -> bool {
        self.left is None && self.right is None && self.parent is None
    }

    /// A red node with the given value, linked to nothing.
    pub fn new(value: T) -> (node: Self)
        ensures
            node.spec_value() == value,
            node.spec_color() == Color::Red,
            node.is_detached(),
    {
        Node { value, color: Color::Red, parent: None, left: None, right: None }
    }
}

impl<T: Clone + Ord + PartialEq> PartialEq for Node<T> {
    /// Two nodes are equal when their values are.
    fn eq(&self, other: &Node<T>) -> (equal: bool) {
        self.value == other.value
    }
}

impl<T: Clone + Ord + PartialEq> PartialEqSpecImpl for Node<T> {
    open spec fn obeys_eq_spec() -> bool {
        <T as PartialEqSpec>::obeys_eq_spec()
    }

    closed spec fn eq_spec(&self, other: &Node<T>) -> bool {
        self.value.eq_spec(&other.value)
    }
}

/// A red-black tree: its nodes, the link to its root and their number.
pub struct RedBlackTree<T: Clone + Ord + PartialEq> {
    length: usize,
    root: Link,
    nodes: Vec<Node<T>>,
}

} // verus!
