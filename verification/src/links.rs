//! Links between the nodes of a structure whose nodes live in a table.
//!
//! A link is the index of a node in the table of its structure, or nothing.
//! The nodes that a chain of links runs through are written as the sequence
//! of their indices; the functions here say which link each position of such
//! a sequence has to hold.

use vstd::prelude::*;

verus! {

/// A link to a node: its index in the table, or nothing.
pub type Link = Option<usize>;

/// The link to the node that follows position `at` of `order`.
pub open spec fn link_after(order: Seq<usize>, at: int) -> Link {
    if 0 <= at + 1 < order.len() {
        Some(order[at + 1])
    } else {
        None
    }
}

/// The link to the node that precedes position `at` of `order`.
pub open spec fn link_before(order: Seq<usize>, at: int) -> Link {
    if 0 <= at - 1 < order.len() {
        Some(order[at - 1])
    } else {
        None
    }
}

/// The link to the first node of `order`.
pub open spec fn link_to_first(order: Seq<usize>) -> Link {
    link_after(order, -1)
}

/// The link to the last node of `order`.
pub open spec fn link_to_last(order: Seq<usize>) -> Link {
    link_before(order, order.len() as int)
}

} // verus!
