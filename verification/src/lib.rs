//! Verified collections: a skip list and the classic containers around it.
//!
//! - [`skip_list`]: an ordered list of `(key, value)` entries with levels of
//!   links to skip ahead on; [`entries`] is its mathematical model and
//!   [`level_source`] draws its tower heights.
//! - [`binary_search_tree`]: an unbalanced search tree over an order that
//!   [`ordering`] describes.
//! - [`singly_linked_list`] and [`doubly_linked_list`]: queues whose nodes
//!   live in a [`slot_table`] and refer to each other by [`links`].
//! - [`dynamic_array`]: an array that grows by half.
//! - [`red_black_tree`]: the types of a balanced search tree.
//!
//! A container is viewed as the sequence of its values and has an invariant
//! `wf` that its constructors establish and its methods keep; the contracts
//! of the methods are written over the views.

pub mod binary_search_tree;
pub mod doubly_linked_list;
pub mod dynamic_array;
pub mod entries;
pub mod level_source;
pub mod links;
pub mod ordering;
pub mod red_black_tree;
pub mod skip_list;
pub mod singly_linked_list;
pub mod slot_table;
