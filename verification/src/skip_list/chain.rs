//! The chains of a skip list: what it means that a sequence of nodes is the
//! linked list of one level, and that it stays so when a node is linked in.

use super::Node;
use crate::entries::{inserted, keys_ascending, lemma_inserted_ascending, lemma_rank_splits, rank};
use crate::links::{link_after, link_to_first, Link};
use vstd::prelude::*;

verus! {

/// The entries that the nodes of a chain carry, in the chain's order.
pub(super) open spec fn entries_along<T>(nodes: Seq<Node<T>>, chain: Seq<usize>) -> Seq<
    (usize, T),
> {
    Seq::new(chain.len(), |j: int| (nodes[chain[j] as int].key, nodes[chain[j] as int].value))
}

/// Every node of the chain is one of the first `count` and high enough for
/// the level.
pub(super) open spec fn chain_members<T>(
    nodes: Seq<Node<T>>,
    chain: Seq<usize>,
    level: int,
    count: int,
) -> bool {
    forall|j: int|
        0 <= j < chain.len() ==> (#[trigger] chain[j]) < count
            && nodes[chain[j] as int].forward@.len() > level
}

/// No node stands twice in the chain.
pub(super) open spec fn chain_distinct(chain: Seq<usize>) -> bool {
    forall|a: int, b: int| 0 <= a < b < chain.len() ==> chain[a] != chain[b]
}

/// Of two nodes of the chain with the same key, the one that was added later
/// stands first.
pub(super) open spec fn chain_ranked<T>(nodes: Seq<Node<T>>, chain: Seq<usize>) -> bool {
    forall|a: int, b: int|
        0 <= a < b < chain.len() && nodes[chain[a] as int].key == nodes[chain[b] as int].key
            ==> chain[a] > chain[b]
}

/// Every node among the first `count` that is high enough for the level
/// stands in the chain.
pub(super) open spec fn chain_complete<T>(
    nodes: Seq<Node<T>>,
    chain: Seq<usize>,
    level: int,
    count: int,
) -> bool {
    forall|i: usize|
        i < count && nodes[i as int].forward@.len() > level ==> #[trigger] chain.contains(i)
}

/// The chain starts at `head`, and each of its nodes refers to the next.
pub(super) open spec fn chain_linked<T>(
    nodes: Seq<Node<T>>,
    chain: Seq<usize>,
    head: Option<usize>,
    level: int,
) -> bool {
    &&& head == link_to_first(chain)
    &&& forall|j: int|
        0 <= j < chain.len() ==> nodes[#[trigger] chain[j] as int].forward@[level] == link_after(
            chain,
            j,
        )
}

/// `chain` is the linked list of `level`: it holds, once each and in
/// ascending key order, the later before the earlier where keys are equal,
/// the nodes among the first `count` that are at least `level + 1` high; it
/// starts at `head`, and each of its nodes refers to the next.
pub(super) open spec fn chain_ok<T>(
    nodes: Seq<Node<T>>,
    chain: Seq<usize>,
    head: Option<usize>,
    level: int,
    count: int,
) -> bool {
    &&& chain_members(nodes, chain, level, count)
    &&& chain_distinct(chain)
    &&& keys_ascending(entries_along(nodes, chain))
    &&& chain_ranked(nodes, chain)
    &&& chain_complete(nodes, chain, level, count)
    &&& chain_linked(nodes, chain, head, level)
}

/// The first `count` nodes of `after` carry the keys, values and heights
/// that they carry in `before`.
pub(super) open spec fn same_entries<T>(
    before: Seq<Node<T>>,
    after: Seq<Node<T>>,
    count: int,
) -> bool {
    forall|i: int|
        0 <= i < count ==> (#[trigger] after[i]).key == before[i].key && after[i].value
            == before[i].value && after[i].forward@.len() == before[i].forward@.len()
}

/// The first `count` nodes of `after` refer on `level` to what they refer to
/// in `before`.
pub(super) open spec fn same_links<T>(
    before: Seq<Node<T>>,
    after: Seq<Node<T>>,
    level: int,
    count: int,
) -> bool {
    forall|i: int|
        0 <= i < count && before[i].forward@.len() > level ==> (#[trigger] after[i]).forward@[level]
            == before[i].forward@[level]
}

/// A chain stays the chain of its level while the nodes it runs through keep
/// their entries and their references on that level.
pub(super) proof fn lemma_chain_kept<T>(
    before: Seq<Node<T>>,
    after: Seq<Node<T>>,
    chain: Seq<usize>,
    head: Option<usize>,
    level: int,
    count: int,
)
    requires
        chain_ok(before, chain, head, level, count),
        0 <= count <= before.len(),
        count <= after.len(),
        same_entries(before, after, count),
        same_links(before, after, level, count),
    ensures
        chain_ok(after, chain, head, level, count),
        entries_along(after, chain) == entries_along(before, chain),
{
    assert forall|j: int| 0 <= j < chain.len() implies (#[trigger] chain[j]) < count
        && after[chain[j] as int].forward@.len() > level && after[chain[j] as int].forward@[level]
        == link_after(chain, j) && after[chain[j] as int].key == before[chain[j] as int].key
        && after[chain[j] as int].value == before[chain[j] as int].value by {
        let i = chain[j] as int;
        assert(after[i].key == before[i].key);
        assert(after[i].forward@[level] == before[i].forward@[level]);
    }
    assert(entries_along(after, chain) =~= entries_along(before, chain));
    assert forall|i: usize| i < count && after[i as int].forward@.len() > level implies #[trigger]
    chain.contains(i) by {
        assert(after[i as int].key == before[i as int].key);
    }
    assert forall|a: int, b: int|
        0 <= a < b < chain.len() && after[chain[a] as int].key
            == after[chain[b] as int].key implies chain[a] > chain[b] by {
        assert(after[chain[a] as int].key == before[chain[a] as int].key);
        assert(after[chain[b] as int].key == before[chain[b] as int].key);
    }
}

/// A chain that is complete for the first `count` nodes is complete for one
/// more when that one is too low for the level.
pub(super) proof fn lemma_chain_skips_low_node<T>(
    nodes: Seq<Node<T>>,
    chain: Seq<usize>,
    head: Option<usize>,
    level: int,
    count: int,
)
    requires
        chain_ok(nodes, chain, head, level, count),
        0 <= count < nodes.len(),
        nodes[count].forward@.len() <= level,
    ensures
        chain_ok(nodes, chain, head, level, count + 1),
{
    assert forall|j: int| 0 <= j < chain.len() implies (#[trigger] chain[j]) < count + 1 by {}
}

/// The entries along a chain that a new node was put into.
pub(super) proof fn lemma_entries_spliced<T>(
    before: Seq<Node<T>>,
    after: Seq<Node<T>>,
    chain: Seq<usize>,
    level: int,
    split: int,
)
    requires
        chain_members(before, chain, level, before.len() as int),
        after.len() == before.len() + 1,
        before.len() < usize::MAX,
        same_entries(before, after, before.len() as int),
        0 <= split <= chain.len(),
    ensures
        entries_along(after, chain.insert(split, before.len() as usize)) == entries_along(
            before,
            chain,
        ).insert(
            split,
            (after[before.len() as int].key, after[before.len() as int].value),
        ),
{
    let grown = chain.insert(split, before.len() as usize);
    let along = entries_along(before, chain);
    let along_grown = entries_along(after, grown);
    let entry = (after[before.len() as int].key, after[before.len() as int].value);
    assert forall|j: int| 0 <= j < grown.len() implies along_grown[j] == along.insert(
        split,
        entry,
    )[j] by {
        if j < split {
            assert(grown[j] == chain[j]);
            assert(after[chain[j] as int].key == before[chain[j] as int].key);
        } else if j > split {
            assert(grown[j] == chain[j - 1]);
            assert(after[chain[j - 1] as int].key == before[chain[j - 1] as int].key);
        }
    }
    assert(along_grown =~= along.insert(split, entry));
}

/// A chain that a new node was put into holds nodes of its level, once each.
pub(super) proof fn lemma_members_spliced<T>(
    before: Seq<Node<T>>,
    after: Seq<Node<T>>,
    chain: Seq<usize>,
    level: int,
    split: int,
)
    requires
        chain_members(before, chain, level, before.len() as int),
        chain_distinct(chain),
        chain_complete(before, chain, level, before.len() as int),
        after.len() == before.len() + 1,
        before.len() < usize::MAX,
        same_entries(before, after, before.len() as int),
        after[before.len() as int].forward@.len() > level,
        0 <= split <= chain.len(),
    ensures
        chain_members(
            after,
            chain.insert(split, before.len() as usize),
            level,
            (before.len() + 1) as int,
        ),
        chain_distinct(chain.insert(split, before.len() as usize)),
        chain_complete(
            after,
            chain.insert(split, before.len() as usize),
            level,
            (before.len() + 1) as int,
        ),
{
    let fresh = before.len() as usize;
    let grown = chain.insert(split, fresh);
    assert forall|j: int| 0 <= j < grown.len() implies (#[trigger] grown[j]) < before.len() + 1
        && after[grown[j] as int].forward@.len() > level by {
        if j < split {
            assert(grown[j] == chain[j]);
            assert(after[chain[j] as int].key == before[chain[j] as int].key);
        } else if j > split {
            assert(grown[j] == chain[j - 1]);
            assert(after[chain[j - 1] as int].key == before[chain[j - 1] as int].key);
        }
    }
    assert forall|a: int, b: int| 0 <= a < b < grown.len() implies grown[a] != grown[b] by {
        let from_a = if a < split {
            a
        } else {
            a - 1
        };
        let from_b = if b < split {
            b
        } else {
            b - 1
        };
        if a != split && b != split {
            assert(grown[a] == chain[from_a] && grown[b] == chain[from_b]);
        } else if a == split {
            assert(grown[b] == chain[from_b]);
            assert(chain[from_b] < before.len());
        } else {
            assert(grown[a] == chain[from_a]);
            assert(chain[from_a] < before.len());
        }
    }
    assert forall|i: usize| i < before.len() + 1 && after[i as int].forward@.len()
        > level implies #[trigger] grown.contains(i) by {
        if i == before.len() {
            assert(grown[split] == fresh);
        } else {
            assert(after[i as int].key == before[i as int].key);
            assert(chain.contains(i));
            let at = chain.index_of(i);
            if at < split {
                assert(grown[at] == chain[at]);
            } else {
                assert(grown[at + 1] == chain[at]);
            }
        }
    }
}

/// In a chain that a new node was put into, behind the smaller keys and in
/// front of the others, the later of two nodes with one key stands first.
pub(super) proof fn lemma_ranked_spliced<T>(
    before: Seq<Node<T>>,
    after: Seq<Node<T>>,
    chain: Seq<usize>,
    level: int,
    key: usize,
    split: int,
)
    requires
        chain_members(before, chain, level, before.len() as int),
        chain_ranked(before, chain),
        after.len() == before.len() + 1,
        before.len() < usize::MAX,
        same_entries(before, after, before.len() as int),
        after[before.len() as int].key == key,
        0 <= split <= chain.len(),
        forall|j: int| 0 <= j < split ==> before[#[trigger] chain[j] as int].key < key,
    ensures
        chain_ranked(after, chain.insert(split, before.len() as usize)),
{
    let fresh = before.len() as usize;
    let grown = chain.insert(split, fresh);
    assert forall|a: int, b: int|
        0 <= a < b < grown.len() && after[grown[a] as int].key
            == after[grown[b] as int].key implies grown[a] > grown[b] by {
        let from_a = if a < split {
            a
        } else {
            a - 1
        };
        let from_b = if b < split {
            b
        } else {
            b - 1
        };
        if a != split {
            assert(grown[a] == chain[from_a]);
            assert(after[chain[from_a] as int].key == before[chain[from_a] as int].key);
        }
        if b != split {
            assert(grown[b] == chain[from_b]);
            assert(after[chain[from_b] as int].key == before[chain[from_b] as int].key);
        }
    }
}

/// A chain that a new node was linked into is linked from its head to its end.
pub(super) proof fn lemma_links_spliced<T>(
    before: Seq<Node<T>>,
    after: Seq<Node<T>>,
    chain: Seq<usize>,
    head: Option<usize>,
    new_head: Option<usize>,
    level: int,
    split: int,
)
    requires
        chain_members(before, chain, level, before.len() as int),
        chain_distinct(chain),
        chain_linked(before, chain, head, level),
        after.len() == before.len() + 1,
        before.len() < usize::MAX,
        0 <= split <= chain.len(),
        after[before.len() as int].forward@[level] == link_after(chain, split - 1),
        split > 0 ==> new_head == head && after[chain[split - 1] as int].forward@[level] == Some(
            before.len() as usize,
        ),
        split == 0 ==> new_head == Some(before.len() as usize),
        forall|i: int|
            0 <= i < before.len() && before[i].forward@.len() > level && (split == 0 || i
                != chain[split - 1]) ==> (#[trigger] after[i]).forward@[level]
                == before[i].forward@[level],
    ensures
        chain_linked(after, chain.insert(split, before.len() as usize), new_head, level),
{
    let fresh = before.len() as usize;
    let grown = chain.insert(split, fresh);
    assert forall|j: int| 0 <= j < grown.len() implies after[#[trigger] grown[j] as int].forward@[level
    ] == link_after(grown, j) by {
        if j < split {
            assert(grown[j] == chain[j]);
            let i = chain[j] as int;
            if j == split - 1 {
                assert(grown[j + 1] == fresh);
            } else {
                assert(grown[j + 1] == chain[j + 1]);
                assert(chain[j] != chain[split - 1]);
                assert(after[i].forward@[level] == before[i].forward@[level]);
            }
        } else if j == split {
            assert(grown[j] == fresh);
            if split < chain.len() {
                assert(grown[j + 1] == chain[split]);
            }
        } else {
            assert(grown[j] == chain[j - 1]);
            let i = chain[j - 1] as int;
            if split > 0 {
                assert(chain[j - 1] != chain[split - 1]);
            }
            assert(after[i].forward@[level] == before[i].forward@[level]);
            if j + 1 < grown.len() {
                assert(grown[j + 1] == chain[j]);
            }
        }
    }
    if split == 0 {
        assert(grown[0] == fresh);
    } else {
        assert(grown[0] == chain[0]);
    }
}

/// Linking a new node into a chain, behind the smaller keys and in front of
/// the others, gives the chain of the level with that node.
pub(super) proof fn lemma_chain_spliced<T>(
    before: Seq<Node<T>>,
    after: Seq<Node<T>>,
    chain: Seq<usize>,
    head: Option<usize>,
    new_head: Option<usize>,
    level: int,
    key: usize,
    split: int,
)
    requires
        chain_ok(before, chain, head, level, before.len() as int),
        after.len() == before.len() + 1,
        before.len() < usize::MAX,
        same_entries(before, after, before.len() as int),
        after[before.len() as int].key == key,
        after[before.len() as int].forward@.len() > level,
        split == rank(entries_along(before, chain), key),
        after[before.len() as int].forward@[level] == link_after(chain, split - 1),
        split > 0 ==> new_head == head && after[chain[split - 1] as int].forward@[level] == Some(
            before.len() as usize,
        ),
        split == 0 ==> new_head == Some(before.len() as usize),
        forall|i: int|
            0 <= i < before.len() && before[i].forward@.len() > level && (split == 0 || i
                != chain[split - 1]) ==> (#[trigger] after[i]).forward@[level]
                == before[i].forward@[level],
    ensures
        chain_ok(
            after,
            chain.insert(split, before.len() as usize),
            new_head,
            level,
            (before.len() + 1) as int,
        ),
        entries_along(after, chain.insert(split, before.len() as usize)) == inserted(
            entries_along(before, chain),
            key,
            after[before.len() as int].value,
        ),
{
    let along = entries_along(before, chain);
    lemma_rank_splits(along, key);
    assert forall|j: int| 0 <= j < split implies before[#[trigger] chain[j] as int].key < key by {
        assert(along[j].0 < key);
    }
    lemma_ranked_spliced(before, after, chain, level, key, split);
    lemma_entries_spliced(before, after, chain, level, split);
    lemma_members_spliced(before, after, chain, level, split);
    lemma_links_spliced(before, after, chain, head, new_head, level, split);
    lemma_inserted_ascending(along, key, after[before.len() as int].value);
}

/// Redirects the reference of one node on one level.
pub(super) fn set_link<T>(nodes: &mut Vec<Node<T>>, node: usize, level: usize, target: Link)
    requires
        node < old(nodes)@.len(),
        level < old(nodes)@[node as int].forward@.len(),
    ensures
        final(nodes)@.len() == old(nodes)@.len(),
        forall|i: int|
            0 <= i < old(nodes)@.len() && i != node ==> final(nodes)@[i] == old(nodes)@[i],
        final(nodes)@[node as int].key == old(nodes)@[node as int].key,
        final(nodes)@[node as int].value == old(nodes)@[node as int].value,
        final(nodes)@[node as int].forward@ == old(nodes)@[node as int].forward@.update(
            level as int,
            target,
        ),
{
    nodes[node].forward[level] = target;
}

} // verus!
