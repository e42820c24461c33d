//! A skip list: a tower of linked levels over one table of nodes.
//!
//! Every node lives in a table owned by the list and is named by its index
//! there; a forward reference is such an index, or nothing.  Level 0 links
//! every node in ascending key order.  A node of height `h` is also linked
//! into the levels `1..h`, so a search can start at the top, skip far ahead
//! there, and drop level by level towards the entry it looks for.
//!
//! Among equal keys the entry added last comes first, so a search returns
//! the value that was added last for its key.

use crate::entries::{
    inserted, keys_ascending, keys_of, lemma_lookup_first_match, lemma_lookup_none,
    lemma_rank_in_bounds, lemma_rank_is_the_split, lemma_rank_splits, lookup, rank,
};
use crate::links::{link_after, Link};
use crate::level_source::{ConfigError, LevelSource, Probability, DEFAULT_SEED};
use chain::{
    chain_ok, entries_along, lemma_chain_kept, lemma_chain_skips_low_node, lemma_chain_spliced,
    same_entries, same_links, set_link,
};
use vstd::prelude::*;

mod chain;

verus! {

/// One entry of a skip list, with its tower of forward references.
pub struct Node<T> {
    key: usize,
    value: T,
    forward: Vec<Link>,
}

impl<T> Node<T> {
    /// The key by which the node is ordered.
    pub closed spec fn spec_key(&self) -> usize {
        self.key
    }

    /// The value stored with the key.
    pub closed spec fn spec_value(&self) -> T {
        self.value
    }

    /// The number of levels that the node takes part in.
    pub closed spec fn spec_height(&self) -> nat {
        self.forward@.len()
    }

    /// The node that follows this one on `level`, if any.
    pub closed spec fn spec_forward(&self, level: int) -> Option<usize> {
        self.forward@[level]
    }

    /// A node with levels `0..=level`, not linked to anything yet.
    pub fn new(key: usize, level: usize, value: T) -> (node: Self)
        requires
            level < usize::MAX,
        ensures
            node.spec_key() == key,
            node.spec_value() == value,
            node.spec_height() == level + 1,
            forall|l: int| 0 <= l <= level ==> node.spec_forward(l) is None,
    {
        let mut forward: Vec<Link> = Vec::new();
        let mut filled: usize = 0;
        while filled <= level
            invariant
                level < usize::MAX,
                filled <= level + 1,
                forward@.len() == filled,
                forall|l: int| 0 <= l < filled ==> forward@[l] is None,
            decreases level + 1 - filled,
        {
            forward.push(None);
            filled = filled + 1;
        }
        Node { key, value, forward }
    }

    /// The key by which the node is ordered.
    #[verifier::when_used_as_spec(spec_key)]
    pub fn key(&self) -> (key: usize)
        ensures
            key == self.spec_key(),
    {
        self.key
    }

    /// The value stored with the key.
    pub fn value(&self) -> (value: &T)
        ensures
            *value == self.spec_value(),
    {
        &self.value
    }

    /// The number of levels that the node takes part in.
    pub fn height(&self) -> (height: usize)
        ensures
            height == self.spec_height(),
    {
        self.forward.len()
    }
}

/// A skip list from `usize` keys to values of type `T`.
pub struct SkipList<T> {
    source: LevelSource,
    nodes: Vec<Node<T>>,
    heads: Vec<Link>,
    levels: Ghost<Seq<Seq<usize>>>,
}

impl<T> View for SkipList<T> {
    type V = Seq<(usize, T)>;

    /// The entries in the order of level 0.
    closed spec fn view(&self) -> Seq<(usize, T)> {
        entries_along(self.nodes@, self.levels@[0])
    }
}

impl<T> SkipList<T> {
    /// The source that the tower heights are drawn from.
    pub closed spec fn source(&self) -> LevelSource {
        self.source
    }

    /// The highest level of the list.
    pub open spec fn spec_max_level(&self) -> usize {
        self.source().max_level()
    }

    /// The nodes of a level in its order, each named by the count of
    /// insertions that went before its own.
    pub closed spec fn level_nodes(&self, level: int) -> Seq<usize> {
        if 0 <= level < self.levels@.len() {
            self.levels@[level]
        } else {
            Seq::empty()
        }
    }

    /// The entries met when a level is walked from its head.
    pub closed spec fn level_entries(&self, level: int) -> Seq<(usize, T)> {
        entries_along(self.nodes@, self.level_nodes(level))
    }

    /// The keys met when a level is walked from its head.
    pub open spec fn level_keys(&self, level: int) -> Seq<usize> {
        keys_of(self.level_entries(level))
    }

    /// The number of levels that a node takes part in.
    pub closed spec fn tower_height(&self, node: int) -> nat {
        self.nodes@[node].forward@.len()
    }

    /// The invariant of the structure: every level is a well-linked chain in
    /// ascending key order that holds exactly the nodes high enough for it,
    /// and no tower is higher than `max_level + 1`.
    pub closed spec fn wf(&self) -> bool {
        &&& self.source.wf()
        &&& self.source.max_level() < usize::MAX
        &&& self.heads@.len() == self.source.max_level() + 1
        &&& self.levels@.len() == self.source.max_level() + 1
        &&& self.levels@[0].len() == self.nodes@.len()
        &&& forall|i: int|
            0 <= i < self.nodes@.len() ==> 1 <= (#[trigger] self.nodes@[i]).forward@.len()
                <= self.source.max_level() + 1
        &&& forall|l: int|
            0 <= l <= self.source.max_level() ==> chain_ok(
                self.nodes@,
                #[trigger] self.levels@[l],
                self.heads@[l],
                l,
                self.nodes@.len() as int,
            )
    }

    /// An empty list with levels `0..=max_level`, whose tower heights come
    /// from the default seed.
    pub fn new(max_level: usize, probability: Probability) -> (made: Result<Self, ConfigError>)
        ensures
            max_level == usize::MAX ==> made == Err::<Self, ConfigError>(
                ConfigError::MaxLevelTooLarge,
            ),
            max_level < usize::MAX && !probability.in_open_unit_interval() ==> made == Err::<
                Self,
                ConfigError,
            >(ConfigError::ProbabilityOutOfRange),
            max_level < usize::MAX && probability.in_open_unit_interval() ==> made is Ok
                && made->Ok_0.wf() && made->Ok_0@ == Seq::<(usize, T)>::empty()
                && (forall|l: int| #[trigger] made->Ok_0.level_nodes(l).len() == 0)
                && made->Ok_0.spec_max_level() == max_level && made->Ok_0.source().probability()
                == probability && made->Ok_0.source().state() == DEFAULT_SEED,
    {
        Self::with_seed(max_level, probability, DEFAULT_SEED)
    }

    /// An empty list with levels `0..=max_level`, whose tower heights come
    /// from `seed`.
    pub fn with_seed(max_level: usize, probability: Probability, seed: u64) -> (made: Result<
        Self,
        ConfigError,
    >)
        ensures
            max_level == usize::MAX ==> made == Err::<Self, ConfigError>(
                ConfigError::MaxLevelTooLarge,
            ),
            max_level < usize::MAX && !probability.in_open_unit_interval() ==> made == Err::<
                Self,
                ConfigError,
            >(ConfigError::ProbabilityOutOfRange),
            max_level < usize::MAX && probability.in_open_unit_interval() ==> made is Ok
                && made->Ok_0.wf() && made->Ok_0@ == Seq::<(usize, T)>::empty()
                && (forall|l: int| #[trigger] made->Ok_0.level_nodes(l).len() == 0)
                && made->Ok_0.spec_max_level() == max_level && made->Ok_0.source().probability()
                == probability && made->Ok_0.source().state() == seed,
    {
        if max_level == usize::MAX {
            return Err(ConfigError::MaxLevelTooLarge);
        }
        let source = match LevelSource::new(max_level, probability, seed) {
            Ok(source) => source,
            Err(refusal) => {
                return Err(refusal);
            },
        };
        let mut heads: Vec<Link> = Vec::new();
        let mut level: usize = 0;
        while level <= max_level
            invariant
                max_level < usize::MAX,
                level <= max_level + 1,
                heads@.len() == level,
                forall|l: int| 0 <= l < level ==> heads@[l] is None,
            decreases max_level + 1 - level,
        {
            heads.push(None);
            level = level + 1;
        }
        let ghost levels = Seq::new((max_level + 1) as nat, |l: int| Seq::<usize>::empty());
        let list = SkipList { source, nodes: Vec::new(), heads, levels: Ghost(levels) };
        assert(list@ =~= Seq::<(usize, T)>::empty());
        Ok(list)
    }

    /// The number of entries.
    pub fn len(&self) -> (len: usize)
        requires
            self.wf(),
        ensures
            len == self@.len(),
    {
        self.nodes.len()
    }

    /// Tells whether the list holds no entry.
    pub fn is_empty(&self) -> (empty: bool)
        requires
            self.wf(),
        ensures
            empty == (self@.len() == 0),
    {
        self.nodes.len() == 0
    }

    /// The last node of a level whose key is smaller than `key`, if any.
    spec fn predecessor(&self, level: int, key: usize) -> Option<usize> {
        let chain = self.levels@[level];
        let split = rank(entries_along(self.nodes@, chain), key);
        if split == 0 {
            None
        } else {
            Some(chain[split - 1])
        }
    }

    /// Walks along one level, from `start` or from the head, while the next
    /// key is smaller than `key`.
    fn advance(&self, level: usize, start: Option<usize>, key: usize) -> (pred: Option<usize>)
        requires
            self.wf(),
            level <= self.source.max_level(),
            start matches Some(p) ==> p < self.nodes@.len() && self.nodes@[p as int].forward@.len()
                > level && self.nodes@[p as int].key < key,
        ensures
            pred == self.predecessor(level as int, key),
    {
        let ghost chain = self.levels@[level as int];
        let ghost along = entries_along(self.nodes@, chain);
        let ghost mut at: int = -1;
        proof {
            if let Some(p) = start {
                assert(self.nodes@[p as int].forward@.len() > level);
                assert(chain.contains(p));
                at = chain.index_of(p);
            }
        }
        let mut pred = start;
        loop
            invariant
                self.wf(),
                level <= self.source.max_level(),
                chain == self.levels@[level as int],
                along == entries_along(self.nodes@, chain),
                -1 <= at < chain.len(),
                pred == (if at < 0 {
                    None
                } else {
                    Some(chain[at])
                }),
                at >= 0 ==> along[at].0 < key,
            ensures
                pred == self.predecessor(level as int, key),
            decreases chain.len() - at,
        {
            let next = match pred {
                None => self.heads[level],
                Some(p) => self.nodes[p].forward[level],
            };
            assert(next == link_after(chain, at));
            let stop = match next {
                Some(n) => self.nodes[n].key >= key,
                None => true,
            };
            if stop {
                proof {
                    assert forall|j: int| 0 <= j < at + 1 implies along[j].0 < key by {
                        if j < at {
                            assert(along[j].0 <= along[at].0);
                        }
                    }
                    assert forall|j: int| at + 1 <= j < along.len() implies along[j].0 >= key by {
                        if j > at + 1 {
                            assert(along[at + 1].0 <= along[j].0);
                        }
                    }
                    lemma_rank_is_the_split(along, key, at + 1);
                }
                break ;
            }
            pred = next;
            proof {
                at = at + 1;
            }
        }
        pred
    }

    /// Searches for `key` and returns the value that was added last for it.
    pub fn find(&self, key: usize) -> (found: Option<&T>)
        requires
            self.wf(),
        ensures
            found == match lookup(self@, key) {
                Some(value) => Some(&value),
                None => None,
            },
    {
        let mut level = self.source.level_limit();
        let mut pred = self.advance(level, None, key);
        while level > 0
            invariant
                self.wf(),
                level <= self.source.max_level(),
                pred == self.predecessor(level as int, key),
            decreases level,
        {
            proof {
                self.lemma_predecessor(level as int, key);
            }
            level = level - 1;
            pred = self.advance(level, pred, key);
        }
        let candidate = match pred {
            None => self.heads[0],
            Some(p) => {
                proof {
                    self.lemma_predecessor(0, key);
                }
                self.nodes[p].forward[0]
            },
        };
        proof {
            self.lemma_predecessor(0, key);
            let split = rank(self@, key) as int;
            lemma_rank_splits(self@, key);
            if split < self@.len() && self@[split].0 == key {
                lemma_lookup_first_match(self@, key, split);
            } else {
                assert forall|j: int| 0 <= j < self@.len() implies self@[j].0 != key by {
                    if j > split {
                        assert(self@[split].0 <= self@[j].0);
                    }
                }
                lemma_lookup_none(self@, key);
            }
        }
        match candidate {
            Some(n) => {
                if self.nodes[n].key == key {
                    Some(&self.nodes[n].value)
                } else {
                    None
                }
            },
            None => None,
        }
    }

    /// What a predecessor is: a node of its level, in front of which all
    /// keys are smaller than `key` and behind which none is.
    proof fn lemma_predecessor(&self, level: int, key: usize)
        requires
            self.wf(),
            0 <= level <= self.source.max_level(),
        ensures
            ({
                let chain = self.levels@[level];
                let along = entries_along(self.nodes@, chain);
                let split = rank(along, key) as int;
                &&& 0 <= split <= chain.len()
                &&& forall|j: int| 0 <= j < split ==> along[j].0 < key
                &&& forall|j: int| split <= j < chain.len() ==> along[j].0 >= key
                &&& self.predecessor(level, key) == if split == 0 {
                    None
                } else {
                    Some(chain[split - 1])
                }
                &&& self.predecessor(level, key) matches Some(p) ==> p < self.nodes@.len()
                    && self.nodes@[p as int].forward@.len() > level && self.nodes@[p as int].key
                    < key && self.nodes@[p as int].forward@[level] == link_after(chain, split - 1)
                &&& self.predecessor(level, key) is None ==> self.heads@[level] == link_after(
                    chain,
                    -1,
                )
            }),
    {
        let chain = self.levels@[level];
        let along = entries_along(self.nodes@, chain);
        lemma_rank_splits(along, key);
        let split = rank(along, key) as int;
        if split > 0 {
            assert(along[split - 1].0 < key);
            let p = chain[split - 1];
            assert(p < self.nodes@.len());
        }
    }

    /// What an insertion of `(key, value)` with a tower of `level + 1` levels
    /// makes of the list `before`: the new node is linked into the levels
    /// `0..=level`, each time behind the smaller keys and in front of the
    /// others, and nothing else changes.
    pub open spec fn grown_from(&self, before: &Self, key: usize, value: T, level: int) -> bool {
        &&& self@ == inserted(before@, key, value)
        &&& self@.len() == before@.len() + 1
        &&& self.tower_height(before@.len() as int) == level + 1
        &&& forall|i: int|
            0 <= i < before@.len() ==> self.tower_height(i) == before.tower_height(i)
        &&& forall|l: int|
            0 <= l <= level ==> #[trigger] self.level_nodes(l) == before.level_nodes(l).insert(
                rank(before.level_entries(l), key) as int,
                before@.len() as usize,
            ) && self.level_entries(l) == inserted(before.level_entries(l), key, value)
        &&& forall|l: int|
            l < 0 || l > level ==> #[trigger] self.level_nodes(l) == before.level_nodes(l)
                && self.level_entries(l) == before.level_entries(l)
    }

    /// The state in the middle of an insertion: the new node is in the table.
    spec fn holds_new_node(&self, before: &Self, key: usize, value: T, level: int) -> bool {
        let fresh = before.nodes@.len() as int;
        &&& self.source == before.source
        &&& self.nodes@.len() == fresh + 1
        &&& self.heads@.len() == before.heads@.len()
        &&& self.levels@.len() == before.levels@.len()
        &&& same_entries(before.nodes@, self.nodes@, fresh)
        &&& self.nodes@[fresh].key == key
        &&& self.nodes@[fresh].value == value
        &&& self.nodes@[fresh].forward@.len() == level + 1
    }

    /// The new node has been linked into `level`.
    spec fn spliced_at(&self, before: &Self, key: usize, level: int) -> bool {
        let fresh = before.nodes@.len();
        let split = rank(entries_along(before.nodes@, before.levels@[level]), key);
        &&& self.levels@[level] == before.levels@[level].insert(split as int, fresh as usize)
        &&& chain_ok(
            self.nodes@,
            self.levels@[level],
            self.heads@[level],
            level,
            (fresh + 1) as int,
        )
        &&& entries_along(self.nodes@, self.levels@[level]) == inserted(
            entries_along(before.nodes@, before.levels@[level]),
            key,
            self.nodes@[fresh as int].value,
        )
    }

    /// Nothing has happened on `level` yet.
    spec fn pending_at(&self, before: &Self, level: int) -> bool {
        &&& self.levels@[level] == before.levels@[level]
        &&& self.heads@[level] == before.heads@[level]
        &&& same_links(before.nodes@, self.nodes@, level, before.nodes@.len() as int)
    }

    /// Collects, level by level from the top, the last node whose key is
    /// smaller than `key`.
    fn predecessors(&self, key: usize) -> (preds: Vec<Option<usize>>)
        requires
            self.wf(),
        ensures
            preds@.len() == self.source.max_level() + 1,
            forall|l: int|
                0 <= l <= self.source.max_level() ==> preds@[l] == self.predecessor(l, key),
    {
        let top = self.source.level_limit();
        let mut preds: Vec<Option<usize>> = Vec::new();
        let mut filled: usize = 0;
        while filled <= top
            invariant
                top < usize::MAX,
                filled <= top + 1,
                preds@.len() == filled,
            decreases top + 1 - filled,
        {
            preds.push(None);
            filled = filled + 1;
        }
        let mut level = top;
        let mut pred = self.advance(level, None, key);
        preds[level] = pred;
        while level > 0
            invariant
                self.wf(),
                top == self.source.max_level(),
                level <= top,
                preds@.len() == top + 1,
                pred == self.predecessor(level as int, key),
                forall|l: int| level <= l <= top ==> preds@[l] == self.predecessor(l, key),
            decreases level,
        {
            proof {
                self.lemma_predecessor(level as int, key);
            }
            level = level - 1;
            pred = self.advance(level, pred, key);
            preds[level] = pred;
        }
        preds
    }

    /// Adds `(key, value)` with a tower of `level + 1` levels.
    pub fn insert_with_level(&mut self, key: usize, value: T, level: usize)
        requires
            old(self).wf(),
            level <= old(self).spec_max_level(),
        ensures
            final(self).wf(),
            final(self).source() == old(self).source(),
            final(self).grown_from(old(self), key, value, level as int),
    {
        let ghost before = *self;
        let preds = self.predecessors(key);
        let fresh = self.nodes.len();
        self.nodes.push(Node::new(key, level, value));
        let count = self.nodes.len();
        proof {
            assert(count == fresh + 1);
            assert forall|m: int| 0 <= m <= before.source.max_level() implies #[trigger]
            self.pending_at(&before, m) by {}
        }
        let mut l: usize = 0;
        while l <= level
            invariant
                before.wf(),
                fresh == before.nodes@.len(),
                fresh < usize::MAX,
                level <= before.source.max_level(),
                l <= level + 1,
                self.holds_new_node(&before, key, value, level as int),
                preds@.len() == before.source.max_level() + 1,
                forall|m: int|
                    0 <= m <= before.source.max_level() ==> preds@[m] == before.predecessor(m, key),
                forall|m: int| 0 <= m < l ==> #[trigger] self.spliced_at(&before, key, m),
                forall|m: int|
                    l <= m <= before.source.max_level() ==> #[trigger] self.pending_at(&before, m),
            decreases level + 1 - l,
        {
            let ghost mid = *self;
            let ghost chain = before.levels@[l as int];
            let ghost split = rank(entries_along(before.nodes@, chain), key) as int;
            proof {
                before.lemma_predecessor(l as int, key);
                assert(self.pending_at(&before, l as int));
            }
            match preds[l] {
                None => {
                    let next = self.heads[l];
                    set_link(&mut self.nodes, fresh, l, next);
                    self.heads[l] = Some(fresh);
                },
                Some(p) => {
                    assert(self.nodes@[p as int].forward@.len()
                        == before.nodes@[p as int].forward@.len());
                    let next = self.nodes[p].forward[l];
                    set_link(&mut self.nodes, fresh, l, next);
                    set_link(&mut self.nodes, p, l, Some(fresh));
                },
            }
            proof {
                self.levels@ = self.levels@.update(l as int, chain.insert(split, fresh));
                assert(same_entries(before.nodes@, self.nodes@, fresh as int)) by {
                    assert forall|i: int| 0 <= i < fresh implies (#[trigger] self.nodes@[i]).key
                        == before.nodes@[i].key && self.nodes@[i].value == before.nodes@[i].value
                        && self.nodes@[i].forward@.len() == before.nodes@[i].forward@.len() by {
                        assert(mid.nodes@[i].key == before.nodes@[i].key);
                    }
                }
                assert(same_entries(mid.nodes@, self.nodes@, fresh + 1));
                lemma_chain_spliced(
                    before.nodes@,
                    self.nodes@,
                    chain,
                    before.heads@[l as int],
                    self.heads@[l as int],
                    l as int,
                    key,
                    split,
                );
                assert(self.spliced_at(&before, key, l as int));
                assert forall|m: int| 0 <= m < l implies #[trigger] self.spliced_at(
                    &before,
                    key,
                    m,
                ) by {
                    assert(mid.spliced_at(&before, key, m));
                    assert(same_links(mid.nodes@, self.nodes@, m, fresh + 1));
                    lemma_chain_kept(
                        mid.nodes@,
                        self.nodes@,
                        mid.levels@[m],
                        mid.heads@[m],
                        m,
                        fresh + 1,
                    );
                }
                assert forall|m: int| l < m <= before.source.max_level() implies #[trigger]
                self.pending_at(&before, m) by {
                    assert(mid.pending_at(&before, m));
                }
            }
            l = l + 1;
        }
        proof {
            assert forall|m: int| 0 <= m <= before.source.max_level() implies chain_ok(
                self.nodes@,
                #[trigger] self.levels@[m],
                self.heads@[m],
                m,
                self.nodes@.len() as int,
            ) by {
                if m <= level {
                    assert(self.spliced_at(&before, key, m));
                } else {
                    assert(self.pending_at(&before, m));
                    lemma_chain_kept(
                        before.nodes@,
                        self.nodes@,
                        before.levels@[m],
                        before.heads@[m],
                        m,
                        fresh as int,
                    );
                    lemma_chain_skips_low_node(
                        self.nodes@,
                        self.levels@[m],
                        self.heads@[m],
                        m,
                        fresh as int,
                    );
                }
            }
            assert(self.spliced_at(&before, key, 0));
            lemma_rank_in_bounds(before@, key);
            assert(self.wf());
            assert forall|m: int| 0 <= m <= level implies #[trigger] self.level_nodes(m)
                == before.level_nodes(m).insert(
                rank(before.level_entries(m), key) as int,
                before@.len() as usize,
            ) && self.level_entries(m) == inserted(before.level_entries(m), key, value) by {
                assert(self.spliced_at(&before, key, m));
            }
            assert forall|m: int| m < 0 || m > level implies #[trigger] self.level_nodes(m)
                == before.level_nodes(m) && self.level_entries(m) == before.level_entries(m) by {
                if 0 <= m <= before.source.max_level() {
                    assert(self.pending_at(&before, m));
                    lemma_chain_kept(
                        before.nodes@,
                        self.nodes@,
                        before.levels@[m],
                        before.heads@[m],
                        m,
                        fresh as int,
                    );
                }
            }
        }
    }

    /// The level of the tower that the next insertion builds: the highest
    /// one for the first node, so that every level has an entry point, and a
    /// drawn one for every later node.
    pub open spec fn upcoming_level(&self) -> nat {
        if self@.len() == 0 {
            self.spec_max_level() as nat
        } else {
            self.source().upcoming_level()
        }
    }

    /// Adds `(key, value)`.  The entry goes behind every smaller key and in
    /// front of every equal or larger one.
    pub fn insert(&mut self, key: usize, value: T)
        requires
            old(self).wf(),
        ensures
            final(self).wf(),
            final(self)@ == inserted(old(self)@, key, value),
            final(self)@.len() == old(self)@.len() + 1,
            final(self).grown_from(old(self), key, value, old(self).upcoming_level() as int),
            old(self)@.len() == 0 ==> final(self).tower_height(0) == old(self).spec_max_level() + 1,
            final(self).spec_max_level() == old(self).spec_max_level(),
            final(self).source().probability() == old(self).source().probability(),
            final(self).source().state() == if old(self)@.len() == 0 {
                old(self).source().state()
            } else {
                old(self).source().upcoming_state()
            },
    {
        let level = if self.nodes.len() == 0 {
            self.source.level_limit()
        } else {
            self.source.random_level()
        };
        self.insert_with_level(key, value, level);
    }

    /// Walks a level from its head and returns the keys in the order met.
    /// Above the highest level there is nothing to walk.
    pub fn walk_level(&self, level: usize) -> (keys: Vec<usize>)
        requires
            self.wf(),
        ensures
            keys@ == self.level_keys(level as int),
            level == 0 ==> keys@ == keys_of(self@),
            forall|i: int, j: int| 0 <= i < j < keys@.len() ==> keys@[i] <= keys@[j],
    {
        proof {
            self.lemma_keys_ascending(level as int);
        }
        let mut keys: Vec<usize> = Vec::new();
        if level > self.source.level_limit() {
            assert(keys@ =~= self.level_keys(level as int));
            return keys;
        }
        let ghost chain = self.levels@[level as int];
        let ghost all = self.level_keys(level as int);
        let ghost mut at: int = 0;
        let mut cursor = self.heads[level];
        loop
            invariant
                self.wf(),
                level <= self.source.max_level(),
                chain == self.levels@[level as int],
                all == self.level_keys(level as int),
                0 <= at <= chain.len(),
                cursor == link_after(chain, at - 1),
                keys@ == all.take(at),
            ensures
                keys@ == all,
            decreases chain.len() - at,
        {
            match cursor {
                None => {
                    assert(all.take(at) =~= all);
                    break ;
                },
                Some(node) => {
                    assert(node == chain[at]);
                    keys.push(self.nodes[node].key);
                    cursor = self.nodes[node].forward[level];
                    proof {
                        assert(all.take(at + 1) =~= all.take(at).push(all[at]));
                        at = at + 1;
                    }
                },
            }
        }
        keys
    }

    /// Level 0 holds every entry: walking it meets as many nodes as there
    /// were insertions, and meets the entries of the list.
    pub proof fn lemma_bottom_level_complete(&self)
        requires
            self.wf(),
        ensures
            self.level_entries(0) == self@,
            self.level_nodes(0).len() == self@.len(),
    {
    }

    /// A level holds exactly the nodes whose towers reach it, once each.
    pub proof fn lemma_level_holds_tall_nodes(&self, level: int, node: usize)
        requires
            self.wf(),
            0 <= level <= self.spec_max_level(),
        ensures
            self.level_nodes(level).contains(node) <==> node < self@.len() && self.tower_height(
                node as int,
            ) > level,
            self.level_nodes(level).no_duplicates(),
    {
        let chain = self.levels@[level];
        if chain.contains(node) {
            let at = chain.index_of(node);
            assert(chain[at] == node);
        }
    }

    /// Every node of a level above the bottom is a node of the level below.
    pub proof fn lemma_levels_nested(&self, level: int, node: usize)
        requires
            self.wf(),
            0 < level <= self.spec_max_level(),
            self.level_nodes(level).contains(node),
        ensures
            self.level_nodes(level - 1).contains(node),
    {
        self.lemma_level_holds_tall_nodes(level, node);
        self.lemma_level_holds_tall_nodes(level - 1, node);
    }

    /// The nodes of a level stand in the order in which they stand in the
    /// level below.
    pub proof fn lemma_levels_keep_order(&self, level: int, first: int, second: int)
        requires
            self.wf(),
            0 < level <= self.spec_max_level(),
            0 <= first < second < self.level_nodes(level).len(),
        ensures
            self.level_nodes(level - 1).contains(self.level_nodes(level)[first]),
            self.level_nodes(level - 1).contains(self.level_nodes(level)[second]),
            self.level_nodes(level - 1).index_of(self.level_nodes(level)[first])
                < self.level_nodes(level - 1).index_of(self.level_nodes(level)[second]),
    {
        let upper = self.levels@[level];
        let lower = self.levels@[level - 1];
        let one = upper[first];
        let other = upper[second];
        assert(upper.contains(one) && upper.contains(other));
        self.lemma_levels_nested(level, one);
        self.lemma_levels_nested(level, other);
        let below_one = lower.index_of(one);
        let below_other = lower.index_of(other);
        assert(lower[below_one] == one && lower[below_other] == other);
        let along_upper = entries_along(self.nodes@, upper);
        let along_lower = entries_along(self.nodes@, lower);
        assert(along_upper[first].0 <= along_upper[second].0);
        if below_other < below_one {
            assert(along_lower[below_other].0 <= along_lower[below_one].0);
        }
    }

    /// Walking any level, and so level 0, meets the keys in ascending order.
    pub proof fn lemma_keys_ascending(&self, level: int)
        requires
            self.wf(),
        ensures
            keys_ascending(self.level_entries(level)),
            keys_ascending(self@),
            forall|i: int, j: int|
                0 <= i < j < self.level_keys(level).len() ==> self.level_keys(level)[i]
                    <= self.level_keys(level)[j],
    {
        let along = self.level_entries(level);
        assert(keys_ascending(along)) by {
            if 0 <= level <= self.source.max_level() {
                assert(chain_ok(
                    self.nodes@,
                    self.levels@[level],
                    self.heads@[level],
                    level,
                    self.nodes@.len() as int,
                ));
            }
        }
        assert(chain_ok(self.nodes@, self.levels@[0], self.heads@[0], 0, self.nodes@.len() as int));
        let keys = self.level_keys(level);
        assert forall|i: int, j: int| 0 <= i < j < keys.len() implies keys[i] <= keys[j] by {
            assert(along[i].0 <= along[j].0);
        }
    }

    /// No tower is higher than `max_level + 1`, and none is empty.
    pub proof fn lemma_towers_bounded(&self, node: int)
        requires
            self.wf(),
            0 <= node < self@.len(),
        ensures
            1 <= self.tower_height(node) <= self.spec_max_level() + 1,
    {
    }

    #[verifier::when_used_as_spec(spec_max_level)]
    pub fn max_level(&self) -> (max_level: usize)
        ensures
            max_level == self.spec_max_level(),
    {
        self.source.level_limit()
    }
}

} // verus!
