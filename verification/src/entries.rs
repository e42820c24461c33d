//! The mathematical model of an ordered list of entries.
//!
//! A skip list is viewed as the sequence of its `(key, value)` entries in the
//! order of its bottom level.  This module says where a new entry goes, what
//! a search returns, and proves what a run of insertions leaves behind.

use vstd::prelude::*;

verus! {

/// The keys never decrease from one entry to the next.
pub open spec fn keys_ascending<T>(entries: Seq<(usize, T)>) -> bool {
    forall|i: int, j: int| 0 <= i < j < entries.len() ==> entries[i].0 <= entries[j].0
}

/// The keys of the entries, in their order.
pub open spec fn keys_of<T>(entries: Seq<(usize, T)>) -> Seq<usize> {
    Seq::new(entries.len(), |i: int| entries[i].0)
}

/// The number of entries whose key is smaller than `key`.
pub open spec fn rank<T>(entries: Seq<(usize, T)>, key: usize) -> nat
    decreases entries.len(),
{
    if entries.len() == 0 {
        0
    } else {
        rank(entries.drop_last(), key) + if entries.last().0 < key {
            1nat
        } else {
            0nat
        }
    }
}

/// The entries after `(key, value)` has been added: the new entry stands
/// behind every smaller key and in front of every key that is equal or
/// larger, so among equal keys the latest comes first.
pub open spec fn inserted<T>(entries: Seq<(usize, T)>, key: usize, value: T) -> Seq<(usize, T)> {
    entries.insert(rank(entries, key) as int, (key, value))
}

/// The value of the first entry that carries `key`, if there is one.
pub open spec fn lookup<T>(entries: Seq<(usize, T)>, key: usize) -> Option<T>
    decreases entries.len(),
{
    if entries.len() == 0 {
        None
    } else if entries[0].0 == key {
        Some(entries[0].1)
    } else {
        lookup(entries.skip(1), key)
    }
}

/// The entries after every pair of `additions` has been added in turn.
pub open spec fn inserted_all<T>(entries: Seq<(usize, T)>, additions: Seq<(usize, T)>) -> Seq<
    (usize, T),
>
    decreases additions.len(),
{
    if additions.len() == 0 {
        entries
    } else {
        inserted(
            inserted_all(entries, additions.drop_last()),
            additions.last().0,
            additions.last().1,
        )
    }
}

/// The value that the last of `additions` with `key` carries, if there is one.
pub open spec fn latest<T>(additions: Seq<(usize, T)>, key: usize) -> Option<T>
    decreases additions.len(),
{
    if additions.len() == 0 {
        None
    } else if additions.last().0 == key {
        Some(additions.last().1)
    } else {
        latest(additions.drop_last(), key)
    }
}

/// A rank is a position in the sequence or its end.
pub proof fn lemma_rank_in_bounds<T>(entries: Seq<(usize, T)>, key: usize)
    ensures
        rank(entries, key) <= entries.len(),
    decreases entries.len(),
{
    if entries.len() > 0 {
        lemma_rank_in_bounds(entries.drop_last(), key);
    }
}

/// A position that parts the smaller keys from the others is the rank.
pub proof fn lemma_rank_is_the_split<T>(entries: Seq<(usize, T)>, key: usize, split: int)
    requires
        0 <= split <= entries.len(),
        forall|j: int| 0 <= j < split ==> entries[j].0 < key,
        forall|j: int| split <= j < entries.len() ==> entries[j].0 >= key,
    ensures
        rank(entries, key) == split,
    decreases entries.len(),
{
    if entries.len() > 0 {
        let front = entries.drop_last();
        if split == entries.len() {
            lemma_rank_is_the_split(front, key, split - 1);
        } else {
            lemma_rank_is_the_split(front, key, split);
        }
    }
}

/// In ascending entries the rank parts the smaller keys from the others.
pub proof fn lemma_rank_splits<T>(entries: Seq<(usize, T)>, key: usize)
    requires
        keys_ascending(entries),
    ensures
        rank(entries, key) <= entries.len(),
        forall|j: int| 0 <= j < rank(entries, key) ==> entries[j].0 < key,
        forall|j: int| rank(entries, key) <= j < entries.len() ==> entries[j].0 >= key,
    decreases entries.len(),
{
    if entries.len() > 0 {
        let front = entries.drop_last();
        let last = entries.len() - 1;
        assert forall|i: int, j: int| 0 <= i < j < front.len() implies front[i].0 <= front[j].0 by {
            assert(front[i] == entries[i] && front[j] == entries[j]);
        }
        lemma_rank_splits(front, key);
        assert forall|j: int| 0 <= j < rank(entries, key) implies entries[j].0 < key by {
            if j < last {
                assert(front[j] == entries[j]);
                if entries[last].0 >= key {
                } else if j >= rank(front, key) {
                    assert(entries[j].0 <= entries[last].0);
                    assert(front[j].0 >= key);
                }
            }
        }
        assert forall|j: int| rank(entries, key) <= j < entries.len() implies entries[j].0
            >= key by {
            if j < last {
                assert(front[j] == entries[j]);
                assert(entries[j].0 <= entries[last].0);
            }
        }
    }
}

/// Adding an entry to ascending entries leaves them ascending, one longer.
pub proof fn lemma_inserted_ascending<T>(entries: Seq<(usize, T)>, key: usize, value: T)
    requires
        keys_ascending(entries),
    ensures
        keys_ascending(inserted(entries, key, value)),
        inserted(entries, key, value).len() == entries.len() + 1,
{
    lemma_rank_splits(entries, key);
    let at = rank(entries, key) as int;
    let after = inserted(entries, key, value);
    assert forall|i: int, j: int| 0 <= i < j < after.len() implies after[i].0 <= after[j].0 by {
        if i < at && j > at {
            assert(after[i] == entries[i]);
            assert(after[j] == entries[j - 1]);
        } else if i > at {
            assert(after[i] == entries[i - 1]);
            assert(after[j] == entries[j - 1]);
        } else if j < at {
            assert(after[i] == entries[i]);
            assert(after[j] == entries[j]);
        } else if i == at {
            assert(after[j] == entries[j - 1]);
        } else {
            assert(after[i] == entries[i]);
        }
    }
}

/// A search returns the value at the first position that carries the key.
pub proof fn lemma_lookup_first_match<T>(entries: Seq<(usize, T)>, key: usize, at: int)
    requires
        0 <= at < entries.len(),
        entries[at].0 == key,
        forall|j: int| 0 <= j < at ==> entries[j].0 != key,
    ensures
        lookup(entries, key) == Some(entries[at].1),
    decreases entries.len(),
{
    if at > 0 {
        let rest = entries.skip(1);
        assert forall|j: int| 0 <= j < at - 1 implies rest[j].0 != key by {
            assert(rest[j] == entries[j + 1]);
        }
        lemma_lookup_first_match(rest, key, at - 1);
    }
}

/// A search finds nothing exactly when no entry carries the key.
pub proof fn lemma_lookup_none<T>(entries: Seq<(usize, T)>, key: usize)
    ensures
        lookup(entries, key) is None <==> forall|j: int|
            0 <= j < entries.len() ==> entries[j].0 != key,
    decreases entries.len(),
{
    if entries.len() > 0 {
        let rest = entries.skip(1);
        lemma_lookup_none(rest, key);
        if entries[0].0 != key {
            if lookup(rest, key) is None {
                assert forall|j: int| 0 <= j < entries.len() implies entries[j].0 != key by {
                    if j > 0 {
                        assert(rest[j - 1] == entries[j]);
                    }
                }
            } else {
                let j = choose|j: int| 0 <= j < rest.len() && rest[j].0 == key;
                assert(entries[j + 1].0 == key);
            }
        }
    }
}

/// The first position that carries `key`, or the length if none does.
pub open spec fn first_match<T>(entries: Seq<(usize, T)>, key: usize) -> int
    decreases entries.len(),
{
    if entries.len() == 0 {
        0
    } else if entries[0].0 == key {
        0
    } else {
        1 + first_match(entries.skip(1), key)
    }
}

/// The first match is a position that carries the key, with none before it,
/// whenever some entry carries the key.
pub proof fn lemma_first_match<T>(entries: Seq<(usize, T)>, key: usize)
    ensures
        0 <= first_match(entries, key) <= entries.len(),
        forall|j: int| 0 <= j < first_match(entries, key) ==> entries[j].0 != key,
        first_match(entries, key) < entries.len() ==> entries[first_match(entries, key)].0 == key,
    decreases entries.len(),
{
    if entries.len() > 0 && entries[0].0 != key {
        let rest = entries.skip(1);
        lemma_first_match(rest, key);
        assert forall|j: int| 0 <= j < first_match(entries, key) implies entries[j].0 != key by {
            if j > 0 {
                assert(rest[j - 1] == entries[j]);
            }
        }
        if first_match(entries, key) < entries.len() {
            assert(rest[first_match(rest, key)] == entries[first_match(entries, key)]);
        }
    }
}

/// No key is found among no entries.
pub proof fn lemma_nothing_found_when_empty<T>(key: usize)
    ensures
        lookup(Seq::<(usize, T)>::empty(), key) is None,
{
}

/// The key just added is found, with the value it was added with.
pub proof fn lemma_added_key_is_found<T>(entries: Seq<(usize, T)>, key: usize, value: T)
    requires
        keys_ascending(entries),
    ensures
        lookup(inserted(entries, key, value), key) == Some(value),
{
    lemma_rank_splits(entries, key);
    let at = rank(entries, key) as int;
    let after = inserted(entries, key, value);
    assert forall|j: int| 0 <= j < at implies after[j].0 != key by {
        assert(after[j] == entries[j]);
    }
    lemma_lookup_first_match(after, key, at);
}

/// Adding one key changes the result of no search for another key.
pub proof fn lemma_other_keys_undisturbed<T>(
    entries: Seq<(usize, T)>,
    key: usize,
    value: T,
    other: usize,
)
    requires
        keys_ascending(entries),
        other != key,
    ensures
        lookup(inserted(entries, key, value), other) == lookup(entries, other),
{
    lemma_rank_in_bounds(entries, key);
    let at = rank(entries, key) as int;
    let after = inserted(entries, key, value);
    lemma_lookup_none(entries, other);
    lemma_lookup_none(after, other);
    if lookup(entries, other) is None {
        assert forall|j: int| 0 <= j < after.len() implies after[j].0 != other by {
            if j < at {
                assert(after[j] == entries[j]);
            } else if j > at {
                assert(after[j] == entries[j - 1]);
            }
        }
    } else {
        let first = first_match(entries, other);
        lemma_first_match(entries, other);
        let moved = if first < at {
            first
        } else {
            first + 1
        };
        assert(after[moved] == entries[first]);
        assert forall|j: int| 0 <= j < moved implies after[j].0 != other by {
            if j < at {
                assert(after[j] == entries[j]);
            } else if j > at {
                assert(after[j] == entries[j - 1]);
            }
        }
        lemma_lookup_first_match(after, other, moved);
        lemma_lookup_first_match(entries, other, first);
    }
}

/// A run of insertions into ascending entries leaves ascending entries, and
/// one entry more for every insertion.
pub proof fn lemma_insertions_keep_order_and_count<T>(
    entries: Seq<(usize, T)>,
    additions: Seq<(usize, T)>,
)
    requires
        keys_ascending(entries),
    ensures
        keys_ascending(inserted_all(entries, additions)),
        inserted_all(entries, additions).len() == entries.len() + additions.len(),
    decreases additions.len(),
{
    if additions.len() > 0 {
        lemma_insertions_keep_order_and_count(entries, additions.drop_last());
        lemma_inserted_ascending(
            inserted_all(entries, additions.drop_last()),
            additions.last().0,
            additions.last().1,
        );
    }
}

/// After a run of insertions into an empty list, a search for a key returns
/// the value of the latest insertion with that key, and nothing for a key
/// that was never inserted.
pub proof fn lemma_search_after_insertions<T>(additions: Seq<(usize, T)>, key: usize)
    ensures
        lookup(inserted_all(Seq::empty(), additions), key) == latest(additions, key),
        latest(additions, key) is None <==> forall|i: int|
            0 <= i < additions.len() ==> additions[i].0 != key,
    decreases additions.len(),
{
    if additions.len() > 0 {
        let earlier = additions.drop_last();
        let before = inserted_all(Seq::<(usize, T)>::empty(), earlier);
        lemma_search_after_insertions(earlier, key);
        lemma_insertions_keep_order_and_count(Seq::<(usize, T)>::empty(), earlier);
        if additions.last().0 == key {
            lemma_added_key_is_found(before, key, additions.last().1);
        } else {
            lemma_other_keys_undisturbed(before, additions.last().0, additions.last().1, key);
            if latest(earlier, key) is None {
                assert forall|i: int| 0 <= i < additions.len() implies additions[i].0 != key by {
                    if i < earlier.len() {
                        assert(earlier[i] == additions[i]);
                    }
                }
            } else {
                let i = choose|i: int| 0 <= i < earlier.len() && earlier[i].0 == key;
                assert(additions[i].0 == key);
            }
        }
    }
}

} // verus!
