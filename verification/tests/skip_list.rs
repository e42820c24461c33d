use data_structures::level_source::{ConfigError, Probability};
use data_structures::skip_list::{Node, SkipList};

fn list(max_level: usize) -> SkipList<u64> {
    SkipList::new(max_level, Probability::half()).unwrap()
}

fn is_subsequence(inner: &[usize], outer: &[usize]) -> bool {
    let mut rest = outer.iter();
    inner.iter().all(|wanted| rest.any(|met| met == wanted))
}

fn scrambled(count: usize, modulus: usize, seed: u64) -> Vec<usize> {
    let mut state = seed;
    let mut keys = Vec::new();
    for _ in 0..count {
        state = state.wrapping_mul(2862933555777941757).wrapping_add(3037000493);
        keys.push(((state >> 35) as usize) % modulus);
    }
    keys
}

#[test]
fn finds_after_interleaved_insertions() {
    let mut list = list(4);
    for key in [10usize, 20, 5, 15] {
        list.insert(key, key as u64);
    }
    assert_eq!(list.find(5), Some(&5));
    assert_eq!(list.find(20), Some(&20));
    assert_eq!(list.find(99), None);
    assert_eq!(list.walk_level(0), vec![5, 10, 15, 20]);
    assert_eq!(list.len(), 4);
}

#[test]
fn empty_list_finds_nothing() {
    let list = list(3);
    assert_eq!(list.len(), 0);
    assert!(list.is_empty());
    assert_eq!(list.max_level(), 3);
    for key in [0usize, 1, 7, usize::MAX] {
        assert_eq!(list.find(key), None);
    }
    for level in 0..=4 {
        assert_eq!(list.walk_level(level), Vec::<usize>::new());
    }
}

#[test]
fn rejects_invalid_configuration() {
    let zero = Probability { numerator: 0, denominator: 2 };
    let one = Probability { numerator: 2, denominator: 2 };
    let above = Probability { numerator: 3, denominator: 2 };
    let undefined = Probability { numerator: 1, denominator: 0 };
    for p in [zero, one, above, undefined] {
        assert_eq!(SkipList::<u64>::new(4, p).err(), Some(ConfigError::ProbabilityOutOfRange));
        assert_eq!(
            SkipList::<u64>::with_seed(4, p, 1).err(),
            Some(ConfigError::ProbabilityOutOfRange)
        );
    }
    assert_eq!(
        SkipList::<u64>::new(usize::MAX, Probability::half()).err(),
        Some(ConfigError::MaxLevelTooLarge)
    );
    assert_eq!(
        SkipList::<u64>::new(usize::MAX, zero).err(),
        Some(ConfigError::MaxLevelTooLarge)
    );
    assert!(SkipList::<u64>::new(0, Probability::half()).is_ok());
}

#[test]
fn every_inserted_key_is_found_and_counted() {
    let mut list = list(8);
    let keys = scrambled(3000, 1_000_000, 5);
    for (count, key) in keys.iter().enumerate() {
        list.insert(*key, *key as u64 + 1);
        assert_eq!(list.len(), count + 1);
    }
    assert_eq!(list.walk_level(0).len(), keys.len());
    for key in &keys {
        assert_eq!(list.find(*key), Some(&(*key as u64 + 1)));
    }
}

#[test]
fn keys_never_inserted_are_not_found() {
    let mut list = list(6);
    let keys = scrambled(500, 1000, 9);
    for key in &keys {
        list.insert(2 * *key, 0);
    }
    for odd in (1..2000usize).step_by(2) {
        assert_eq!(list.find(odd), None);
    }
    for key in 0..1000usize {
        assert_eq!(list.find(2 * key).is_some(), keys.contains(&key));
    }
    assert_eq!(list.find(usize::MAX), None);
}

#[test]
fn bottom_level_is_in_ascending_order() {
    let mut list = list(5);
    let keys = scrambled(2000, 300, 77);
    for key in &keys {
        list.insert(*key, 0);
    }
    let mut sorted = keys.clone();
    sorted.sort();
    assert_eq!(list.walk_level(0), sorted);
}

#[test]
fn every_level_is_part_of_the_level_below() {
    let mut list = list(7);
    for key in scrambled(2000, 500, 3) {
        list.insert(key, 0);
    }
    let mut below = list.walk_level(0);
    for level in 1..=7usize {
        let here = list.walk_level(level);
        assert!(is_subsequence(&here, &below));
        assert!(here.len() <= below.len());
        assert!(here.windows(2).all(|pair| pair[0] <= pair[1]));
        below = here;
    }
    assert_eq!(list.walk_level(8), Vec::<usize>::new());
}

#[test]
fn first_node_spans_every_level() {
    for max_level in [0usize, 1, 4, 9] {
        let mut list = list(max_level);
        list.insert(17, 1);
        for level in 0..=max_level {
            assert_eq!(list.walk_level(level), vec![17]);
        }
        assert_eq!(list.walk_level(max_level + 1), Vec::<usize>::new());
    }
}

#[test]
fn towers_follow_the_seed() {
    // The default seed draws the levels 0, 0, 0, 0, 2, 0, 0, 0, 0, 2, 3, 0
    // for the nodes after the first.
    let mut list = list(4);
    for key in 0..13usize {
        list.insert(key, 0);
    }
    assert_eq!(list.walk_level(0), (0..13usize).collect::<Vec<usize>>());
    assert_eq!(list.walk_level(1), vec![0, 5, 10, 11]);
    assert_eq!(list.walk_level(2), vec![0, 5, 10, 11]);
    assert_eq!(list.walk_level(3), vec![0, 11]);
    assert_eq!(list.walk_level(4), vec![0]);

    let mut seeded = SkipList::<u64>::with_seed(4, Probability::half(), 0).unwrap();
    for key in (0..6usize).rev() {
        seeded.insert(key, 0);
    }
    // Seed 0 draws 1, 1, 4, 0, 0 for the keys 4, 3, 2, 1, 0.
    assert_eq!(seeded.walk_level(0), vec![0, 1, 2, 3, 4, 5]);
    assert_eq!(seeded.walk_level(1), vec![2, 3, 4, 5]);
    assert_eq!(seeded.walk_level(2), vec![2, 5]);
    assert_eq!(seeded.walk_level(4), vec![2, 5]);
}

#[test]
fn scripted_towers_shape_the_levels() {
    let mut list = list(3);
    for (key, level) in [(40usize, 3usize), (10, 0), (30, 2), (20, 1), (50, 0), (25, 3), (5, 1)] {
        list.insert_with_level(key, key as u64, level);
    }
    assert_eq!(list.walk_level(0), vec![5, 10, 20, 25, 30, 40, 50]);
    assert_eq!(list.walk_level(1), vec![5, 20, 25, 30, 40]);
    assert_eq!(list.walk_level(2), vec![25, 30, 40]);
    assert_eq!(list.walk_level(3), vec![25, 40]);
    for key in [5usize, 10, 20, 25, 30, 40, 50] {
        assert_eq!(list.find(key), Some(&(key as u64)));
    }
    for key in [0usize, 7, 26, 45, 51] {
        assert_eq!(list.find(key), None);
    }
}

#[test]
fn search_works_without_an_entry_at_the_top() {
    let mut list = list(5);
    for key in [3usize, 1, 2] {
        list.insert_with_level(key, 10 * key as u64, 0);
    }
    assert_eq!(list.walk_level(0), vec![1, 2, 3]);
    assert_eq!(list.walk_level(1), Vec::<usize>::new());
    assert_eq!(list.find(2), Some(&20));
    assert_eq!(list.find(4), None);
}

#[test]
fn latest_of_equal_keys_comes_first() {
    let mut list = list(3);
    list.insert_with_level(7, 1, 3);
    list.insert_with_level(7, 2, 0);
    list.insert_with_level(7, 3, 2);
    list.insert_with_level(6, 0, 1);
    list.insert_with_level(8, 0, 1);
    list.insert_with_level(7, 4, 1);
    assert_eq!(list.find(7), Some(&4));
    assert_eq!(list.walk_level(0), vec![6, 7, 7, 7, 7, 8]);
    assert_eq!(list.walk_level(1), vec![6, 7, 7, 7, 8]);
    assert_eq!(list.walk_level(2), vec![7, 7]);
    assert_eq!(list.walk_level(3), vec![7]);
    assert_eq!(list.len(), 6);

    let mut drawn = SkipList::<&str>::new(4, Probability::half()).unwrap();
    drawn.insert(1, "first");
    drawn.insert(1, "second");
    drawn.insert(1, "third");
    assert_eq!(drawn.find(1), Some(&"third"));
    assert_eq!(drawn.len(), 3);
}

#[test]
fn list_without_upper_levels_is_a_sorted_list() {
    let mut list = list(0);
    for key in [9usize, 3, 6, 1, 6] {
        list.insert(key, key as u64);
    }
    assert_eq!(list.walk_level(0), vec![1, 3, 6, 6, 9]);
    assert_eq!(list.walk_level(1), Vec::<usize>::new());
    assert_eq!(list.find(6), Some(&6));
    assert_eq!(list.find(7), None);
}

#[test]
fn extreme_keys_are_ordinary_keys() {
    let mut list = list(2);
    list.insert(usize::MAX, 1);
    list.insert(0, 2);
    list.insert(usize::MAX, 3);
    assert_eq!(list.find(0), Some(&2));
    assert_eq!(list.find(usize::MAX), Some(&3));
    assert_eq!(list.walk_level(0), vec![0, usize::MAX, usize::MAX]);
}

#[test]
fn half_of_each_level_reaches_the_next() {
    let count = 20_000usize;
    let mut list = list(16);
    for key in scrambled(count, 1 << 30, 1) {
        list.insert(key, 0);
    }
    let mut expected = 1.0f64;
    for level in 0..6usize {
        let fraction = list.walk_level(level).len() as f64 / count as f64;
        assert!((fraction - expected).abs() < 0.02, "level {level}: {fraction}");
        expected *= 0.5;
    }
}

#[test]
fn node_is_made_with_its_tower() {
    let node = Node::new(12, 3, "value");
    assert_eq!(node.key(), 12);
    assert_eq!(*node.value(), "value");
    assert_eq!(node.height(), 4);
    assert_eq!(Node::new(0, 0, 0u8).height(), 1);
}
