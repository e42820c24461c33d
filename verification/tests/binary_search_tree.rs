use data_structures::binary_search_tree::{BinarySearchTree, Node};
use std::cell::RefCell;
use std::rc::Rc;

#[test]
fn creates_an_empty_bst() {
    let bst = BinarySearchTree::<u64>::new();

    assert!(bst.root().is_none());
    assert_eq!(bst.len(), 0);
}

#[test]
fn adds_values_to_a_bst() {
    let mut bst = BinarySearchTree::<u64>::new();

    assert!(bst.root().is_none());
    assert_eq!(bst.len(), 0);

    bst.add(5);
    bst.add(3);
    bst.add(7);
    bst.add(6);
    bst.add(8);
    bst.add(1);
    bst.add(2);
    bst.add(9);

    assert!(bst.root().is_some());
    assert_eq!(bst.len(), 8);
    assert_eq!(*bst.root().unwrap().peek(), 5);
}

#[test]
fn finds_value_in_bst() {
    let mut bst = BinarySearchTree::<u64>::new();

    bst.add(5);
    bst.add(10);
    bst.add(3);
    bst.add(4);

    let searches: [Option<u64>; 8] = [
        bst.find(11),
        bst.find(5),
        bst.find(1),
        bst.find(3),
        bst.find(10),
        bst.find(8),
        bst.find(4),
        bst.find(7),
    ];

    let results: [Option<u64>; 8] =
        [None, Some(5), None, Some(3), Some(10), None, Some(4), None];

    assert_eq!(searches, results);
}

#[test]
fn walks_in_order_the_bst() {
    let mut bst = BinarySearchTree::<u64>::new();
    let touched_items: Rc<RefCell<Vec<u64>>> = Rc::new(RefCell::new(Vec::new()));
    let expect = vec![3, 4, 5, 7, 8, 10];

    bst.add(8);
    bst.add(7);
    bst.add(5);
    bst.add(10);
    bst.add(3);
    bst.add(4);

    bst.walk(|val| {
        let mut t = touched_items.borrow_mut();

        t.push(*val);
    });

    println!("{:?}", touched_items);

    let touched_items = touched_items.borrow();
    let touched_items = touched_items.clone();

    assert_eq!(touched_items, expect);
}

fn walked(bst: &BinarySearchTree<u64>) -> Vec<u64> {
    let seen: RefCell<Vec<u64>> = RefCell::new(Vec::new());
    bst.walk(|value| seen.borrow_mut().push(*value));
    seen.into_inner()
}

#[test]
fn bst_keeps_equal_values() {
    let mut bst = BinarySearchTree::<u64>::new();
    for value in [4u64, 2, 4, 6, 2, 4] {
        bst.add(value);
    }
    assert_eq!(bst.len(), 6);
    assert_eq!(walked(&bst), vec![2, 2, 4, 4, 4, 6]);
    assert_eq!(bst.find(4), Some(4));
    assert_eq!(bst.find(5), None);
    assert_eq!(*bst.root().unwrap().peek(), 4);
}

#[test]
fn bst_walk_is_ascending_for_any_insertion_order() {
    let mut bst = BinarySearchTree::<u64>::new();
    let mut state: u64 = 12345;
    let mut added: Vec<u64> = Vec::new();
    for _ in 0..500 {
        state = state.wrapping_mul(6364136223846793005).wrapping_add(1442695040888963407);
        let value = (state >> 40) % 200;
        bst.add(value);
        added.push(value);
    }
    added.sort();
    assert_eq!(walked(&bst), added);
    assert_eq!(bst.len(), 500);
    for value in 0..200u64 {
        assert_eq!(bst.find(value).is_some(), added.contains(&value));
    }
}

#[test]
fn bst_walk_of_empty_tree_calls_nothing() {
    let bst = BinarySearchTree::<u64>::new();
    assert_eq!(walked(&bst), Vec::<u64>::new());
    assert_eq!(bst.find(0), None);
}

#[test]
fn bst_node_holds_its_value() {
    let node = Node::<u64>::new(7);
    assert_eq!(*node.peek(), 7);
    let boxed = Node::<u64>::boxed(9);
    assert_eq!(*boxed.peek(), 9);
}
