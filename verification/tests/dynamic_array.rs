use data_structures::dynamic_array::{DynamicArray, DynamicArrayIterator};

#[test]
fn extends_internal_buffer_size() {
    let mut list = DynamicArray::<String>::new();

    assert_eq!(list.capacity(), 0);
    assert_eq!(list.len(), 0);
    assert_eq!(list.buffer_len(), 0);

    list.grow(10);

    assert_eq!(list.capacity(), 10);
    assert_eq!(list.len(), 0);
    assert_eq!(list.buffer_len(), 10);
}

#[test]
fn adds_item_at_the_end_of_the_array() {
    let mut list = DynamicArray::<String>::new();

    list.add(String::from("foo"));
    list.add(String::from("bar"));

    assert_eq!(list.capacity(), 2);
    assert_eq!(list.len(), 2);
}

#[test]
fn gets_items_from_array() {
    let mut list = DynamicArray::<String>::new();

    list.add(String::from("foo"));
    list.add(String::from("bar"));

    assert_eq!(list.item_at(0), Some(String::from("foo")));
    assert_eq!(list.item_at(1), Some(String::from("bar")));
    assert_eq!(list.item_at(2), None);
}

#[test]
fn array_grows_by_half() {
    let mut list = DynamicArray::<u32>::new();
    let mut capacities: Vec<usize> = Vec::new();
    for value in 0..20u32 {
        list.add(value);
        capacities.push(list.capacity());
    }
    assert_eq!(
        capacities,
        vec![1, 2, 3, 4, 6, 6, 9, 9, 9, 13, 13, 13, 13, 19, 19, 19, 19, 19, 19, 28]
    );
    assert_eq!(list.len(), 20);
    assert_eq!(list.buffer_len(), 28);
    for index in 0..20usize {
        assert_eq!(list.item_at(index), Some(index as u32));
    }
    assert_eq!(list.item_at(20), None);
    assert_eq!(list.item_at(27), None);
    assert_eq!(list.item_at(usize::MAX), None);
}

#[test]
fn grow_takes_the_larger_of_half_more_and_the_request() {
    let mut list = DynamicArray::<u8>::new();
    list.grow(10);
    assert_eq!(list.capacity(), 10);
    list.grow(3);
    assert_eq!(list.capacity(), 15);
    list.grow(40);
    assert_eq!(list.capacity(), 40);
    list.grow(60);
    assert_eq!(list.capacity(), 60);
    list.grow(61);
    assert_eq!(list.capacity(), 90);
    assert_eq!(list.len(), 0);
    assert_eq!(list.item_at(0), None);
}

#[test]
fn array_cursor_walks_up() {
    let mut cursor = DynamicArrayIterator::new(vec![10, 20, 30]);
    assert_eq!(cursor.next(), Some(10));
    assert_eq!(cursor.next(), Some(20));
    assert_eq!(cursor.next(), Some(30));
    assert_eq!(cursor.next(), None);
    assert_eq!(cursor.next(), None);
    assert_eq!(cursor.next_back(), None);
}

#[test]
fn array_cursor_walks_down_and_wraps() {
    let mut cursor = DynamicArrayIterator::new(vec![10, 20, 30]);
    assert_eq!(cursor.next_back(), Some(10));
    assert_eq!(cursor.next_back(), Some(30));
    assert_eq!(cursor.next_back(), Some(20));
    assert_eq!(cursor.next_back(), Some(10));
    assert_eq!(cursor.next(), Some(30));
    assert_eq!(cursor.next(), None);
}

#[test]
fn array_cursor_on_nothing() {
    let mut cursor = DynamicArrayIterator::<u8>::new(Vec::new());
    assert_eq!(cursor.next(), None);
    assert_eq!(cursor.next_back(), None);
}
