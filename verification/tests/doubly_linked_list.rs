use data_structures::doubly_linked_list::{DoublyLinkedList, ListIterator, Node};

fn three() -> DoublyLinkedList<String> {
    let mut list = DoublyLinkedList::<String>::new();
    list.append(String::from("Im the first"));
    list.append(String::from("Im the second!"));
    list.append(String::from("Im the third"));
    list
}

#[test]
fn create_an_empty_doubly_linked_list() {
    let list = DoublyLinkedList::<String>::new();

    assert!(list.head().is_none());
    assert!(list.tail().is_none());
    assert_eq!(list.len(), 0);
}

#[test]
fn appends_a_value_to_the_doubly_linked_list() {
    let mut list = DoublyLinkedList::<String>::new();
    let initial_length = list.len();

    list.append(String::from("MyValue"));

    assert_eq!(String::from("MyValue"), *list.head().unwrap().peek_value());
    assert_eq!(String::from("MyValue"), *list.tail().unwrap().peek_value());
    assert_eq!(initial_length, 0);
    assert_eq!(list.len(), 1);
}

#[test]
fn pops_a_node_from_the_doubly_linked_list() {
    let mut list = DoublyLinkedList::<String>::new();

    list.append(String::from("MyValue"));
    list.append(String::from("MySecondValue"));
    list.append(String::from("MyLastValue"));

    let first_element = list.pop().unwrap();
    assert_eq!(list.len(), 2);

    let second_element = list.pop().unwrap();
    assert_eq!(list.len(), 1);

    let third_element = list.pop().unwrap();
    assert_eq!(list.len(), 0);

    assert_eq!(first_element, String::from("MyValue"));
    assert_eq!(second_element, String::from("MySecondValue"));
    assert_eq!(third_element, String::from("MyLastValue"));
    assert_eq!(list.len(), 0);
    assert_eq!(list.pop(), None);
}

#[test]
fn iterates_on_each_node() {
    let list = three();

    let mut list_iterator = ListIterator::new(&list);
    let mut items: Vec<String> = Vec::new();
    while let Some(item) = list_iterator.next() {
        items.push(item);
    }

    assert_eq!(
        items,
        vec![
            String::from("Im the first"),
            String::from("Im the second!"),
            String::from("Im the third")
        ]
    );
    assert_eq!(list_iterator.next(), None);
    assert_eq!(list_iterator.next_back(), None);
}

#[test]
fn iterates_backwards() {
    let list = three();

    let mut list_iterator = ListIterator::from_tail(&list);
    let mut items: Vec<String> = Vec::new();
    while let Some(item) = list_iterator.next_back() {
        items.push(item);
    }

    assert_eq!(
        items,
        vec![
            String::from("Im the third"),
            String::from("Im the second!"),
            String::from("Im the first")
        ]
    );
}

#[test]
fn cursor_turns_around() {
    let list = three();
    let mut cursor = ListIterator::new(&list);
    assert_eq!(cursor.next(), Some(String::from("Im the first")));
    assert_eq!(cursor.next(), Some(String::from("Im the second!")));
    assert_eq!(cursor.next_back(), Some(String::from("Im the third")));
    assert_eq!(cursor.next_back(), Some(String::from("Im the second!")));
    assert_eq!(cursor.next_back(), Some(String::from("Im the first")));
    assert_eq!(cursor.next_back(), None);
    assert_eq!(cursor.next(), None);
}

#[test]
fn cursor_on_an_empty_list() {
    let list = DoublyLinkedList::<u8>::new();
    assert_eq!(ListIterator::new(&list).next(), None);
    assert_eq!(ListIterator::from_tail(&list).next_back(), None);
}

#[test]
fn backward_links_survive_pops_and_reuse() {
    let mut list = DoublyLinkedList::<u32>::new();
    for value in 0..6u32 {
        list.append(value);
    }
    assert_eq!(list.pop(), Some(0));
    assert_eq!(list.pop(), Some(1));
    list.append(6);
    list.append(7);
    list.append(8);
    assert_eq!(list.len(), 7);
    let mut cursor = ListIterator::from_tail(&list);
    let mut seen: Vec<u32> = Vec::new();
    while let Some(value) = cursor.next_back() {
        seen.push(value);
    }
    assert_eq!(seen, vec![8, 7, 6, 5, 4, 3, 2]);
    let mut cursor = ListIterator::new(&list);
    let mut seen: Vec<u32> = Vec::new();
    while let Some(value) = cursor.next() {
        seen.push(value);
    }
    assert_eq!(seen, vec![2, 3, 4, 5, 6, 7, 8]);
    assert_eq!(*list.head().unwrap().peek_value(), 2);
    assert_eq!(*list.tail().unwrap().peek_value(), 8);
}

#[test]
fn doubly_node_holds_its_value() {
    let node = Node::new(5u8);
    assert_eq!(*node.peek_value(), 5);
}
