use data_structures::singly_linked_list::{Node, SinglyLinkedList};

#[test]
fn create_an_empty_singly_linked_list() {
    let list = SinglyLinkedList::<String>::new();

    assert!(list.head().is_none());
    assert!(list.tail().is_none());
    assert_eq!(list.len(), 0);
}

#[test]
fn appends_a_value_to_the_list() {
    let mut list = SinglyLinkedList::<String>::new();
    let initial_length = list.len();

    list.append(String::from("MyValue"));

    let head_node = list.head();
    let head_node_value = head_node.unwrap();
    let head_node_value = head_node_value.peek_value();

    assert_eq!(String::from("MyValue"), *head_node_value);
    assert_eq!(initial_length, 0);
    assert_eq!(list.len(), 1);
}

#[test]
fn retrieves_the_list_length() {
    let mut list = SinglyLinkedList::<String>::new();

    list.append(String::from("MyValue"));

    assert_eq!(list.len(), 1);
    assert_eq!(list.len(), 1);

    list.append(String::from("MySecondValue"));

    assert_eq!(list.len(), 2);
    assert_eq!(list.len(), 2);

    list.append(String::from("MyLastValue"));

    assert_eq!(list.len(), 3);
    assert_eq!(list.len(), 3);
}

#[test]
fn props_a_node_from_the_list() {
    let mut list = SinglyLinkedList::<String>::new();

    list.append(String::from("MyValue"));
    list.append(String::from("MySecondValue"));
    list.append(String::from("MyLastValue"));

    let first_element = list.pop().unwrap();
    assert_eq!(list.len(), 2);

    let second_element = list.pop().unwrap();
    assert_eq!(list.len(), 1);

    let third_element = list.pop().unwrap();
    assert_eq!(list.len(), 0);

    assert_eq!(first_element, String::from("MyValue"));
    assert_eq!(second_element, String::from("MySecondValue"));
    assert_eq!(third_element, String::from("MyLastValue"));
    assert_eq!(list.len(), 0);
}

#[test]
fn singly_list_pops_nothing_when_empty() {
    let mut list = SinglyLinkedList::<u8>::new();
    assert_eq!(list.pop(), None);
    list.append(1);
    assert_eq!(list.pop(), Some(1));
    assert_eq!(list.pop(), None);
    assert!(list.head().is_none());
    assert!(list.tail().is_none());
    assert_eq!(list.len(), 0);
}

#[test]
fn singly_list_is_first_in_first_out_under_interleaving() {
    let mut list = SinglyLinkedList::<u32>::new();
    let mut expected: std::collections::VecDeque<u32> = std::collections::VecDeque::new();
    let mut state: u64 = 99;
    for round in 0..2000u32 {
        state = state.wrapping_mul(6364136223846793005).wrapping_add(1442695040888963407);
        if (state >> 33) % 3 == 0 {
            assert_eq!(list.pop(), expected.pop_front());
        } else {
            list.append(round);
            expected.push_back(round);
        }
        assert_eq!(list.len() as usize, expected.len());
        assert_eq!(list.head().map(|node| *node.peek_value()), expected.front().copied());
        assert_eq!(list.tail().map(|node| *node.peek_value()), expected.back().copied());
    }
    while let Some(value) = expected.pop_front() {
        assert_eq!(list.pop(), Some(value));
    }
    assert_eq!(list.pop(), None);
}

#[test]
fn singly_node_holds_its_value() {
    let node = Node::new(String::from("alone"));
    assert_eq!(node.peek_value(), "alone");
}
