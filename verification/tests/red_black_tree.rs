use data_structures::red_black_tree::{Color, Node, Rotation};

#[test]
fn red_black_nodes_compare_by_value() {
    assert!(Node::new(3u32) == Node::new(3u32));
    assert!(Node::new(3u32) != Node::new(4u32));
}

#[test]
fn colors_and_rotations_are_distinct() {
    assert_ne!(Color::Black, Color::Red);
    assert_ne!(Rotation::Left, Rotation::Right);
}
