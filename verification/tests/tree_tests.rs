use loco_chess::tree::{Node, Tree};

#[test]
fn test_adding_children_and_going_back() {
    let mut tree = Tree::<u8>::new(0);
    for i in 1..5 {
        let child_val = i + *tree.data();
        tree.add_child(i + child_val);
        println!("data of current: {}", tree.data());
        println!("parent of current: {:?}", tree.has_parent());
        tree.goto_child(0);
    }
    for _ in 1..5 {
        println!("data of current: {}", tree.data());
        tree.goto_parent();
    }
    assert!(!tree.has_parent());
    assert_eq!(*tree.data(), 0);
}

#[test]
fn test_adding_children_and_going_back_2() {
    let mut tree = Tree::<u8>::new(0);
    for i in 1..5 {
        let child_val = i + *tree.data();
        tree.add_child(i + child_val);
        println!("data of current: {}", tree.data());
        println!("parent of current: {:?}", tree.has_parent());
        tree.goto_last_child();
    }
    for _ in 1..5 {
        println!("data of current: {}", tree.data());
        tree.goto_parent();
    }
    assert!(!tree.has_parent());
    assert_eq!(*tree.data(), 0);
}

#[test]
fn test_children_keep_their_order() {
    let mut tree = Tree::<u8>::new(10);
    assert!(tree.has_no_child());
    assert!(!tree.has_children());
    tree.add_child(11);
    tree.add_child(12);
    tree.add_child(13);
    assert_eq!(tree.child_count(), 3);
    assert!(tree.has_children());
    tree.goto_child(1);
    assert_eq!(*tree.data(), 12);
    assert!(tree.has_parent());
    assert!(tree.has_no_child());
    tree.goto_parent();
    tree.goto_last_child();
    assert_eq!(*tree.data(), 13);
    tree.goto_parent();
    tree.goto_child(0);
    assert_eq!(*tree.data(), 11);
}

#[test]
fn test_data_is_changed_in_place() {
    let mut tree = Tree::<u8>::new(1);
    tree.add_child(2);
    tree.goto_child(0);
    *tree.data_mut() = 7;
    assert_eq!(*tree.data(), 7);
    tree.goto_parent();
    assert_eq!(*tree.data(), 1);
    tree.goto_child(0);
    assert_eq!(*tree.data(), 7);
}

#[test]
fn test_nodes_hold_data_children_and_parent() {
    let mut node = Node::new(1u8);
    assert_eq!(node.data, 1);
    assert!(format!("{:?}", node).contains("children: []"));
    assert!(format!("{:?}", node).contains("parent: None"));
    node.add_child(3);
    node.add_child(5);
    assert!(format!("{:?}", node).contains("children: [3, 5]"));
    node.data = 9;
    assert_eq!(node.data, 9);
    let child = Node::new_with_parent(2u8, Some(0));
    assert_eq!(child.data, 2);
    assert!(format!("{:?}", child).contains("parent: Some(0)"));
}

#[test]
fn test_deep_tree_is_walked_down_and_up() {
    let mut tree = Tree::<u32>::new(0);
    for depth in 1..200u32 {
        tree.add_child(depth);
        tree.add_child(depth + 1000);
        tree.goto_child(0);
        assert_eq!(*tree.data(), depth);
    }
    let mut steps = 0;
    while tree.has_parent() {
        tree.goto_parent();
        assert_eq!(tree.child_count(), 2);
        steps += 1;
    }
    assert_eq!(steps, 199);
    assert_eq!(*tree.data(), 0);
    tree.goto_last_child();
    assert_eq!(*tree.data(), 1001);
    assert!(tree.has_no_child());
}
