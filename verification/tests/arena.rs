use trie::tree::{BiDirectionalTree, EditNodeError};

#[test]
fn new_arena_holds_only_the_root() {
    let tree = BiDirectionalTree::new(7u32);
    assert_eq!(tree.root, 0);
    assert_eq!(tree.node_count(), 1);
    assert_eq!(*tree.get_value(0), 7);
    assert!(tree.get_node(0).parents.is_empty());
    assert!(tree.get_node(0).children.is_empty());
}

#[test]
fn created_node_has_no_links() {
    let mut tree = BiDirectionalTree::new(0u32);
    let a = tree.create_node(5);
    assert_eq!(a, 1);
    assert_eq!(tree.node_count(), 2);
    assert_eq!(*tree.get_value(a), 5);
    assert!(tree.get_node(a).parents.is_empty());
    assert!(tree.get_node(a).children.is_empty());
    assert!(tree.get_node(0).children.is_empty());
}

#[test]
fn add_child_links_both_ways() {
    let mut tree = BiDirectionalTree::new(0u32);
    let a = tree.add_child(0, 1).unwrap();
    let b = tree.add_child(0, 2).unwrap();
    assert_eq!((a, b), (1, 2));
    assert_eq!(tree.get_node(0).children, vec![a, b]);
    assert_eq!(tree.get_node(a).parents, vec![0]);
    assert_eq!(tree.get_node(b).parents, vec![0]);
}

#[test]
fn add_child_ref_is_idempotent() {
    let mut tree = BiDirectionalTree::new(0u32);
    let a = tree.add_child(0, 1).unwrap();
    assert_eq!(tree.add_child_ref(0, a), Ok(a));
    assert_eq!(tree.get_node(0).children, vec![a]);
    assert_eq!(tree.get_node(a).parents, vec![0]);
}

#[test]
fn node_can_have_two_parents() {
    let mut tree = BiDirectionalTree::new(0u32);
    let a = tree.add_child(0, 1).unwrap();
    let b = tree.add_child(0, 2).unwrap();
    let c = tree.add_child(a, 3).unwrap();
    assert_eq!(tree.add_child_ref(b, c), Ok(c));
    assert_eq!(tree.get_node(c).parents, vec![a, b]);
    tree.remove_child(a, c);
    assert_eq!(tree.get_node(c).parents, vec![b]);
    assert!(tree.get_node(a).children.is_empty());
    assert_eq!(tree.get_node(b).children, vec![c]);
}

#[test]
fn add_child_to_unlinked_parent_is_refused() {
    let mut tree = BiDirectionalTree::new(0u32);
    let a = tree.add_child(0, 1).unwrap();
    let b = tree.add_child(a, 2).unwrap();
    tree.remove_child(0, a);
    assert!(tree.get_node(a).children.is_empty());
    assert!(tree.get_node(b).parents.is_empty());
    assert_eq!(tree.add_child(a, 3), Err(EditNodeError::NodeDeleted(a)));
    assert_eq!(tree.node_count(), 3);
    assert_eq!(tree.add_child_ref(a, b), Err(EditNodeError::NodeDeleted(a)));
    assert!(tree.get_node(a).children.is_empty());
    assert!(tree.get_node(b).parents.is_empty());
}

#[test]
fn removal_cascades_through_what_only_the_child_held() {
    let mut tree = BiDirectionalTree::new(0u32);
    let a = tree.add_child(0, 1).unwrap();
    let b = tree.add_child(a, 2).unwrap();
    let c = tree.add_child(b, 3).unwrap();
    let d = tree.add_child(0, 4).unwrap();
    tree.add_child_ref(d, c).unwrap();
    tree.remove_child(0, a);
    assert!(tree.get_node(a).parents.is_empty());
    assert!(tree.get_node(a).children.is_empty());
    assert!(tree.get_node(b).parents.is_empty());
    assert!(tree.get_node(b).children.is_empty());
    assert_eq!(tree.get_node(c).parents, vec![d]);
    assert_eq!(tree.get_node(d).children, vec![c]);
    assert_eq!(tree.get_node(0).children, vec![d]);
}

#[test]
fn removal_never_unlinks_the_children_of_the_root() {
    let mut tree = BiDirectionalTree::new(0u32);
    let a = tree.add_child(0, 1).unwrap();
    let b = tree.add_child(0, 2).unwrap();
    tree.add_child_ref(a, 0).unwrap();
    tree.remove_child(a, 0);
    assert!(tree.get_node(0).parents.is_empty());
    assert_eq!(tree.get_node(0).children, vec![a, b]);
    assert_eq!(tree.get_node(a).parents, vec![0]);
}

#[test]
fn removing_an_edge_that_is_not_there_changes_nothing_of_an_attached_child() {
    let mut tree = BiDirectionalTree::new(0u32);
    let a = tree.add_child(0, 1).unwrap();
    let b = tree.add_child(0, 2).unwrap();
    let c = tree.add_child(b, 3).unwrap();
    tree.remove_child(a, b);
    assert_eq!(tree.get_node(b).parents, vec![0]);
    assert_eq!(tree.get_node(b).children, vec![c]);
}

#[test]
fn clone_shares_the_children() {
    let mut tree = BiDirectionalTree::new(0u32);
    let a = tree.add_child(0, 1).unwrap();
    let b = tree.add_child(a, 2).unwrap();
    let c = tree.add_child(a, 3).unwrap();
    let copy = tree.clone(a);
    assert_eq!(copy, 4);
    assert_eq!(*tree.get_value(copy), 1);
    assert!(tree.get_node(copy).parents.is_empty());
    assert_eq!(tree.get_node(copy).children, vec![b, c]);
    assert_eq!(tree.get_node(b).parents, vec![a, copy]);
    assert_eq!(tree.get_node(c).parents, vec![a, copy]);
    assert_eq!(tree.get_node(a).children, vec![b, c]);
    assert_eq!(tree.get_node(0).children, vec![a]);
}

#[test]
fn value_can_be_written_in_place() {
    let mut tree = BiDirectionalTree::new(1u32);
    let a = tree.add_child(0, 2).unwrap();
    *tree.get_value_mut(a) += 40;
    assert_eq!(*tree.get_value(a), 42);
    assert_eq!(*tree.get_value(0), 1);
    assert_eq!(tree.get_node(a).parents, vec![0]);
}

#[test]
fn children_are_handed_out_in_order() {
    let mut tree = BiDirectionalTree::new(0u32);
    let a = tree.add_child(0, 10).unwrap();
    tree.add_child(0, 20).unwrap();
    tree.add_child(a, 30).unwrap();
    let values: Vec<u32> = tree.get_children(0).iter().map(|node| node.value).collect();
    assert_eq!(values, vec![10, 20]);
    let node = tree.get_node(a);
    let values: Vec<u32> = tree.get_node_children(node).iter().map(|node| node.value).collect();
    assert_eq!(values, vec![30]);
    assert!(tree.get_children(2).is_empty());
}
