use std::cell::Cell;
use std::rc::Rc;
use trie::display::ui_state::{clamp, clamp_i};
use trie::lazy::{DerivedLazy, Lazy, LazySupplier};
use trie::tree::{LazyTree, LazyTreeZipper, Tree};

/// Supplies `width` children, each named after its parent and its place,
/// and counts how often it was asked.
#[derive(Clone)]
struct Fan {
    name: String,
    width: usize,
    asked: Rc<Cell<usize>>,
}

impl LazySupplier<Vec<LazyTree<String, Fan>>> for Fan {
    fn supply(&self) -> Vec<LazyTree<String, Fan>> {
        self.asked.set(self.asked.get() + 1);
        (0..self.width)
            .map(|i| {
                let name = format!("{}{}", self.name, i);
                LazyTree::new(
                    name.clone(),
                    Fan { name, width: self.width, asked: self.asked.clone() },
                )
            })
            .collect()
    }
}

struct Fixed(u32);

impl LazySupplier<u32> for Fixed {
    fn supply(&self) -> u32 {
        self.0
    }
}

fn fan(width: usize) -> (LazyTree<String, Fan>, Rc<Cell<usize>>) {
    let asked = Rc::new(Cell::new(0));
    let tree = LazyTree::new(
        "r".to_string(),
        Fan { name: "r".to_string(), width, asked: asked.clone() },
    );
    (tree, asked)
}

#[test]
fn clamp_keeps_within_limits() {
    assert_eq!(clamp(5, 0, 3), 3);
    assert_eq!(clamp(2, 0, 3), 2);
    assert_eq!(clamp(0, 1, 3), 1);
    assert_eq!(clamp_i(-4, 0, 3), 0);
    assert_eq!(clamp_i(7, 0, 3), 3);
    assert_eq!(clamp_i(1, 0, -1), -1);
}

#[test]
fn lazy_value_is_made_once() {
    let mut lazy = Lazy::new(Fixed(7));
    assert!(lazy.t.is_none());
    lazy.force();
    assert_eq!(*lazy.get(), 7);
    *lazy.as_mut() = 9;
    lazy.force();
    assert_eq!(*lazy.get(), 9);
}

#[test]
fn derived_lazy_computes_from_its_input() {
    let mut lazy = DerivedLazy::new(20u32, |x: &u32| *x + 1);
    assert!(lazy.value.is_none());
    assert_eq!(*lazy.get(), 21);
    *lazy.get_mut() = 5;
    assert_eq!(*lazy.get(), 5);
}

#[test]
fn plain_tree_is_read_along_a_path() {
    let tree = Tree {
        value: 1,
        children: vec![
            Tree { value: 2, children: vec![] },
            Tree { value: 3, children: vec![Tree { value: 4, children: vec![] }] },
        ],
    };
    assert_eq!(*tree.get_node(&vec![]), 1);
    assert_eq!(*tree.get_node(&vec![1]), 3);
    assert_eq!(*tree.get_node(&vec![1, 0]), 4);
}

#[test]
fn children_are_made_on_first_access_only() {
    let (mut tree, asked) = fan(3);
    assert_eq!(asked.get(), 0);
    assert_eq!(tree.children().len(), 3);
    assert_eq!(asked.get(), 1);
    assert_eq!(tree.children().len(), 3);
    assert_eq!(asked.get(), 1);
    assert_eq!(tree.child(2).value, "r2");
    tree.child_mut(1).value = "x".to_string();
    assert_eq!(tree.child(1).value, "x");
    tree.children_mut().pop();
    assert_eq!(tree.children().len(), 2);
}

#[test]
fn lazy_tree_is_read_along_a_path() {
    let (mut tree, _) = fan(2);
    tree.children();
    tree.child_mut(1).children();
    assert_eq!(*tree.get_node(vec![]), "r");
    assert_eq!(*tree.get_node(vec![1]), "r1");
    assert_eq!(*tree.get_node(vec![1, 0]), "r10");
}

#[test]
fn zipper_goes_down_and_comes_back() {
    let (mut tree, _) = fan(3);
    tree.children();
    let zipper = LazyTreeZipper::new(tree);
    let mut down = zipper.child(1);
    assert_eq!(down.value(), "r1");
    assert_eq!(down.index, 1);
    assert_eq!(down.number_of_children(), 3);
    let names: Vec<String> = down.children().into_iter().cloned().collect();
    assert_eq!(names, vec!["r10", "r11", "r12"]);
    down.replace("changed".to_string());
    let mut up = down.parent().unwrap();
    assert_eq!(up.value(), "r");
    let names: Vec<String> = up.children().into_iter().cloned().collect();
    assert_eq!(names, vec!["r0", "changed", "r2"]);
    assert!(up.parent().is_none());
}

#[test]
fn zipper_follows_a_path_and_builds_the_tree() {
    let (mut tree, _) = fan(2);
    tree.children();
    tree.child_mut(0).children();
    let mut zipper = LazyTreeZipper::new(tree).follow_path(&vec![0, 1]);
    assert_eq!(zipper.value(), "r01");
    zipper.replace("leaf".to_string());
    let built = zipper.build();
    assert_eq!(built.value, "r");
    assert_eq!(*built.get_node(vec![0, 1]), "leaf");
    assert_eq!(*built.get_node(vec![0, 0]), "r00");
    assert_eq!(*built.get_node(vec![1]), "r1");
}

#[test]
fn plain_tree_is_copied_value_by_value() {
    let tree = Tree {
        value: "a".to_string(),
        children: vec![
            Tree { value: "b".to_string(), children: vec![] },
            Tree {
                value: "c".to_string(),
                children: vec![Tree { value: "d".to_string(), children: vec![] }],
            },
        ],
    };
    let copy = tree.clone();
    assert_eq!(copy.value, "a");
    assert_eq!(copy.children.len(), 2);
    assert_eq!(*copy.get_node(&vec![1, 0]), "d");
    assert!(copy.leads(&vec![1, 0]));
    assert!(!copy.leads(&vec![0, 0]));
    assert!(!copy.leads(&vec![2]));
}

#[test]
fn children_of_a_node_far_down_are_made_on_request() {
    let (mut tree, asked) = fan(2);
    tree.children();
    assert_eq!(tree.make_children_at(&vec![1], 0), 2);
    assert_eq!(asked.get(), 2);
    assert_eq!(tree.make_children_at(&vec![1], 0), 2);
    assert_eq!(asked.get(), 2);
    assert_eq!(tree.make_children_at(&vec![0, 1], 1), 2);
    assert_eq!(*tree.get_node(vec![1, 1]), "r11");
}
