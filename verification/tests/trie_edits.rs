use trie::query::QueryView;
use trie::tree::EditNodeError;
use trie::trie::{Trie, TrieNode};

fn root_only() -> Trie {
    Trie::new(TrieNode { data: None, count: 0, max_depth: 0 })
}

#[test]
fn string_of_a_node_is_its_character() {
    let mut trie = root_only();
    let a = trie.append_character(0, 'a').unwrap();
    let e = trie.append_character(a, 'é').unwrap();
    assert_eq!(trie.get_string(0), "");
    assert_eq!(trie.get_string(a), "a");
    assert_eq!(trie.get_string(e), "é");
}

#[test]
fn appended_character_counts_once_and_lies_one_deeper() {
    let mut trie = root_only();
    let a = trie.append_character(0, 'a').unwrap();
    let b = trie.append_character(a, 'b').unwrap();
    assert_eq!(*trie.get_value(a), TrieNode { data: Some('a'), count: 1, max_depth: 1 });
    assert_eq!(*trie.get_value(b), TrieNode { data: Some('b'), count: 1, max_depth: 2 });
    assert_eq!(trie.get_node(a).children, vec![b]);
}

#[test]
fn append_to_an_unlinked_node_is_refused() {
    let mut trie = root_only();
    let a = trie.append_character(0, 'a').unwrap();
    trie.remove_child(0, a);
    assert_eq!(trie.append_character(a, 'b'), Err(EditNodeError::NodeDeleted(a)));
    assert_eq!(trie.node_count(), 2);
}

#[test]
fn count_and_depth_can_be_set() {
    let mut trie = root_only();
    let a = trie.append_character(0, 'a').unwrap();
    trie.increment_count(a);
    trie.increment_count(a);
    trie.set_max_depth(a, 9);
    assert_eq!(*trie.get_value(a), TrieNode { data: Some('a'), count: 3, max_depth: 9 });
    assert_eq!(*trie.get_value(0), TrieNode { data: None, count: 0, max_depth: 0 });
}

#[test]
fn find_child_goes_by_the_character() {
    let mut trie = root_only();
    let a = trie.append_character(0, 'a').unwrap();
    let b = trie.append_character(0, 'b').unwrap();
    assert_eq!(trie.find_child(0, 'a'), Some(a));
    assert_eq!(trie.find_child(0, 'b'), Some(b));
    assert_eq!(trie.find_child(0, 'c'), None);
    assert_eq!(trie.find_child(a, 'a'), None);
}

#[test]
fn replace_child_puts_the_new_child_in_and_unlinks_the_old() {
    let mut trie = root_only();
    let a = trie.append_character(0, 'a').unwrap();
    let below = trie.append_character(a, 'b').unwrap();
    let copy = trie.clone(a);
    assert_eq!(trie.replace_child_ref(0, a, copy), Ok(copy));
    assert_eq!(trie.get_node(0).children, vec![copy]);
    assert_eq!(trie.get_node(copy).parents, vec![0]);
    assert!(trie.get_node(a).parents.is_empty());
    assert!(trie.get_node(a).children.is_empty());
    assert_eq!(trie.get_node(below).parents, vec![copy]);
}

#[test]
fn replacing_a_child_by_itself_unlinks_it() {
    let mut trie = root_only();
    let a = trie.append_character(0, 'a').unwrap();
    let below = trie.append_character(a, 'b').unwrap();
    assert_eq!(trie.replace_child_ref(0, a, a), Ok(a));
    assert!(trie.get_node(0).children.is_empty());
    assert!(trie.get_node(a).parents.is_empty());
    assert!(trie.get_node(below).parents.is_empty());
}

#[test]
fn replace_under_an_unlinked_parent_is_refused() {
    let mut trie = root_only();
    let a = trie.append_character(0, 'a').unwrap();
    let b = trie.append_character(0, 'b').unwrap();
    trie.remove_child(0, a);
    assert_eq!(trie.replace_child_ref(a, b, b), Err(EditNodeError::NodeDeleted(a)));
    assert_eq!(trie.get_node(b).parents, vec![0]);
}

#[test]
fn deepest_parent_is_found_and_the_first_wins_a_tie() {
    let mut trie = root_only();
    let a = trie.append_character(0, 'a').unwrap();
    let b = trie.append_character(0, 'b').unwrap();
    let c = trie.append_character(0, 'c').unwrap();
    let below = trie.append_character(a, 'x').unwrap();
    trie.add_child_ref(b, below).unwrap();
    trie.add_child_ref(c, below).unwrap();
    assert_eq!(trie.find_maximum_depth_parent(0), None);
    assert_eq!(trie.find_maximum_depth_parent(below), Some(a));
    trie.set_max_depth(b, 5);
    trie.set_max_depth(c, 5);
    assert_eq!(trie.find_maximum_depth_parent(below), Some(b));
    trie.set_max_depth(c, 6);
    assert_eq!(trie.find_maximum_depth_parent(below), Some(c));
}

#[test]
fn longest_path_leads_from_below_the_root_to_the_node() {
    let trie = Trie::suffix("abab", None);
    let mut at = trie.root;
    let mut walked = vec![];
    for character in "abab".chars() {
        at = trie.find_child(at, character).unwrap();
        walked.push(at);
    }
    assert_eq!(trie.find_longest_path_to_node(at), walked);
    assert_eq!(trie.find_longest_path_to_node(trie.root), Vec::<usize>::new());
    // the node of "b" is also the node of "ab": the longest way to it
    // leads through the node of "a"
    let b = trie.find_child(trie.root, 'b').unwrap();
    assert_eq!(trie.find_longest_path_to_node(b), walked[..2].to_vec());
}

#[test]
fn view_reads_a_node_and_its_neighbours() {
    let trie = Trie::suffix("ab", None);
    let root = QueryView::root(&trie);
    assert_eq!(root.data(), None);
    assert_eq!(root.count(), 0);
    assert_eq!(root.max_depth(), 0);
    assert!(root.parents().is_empty());
    let children = root.children();
    assert_eq!(children.len(), 2);
    assert_eq!(children[0].data(), Some('a'));
    assert_eq!(children[1].data(), Some('b'));
    assert_eq!(children[1].count(), 1);
    assert_eq!(children[1].max_depth(), 2);
    let parents: Vec<usize> = children[1].parents().iter().map(|view| view.node).collect();
    assert_eq!(parents, vec![children[0].node, trie.root]);
    let view = QueryView::new(&trie, children[0].node);
    assert_eq!(view.children()[0].node, children[1].node);
}

#[test]
fn dump_lists_every_node() {
    let trie = Trie::suffix("aa", None);
    let records = trie.dump();
    assert_eq!(records.len(), trie.node_count());
    for (i, record) in records.iter().enumerate() {
        assert_eq!(record.node_ref, i);
        assert_eq!(record.data, trie.get_value(i).data);
        assert_eq!(record.count, trie.get_value(i).count);
        assert_eq!(record.parents, trie.get_node(i).parents);
        assert_eq!(record.children, trie.get_node(i).children);
    }
    assert_eq!(records[0].data, None);
}
