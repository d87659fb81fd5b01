use trie::frontier::Frontier;
use trie::suffix::Scan;
use trie::trie::Trie;

fn same(a: &Trie, b: &Trie) -> bool {
    a.node_count() == b.node_count()
        && (0..a.node_count()).all(|i| {
            a.get_value(i) == b.get_value(i)
                && a.get_node(i).parents == b.get_node(i).parents
                && a.get_node(i).children == b.get_node(i).children
        })
}

#[test]
fn frontier_keeps_one_entry_for_each_position() {
    let mut frontier = Frontier::new();
    assert_eq!(frontier.len(), 0);
    frontier.put(4, 2);
    frontier.put(7, 1);
    frontier.put(4, 5);
    assert_eq!(frontier.len(), 2);
    assert_eq!(frontier.get(4), Some(5));
    assert_eq!(frontier.get(7), Some(1));
    assert_eq!(frontier.get(9), None);
    assert_eq!((frontier.entry(0).position, frontier.entry(0).depth), (4, 5));
    assert_eq!((frontier.entry(1).position, frontier.entry(1).depth), (7, 1));
}

#[test]
fn pruning_drops_what_is_deeper_than_the_bound() {
    let mut frontier = Frontier::new();
    frontier.put(1, 3);
    frontier.put(2, 2);
    frontier.put(3, 1);
    frontier.prune(None);
    assert_eq!(frontier.len(), 3);
    frontier.prune(Some(2));
    assert_eq!(frontier.len(), 2);
    assert_eq!(frontier.entry(0).position, 2);
    assert_eq!(frontier.entry(1).position, 3);
    frontier.prune(Some(0));
    assert_eq!(frontier.len(), 0);
}

#[test]
fn scan_starts_with_the_root_in_the_frontier() {
    let scan = Scan::new(Some(3));
    assert_eq!(scan.fed, 0);
    assert_eq!(scan.max_depth, Some(3));
    assert_eq!(scan.trie.node_count(), 1);
    assert_eq!(scan.frontier.len(), 1);
    assert_eq!((scan.frontier.entry(0).position, scan.frontier.entry(0).depth), (0, 0));
}

#[test]
fn feeding_the_characters_is_building_the_trie() {
    for (text, bound) in [("abcabc", None), ("mississippi", Some(2)), ("", Some(0))] {
        let mut scan = Scan::new(bound);
        for character in text.chars() {
            scan.feed(character);
        }
        assert_eq!(scan.fed, text.chars().count());
        assert!(same(&scan.finish(), &Trie::suffix(text, bound)));
    }
}

#[test]
fn frontier_after_a_character_holds_the_longest_suffix_first_and_the_root_last() {
    let mut scan = Scan::new(None);
    scan.feed('a');
    scan.feed('b');
    scan.feed('a');
    let depths: Vec<usize> =
        (0..scan.frontier.len()).map(|i| scan.frontier.entry(i).depth).collect();
    assert_eq!(depths, vec![3, 1, 0]);
    assert_eq!(scan.frontier.entry(2).position, scan.trie.root);
    for i in 0..scan.frontier.len() {
        let entry = scan.frontier.entry(i);
        assert_eq!(scan.trie.get_value(entry.position).max_depth, entry.depth);
    }
}

#[test]
fn stopping_early_gives_the_trie_of_what_was_read() {
    let mut scan = Scan::new(None);
    for character in "abra".chars() {
        scan.feed(character);
    }
    assert!(same(&scan.finish(), &Trie::suffix("abra", None)));
}

#[test]
fn bound_zero_keeps_single_characters() {
    let trie = Trie::suffix("abca", Some(0));
    assert_eq!(trie.get_node(trie.root).children.len(), 3);
    let a = trie.find_child(trie.root, 'a').unwrap();
    assert_eq!(trie.get_value(a).count, 2);
    assert!(trie.get_node(a).children.is_empty());
}

#[test]
fn characters_beyond_one_byte_are_single_characters() {
    let trie = Trie::suffix("éé", None);
    let first = trie.find_child(trie.root, 'é').unwrap();
    assert_eq!(trie.get_value(first).count, 2);
    let second = trie.find_child(first, 'é').unwrap();
    assert_eq!(trie.get_value(second).count, 1);
}
