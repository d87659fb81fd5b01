use trie::trie::Trie;

fn walk(trie: &Trie, text: &str) -> Option<usize> {
    let mut at = trie.root;
    for character in text.chars() {
        at = trie.find_child(at, character)?;
    }
    Some(at)
}

fn count_of(trie: &Trie, text: &str) -> Option<usize> {
    walk(trie, text).map(|node| trie.get_value(node).count)
}

fn occurrences(text: &str, part: &str) -> usize {
    let text: Vec<char> = text.chars().collect();
    let part: Vec<char> = part.chars().collect();
    if part.len() > text.len() {
        return 0;
    }
    (0..=text.len() - part.len()).filter(|&i| text[i..i + part.len()] == part[..]).count()
}

fn longest_path(trie: &Trie, node: usize) -> usize {
    trie.get_node(node).children.iter().map(|&c| 1 + longest_path(trie, c)).max().unwrap_or(0)
}

#[test]
fn empty_text_gives_the_root_alone() {
    let trie = Trie::suffix("", None);
    assert_eq!(trie.node_count(), 1);
    assert!(trie.get_node(trie.root).children.is_empty());
    assert_eq!(trie.get_value(trie.root).count, 0);
    assert_eq!(trie.get_value(trie.root).data, None);
}

#[test]
fn doubled_letter() {
    let trie = Trie::suffix("aa", None);
    let root = trie.get_node(trie.root);
    assert_eq!(root.children.len(), 1);
    let first = root.children[0];
    assert_eq!(trie.get_value(first).data, Some('a'));
    assert_eq!(trie.get_value(first).count, 2);
    assert_eq!(trie.get_node(first).children.len(), 1);
    let second = trie.get_node(first).children[0];
    assert_eq!(trie.get_value(second).data, Some('a'));
    assert_eq!(trie.get_value(second).count, 1);
    assert!(trie.get_node(second).children.is_empty());
}

#[test]
fn two_letters() {
    let trie = Trie::suffix("ab", None);
    let root = trie.get_node(trie.root);
    assert_eq!(root.children.len(), 2);
    let a = trie.find_child(trie.root, 'a').unwrap();
    assert_eq!(trie.get_value(a).count, 1);
    assert_eq!(trie.get_node(a).children.len(), 1);
    let ab = trie.find_child(a, 'b').unwrap();
    assert_eq!(trie.get_value(ab).data, Some('b'));
    assert_eq!(trie.get_value(ab).count, 1);
    let b = trie.find_child(trie.root, 'b').unwrap();
    assert_eq!(trie.get_value(b).count, 1);
    assert!(trie.get_node(b).children.is_empty());
}

#[test]
fn tripled_letter_counts() {
    let trie = Trie::suffix("aaa", None);
    assert_eq!(count_of(&trie, "a"), Some(3));
    assert_eq!(count_of(&trie, "aa"), Some(2));
    assert_eq!(count_of(&trie, "aaa"), Some(1));
    assert_eq!(count_of(&trie, "aaaa"), None);
}

#[test]
fn tripled_letter_with_bound_one() {
    let trie = Trie::suffix("aaa", Some(1));
    let root = trie.get_node(trie.root);
    assert_eq!(root.children.len(), 1);
    let a = root.children[0];
    assert_eq!(trie.get_value(a).data, Some('a'));
    assert_eq!(trie.get_value(a).count, 3);
    // an entry of the frontier is dropped once its depth exceeds the
    // bound, that is after the node at that depth has been made
    assert_eq!(longest_path(&trie, trie.root), 2);
    assert_eq!(count_of(&trie, "aaa"), None);
}

#[test]
fn repeated_pattern_shares_nodes() {
    let trie = Trie::suffix("abab", None);
    let n = 4;
    assert!(trie.node_count() < n * (n + 1) / 2);
    assert_eq!(count_of(&trie, "ab"), Some(2));
    assert_eq!(count_of(&trie, "b"), Some(2));
    assert_eq!(count_of(&trie, "ba"), Some(1));
    assert_eq!(count_of(&trie, "abab"), Some(1));
    // "b" after "a" and "b" after the root are one node
    assert_eq!(walk(&trie, "ab"), walk(&trie, "b"));
}

#[test]
fn every_part_is_counted_without_a_bound() {
    for text in ["abcabcabc", "mississippi", "aababcabcd", "abracadabra", "zzzzzz"] {
        let trie = Trie::suffix(text, None);
        let chars: Vec<char> = text.chars().collect();
        for i in 0..chars.len() {
            for j in i + 1..=chars.len() {
                let part: String = chars[i..j].iter().collect();
                assert_eq!(count_of(&trie, &part), Some(occurrences(text, &part)), "{text} {part}");
            }
        }
        assert_eq!(longest_path(&trie, trie.root), chars.len());
    }
}

#[test]
fn every_prefix_has_a_path() {
    for (text, bound) in [("abcabcabc", None), ("mississippi", Some(3)), ("aababa", Some(2))] {
        let trie = Trie::suffix(text, bound);
        let chars: Vec<char> = text.chars().collect();
        for j in 1..=chars.len() {
            if bound.map_or(true, |b| j <= b + 1) {
                let prefix: String = chars[..j].iter().collect();
                assert!(count_of(&trie, &prefix).unwrap() >= 1);
            }
        }
    }
}

#[test]
fn bound_limits_every_path() {
    for (text, bound) in [("abcabcabc", 0usize), ("mississippi", 3), ("aababa", 2), ("ab", 5)] {
        let trie = Trie::suffix(text, Some(bound));
        let limit = std::cmp::min(text.chars().count(), bound + 1);
        assert!(longest_path(&trie, trie.root) <= limit);
        for node in 0..trie.node_count() {
            assert!(trie.get_value(node).max_depth <= limit);
        }
    }
}

#[test]
fn no_reachable_node_is_without_parent() {
    fn visit(trie: &Trie, node: usize) {
        for &child in trie.get_node(node).children.iter() {
            assert!(trie.get_node(child).parents.contains(&node));
            visit(trie, child);
        }
    }
    for text in ["abab", "mississippi", "aaaa"] {
        let trie = Trie::suffix(text, Some(3));
        visit(&trie, trie.root);
        for node in 1..trie.node_count() {
            if trie.get_node(node).parents.is_empty() {
                assert!(trie.get_node(node).children.is_empty());
            }
        }
    }
}

#[test]
fn a_part_behind_a_dropped_entry_is_not_followed() {
    // "ba" occurs twice, but the node of "b" is shared with "ab" and
    // "aab", and left the frontier with them
    let trie = Trie::suffix("aababa", Some(2));
    assert_eq!(occurrences("aababa", "ba"), 2);
    assert_eq!(count_of(&trie, "ba"), Some(1));
}
