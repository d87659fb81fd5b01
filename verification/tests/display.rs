use std::rc::Rc;

use trie::display::keys::{
    command_key, command_of_text, explorer_key, hover_down, hover_up, navigation_key,
    parse_command, Command, CommandKey, ExplorerKey, NavigationKey,
};
use trie::display::layout::{
    caption, create_dom, decimal, file_row, first_child_place, folded_box, next_child_row,
    unfolded_box,
};
use trie::display::outline::new_tree;
use trie::display::route::find_route;
use trie::display::ui_state::{FileExplorerState, MoveForwardResult, UIMode, UIState};
use trie::display::window::{
    in_range, BoundsResult, CursesBox, Dimensions, DrawerPosition, Pane, Position,
};
use trie::lazy::LazySupplier;
use trie::tree::{LazyTree, LazyTreeZipper};
use trie::trie::Trie;

struct Names(Vec<String>);

impl LazySupplier<Vec<LazyTree<String, Names>>> for Names {
    fn supply(&self) -> Vec<LazyTree<String, Names>> {
        self.0.iter().map(|name| LazyTree::new(name.clone(), Names(vec![]))).collect()
    }
}

fn files(names: &[&str]) -> LazyTree<String, Names> {
    LazyTree::new(".".to_string(), Names(names.iter().map(|name| name.to_string()).collect()))
}

fn browser(text: &str) -> UIState<Names> {
    UIState::new(Trie::suffix(text, None))
}

#[test]
fn positions_add_and_subtract() {
    let a = Position { x: 3, y: -4 };
    let b = Position { x: 10, y: 20 };
    assert_eq!(a.add(b), Position { x: 13, y: 16 });
    assert_eq!(a.sub(b), Position { x: -7, y: -24 });
}

#[test]
fn pane_says_where_a_place_lies() {
    let pane = Pane { bounding_box: CursesBox { x: 2, y: 1, width: 10, height: 5 }, scroll: Position { x: 0, y: 0 } };
    assert_eq!(pane.is_visible(&Position { x: 2, y: 1 }), BoundsResult::InBound);
    assert_eq!(pane.is_visible(&Position { x: 11, y: 5 }), BoundsResult::InBound);
    assert_eq!(pane.is_visible(&Position { x: 12, y: 5 }), BoundsResult::XOutOfBounds { x_diff: -1 });
    assert_eq!(pane.is_visible(&Position { x: 0, y: 3 }), BoundsResult::XOutOfBounds { x_diff: 2 });
    assert_eq!(pane.is_visible(&Position { x: 5, y: 0 }), BoundsResult::YOutOfBounds { y_diff: 1 });
    assert_eq!(pane.is_visible(&Position { x: 5, y: 9 }), BoundsResult::YOutOfBounds { y_diff: -4 });
    assert_eq!(
        pane.is_visible(&Position { x: 0, y: 9 }),
        BoundsResult::YXOutOfBounds { x_diff: 2, y_diff: -4 }
    );
    assert_eq!(pane.get_absolute_position(), Position { x: 2, y: 1 });
    assert_eq!(pane.absolute_to_window_relative(&Position { x: 5, y: 5 }), Position { x: 3, y: 4 });
}

#[test]
fn pane_scrolls_a_position_into_view() {
    let mut pane = Pane::new(Dimensions { width: 10, height: 5 });
    assert_eq!(*pane.get_bounding_box(), CursesBox { x: 0, y: 0, width: 10, height: 5 });
    let far = Position { x: 3, y: 12 };
    assert_eq!(pane.scroll_into_view(&far), BoundsResult::YOutOfBounds { y_diff: -8 });
    assert_eq!(*pane.get_scroll(), Position { x: 0, y: 8 });
    assert_eq!(pane.scroll_into_view(&far), BoundsResult::InBound);
    assert_eq!(pane.get_scroll_origin(), Position { x: 0, y: -8 });
    assert_eq!(pane.scroll_relative_to_absolute(&far), Position { x: 3, y: 4 });
    assert_eq!(pane.absolute_to_scroll_relative(&Position { x: 3, y: 4 }), far);
    let back = Position { x: 25, y: 2 };
    assert_eq!(
        pane.scroll_into_view(&back),
        BoundsResult::YXOutOfBounds { x_diff: -16, y_diff: 6 }
    );
    assert_eq!(*pane.get_scroll(), Position { x: 16, y: 2 });
    pane.scroll_x(-6);
    pane.scroll_y(1);
    assert_eq!(*pane.get_scroll(), Position { x: 10, y: 3 });
}

#[test]
fn pane_knows_what_it_can_be_asked() {
    let pane = Pane::new(Dimensions { width: 10, height: 5 });
    assert!(pane.placeable(&Position { x: 100, y: -100 }));
    assert!(pane.seeable(&Position { x: 100, y: -100 }));
    assert!(!pane.placeable(&Position { x: i32::MIN, y: 0 }));
    assert!(!pane.seeable(&Position { x: 0, y: i32::MIN }));
    assert!(in_range(2147483647));
    assert!(!in_range(2147483648));
    assert!(in_range(-2147483648));
    assert!(!in_range(-2147483649));
}

#[test]
fn drawer_lies_along_the_bottom() {
    let pane = Pane::new(Dimensions { width: 80, height: 24 });
    let drawer = pane.create_drawer(DrawerPosition::Bottom, 1);
    assert_eq!(drawer.bounding_box, CursesBox { x: 0, y: 23, width: 80, height: 1 });
    assert_eq!(drawer.scroll, Position { x: 0, y: 0 });
}

#[test]
fn keys_have_their_meanings() {
    assert_eq!(navigation_key('\n'), NavigationKey::Toggle);
    assert_eq!(navigation_key('l'), NavigationKey::Forward);
    assert_eq!(navigation_key('h'), NavigationKey::Back);
    assert_eq!(navigation_key('j'), NavigationKey::Down);
    assert_eq!(navigation_key('k'), NavigationKey::Up);
    assert_eq!(navigation_key('\t'), NavigationKey::LongestPath);
    assert_eq!(navigation_key(':'), NavigationKey::StartCommand);
    assert_eq!(navigation_key(';'), NavigationKey::StartCommand);
    assert_eq!(navigation_key('x'), NavigationKey::Ignore);
    assert_eq!(command_key('\n'), CommandKey::Execute);
    assert_eq!(command_key('\x1B'), CommandKey::Leave);
    assert_eq!(command_key('\x7F'), CommandKey::Delete);
    assert_eq!(command_key('\x15'), CommandKey::Clear);
    assert_eq!(command_key('\x18'), CommandKey::Clear);
    assert_eq!(command_key('l'), CommandKey::Insert('l'));
    assert_eq!(explorer_key('j'), ExplorerKey::Down);
    assert_eq!(explorer_key('k'), ExplorerKey::Up);
    assert_eq!(explorer_key('\n'), ExplorerKey::Open);
    assert_eq!(explorer_key('l'), ExplorerKey::Ignore);
}

#[test]
fn commands_are_read_without_regard_to_case_and_blanks() {
    assert_eq!(parse_command("meaning"), Command::Meaning);
    assert_eq!(parse_command("  Load \t"), Command::Load);
    assert_eq!(parse_command("q"), Command::Quit);
    assert_eq!(parse_command("LOAD"), Command::Load);
    assert_eq!(parse_command("lo ad"), Command::Other);
    assert_eq!(parse_command(""), Command::Other);
    assert_eq!(command_of_text(&"MEANING".to_string()), Command::Meaning);
    assert_eq!(command_of_text(&"meaning".to_string()), Command::Other);
    assert_eq!(command_of_text(&" Q".to_string()), Command::Other);
}

#[test]
fn hovering_stays_among_the_files() {
    assert_eq!(hover_down(0, 3), 1);
    assert_eq!(hover_down(2, 3), 2);
    assert_eq!(hover_down(7, 3), 2);
    assert_eq!(hover_down(0, 0), 0);
    assert_eq!(hover_up(2, 3), 1);
    assert_eq!(hover_up(0, 3), 0);
    assert_eq!(hover_up(9, 3), 2);
    assert_eq!(hover_up(4, 0), 0);
}

#[test]
fn boxes_of_lines() {
    assert_eq!(folded_box(4, 6), CursesBox { x: 6, y: 4, width: 3, height: 2 });
    assert_eq!(first_child_place(4, 6), Some(Position { x: 9, y: 5 }));
    assert_eq!(first_child_place(i32::MAX, 0), None);
    assert_eq!(next_child_row(&CursesBox { x: 0, y: 5, width: 3, height: 2 }), Some(7));
    assert_eq!(next_child_row(&CursesBox { x: 0, y: i32::MAX, width: 3, height: 2 }), None);
    let children = vec![folded_box(1, 3), CursesBox { x: 3, y: 3, width: 7, height: 4 }];
    assert_eq!(unfolded_box(0, 0, &children), Some(CursesBox { x: 0, y: 0, width: 11, height: 7 }));
    assert_eq!(unfolded_box(2, 1, &vec![]), Some(CursesBox { x: 1, y: 2, width: 0, height: 1 }));
    let huge = vec![CursesBox { x: 0, y: 0, width: i32::MAX, height: 1 }];
    assert_eq!(unfolded_box(0, 0, &huge), None);
    assert_eq!(file_row(3, 40), Some(CursesBox { x: 0, y: 3, width: 40, height: 1 }));
    assert_eq!(file_row(usize::MAX, 40), None);
}

#[test]
fn line_draws_a_chain_together() {
    // "abc" only ever occurs whole: one line for it below the root
    let trie = Rc::new(Trie::suffix("abcabc", None));
    let mut root = new_tree(trie.clone(), trie.root, true);
    assert_eq!(root.value.text, "<root>");
    assert!(root.value.selected);
    assert!(!root.value.expanded);
    assert_eq!(root.value.merged_refs, vec![trie.root]);
    assert_eq!(root.value.count, 0);
    let texts: Vec<String> = root.children().iter().map(|line| line.value.text.clone()).collect();
    assert_eq!(texts, vec!["abc", "bc", "c"]);
    let first = root.child(0);
    assert_eq!(first.value.count, 2);
    assert_eq!(first.value.max_depth, 1);
    assert_eq!(first.value.merged_refs.len(), 3);
    assert!(!first.value.selected);
    let a = trie.find_child(trie.root, 'a').unwrap();
    assert_eq!(first.value.merged_refs[0], a);
    assert_eq!(first.value.longest_path, vec![a]);
}

#[test]
fn children_are_shown_by_falling_count() {
    let trie = Trie::suffix("abacad", None);
    let a = trie.find_child(trie.root, 'a').unwrap();
    let sorted = trie.children_by_count(trie.root);
    assert_eq!(sorted[0], a);
    let counts: Vec<usize> = sorted.iter().map(|&node| trie.get_value(node).count).collect();
    assert_eq!(counts, vec![3, 1, 1, 1]);
    let mut listed = trie.get_node(trie.root).children.clone();
    listed.retain(|&node| node != a);
    assert_eq!(sorted[1..].to_vec(), listed);
}

#[test]
fn cursor_moves_among_the_lines() {
    let mut state = browser("abacad");
    assert!(state.selected_node.is_empty());
    assert_eq!(state.number_of_siblings_for_selected(), 1);
    assert!(!state.move_up());
    assert!(!state.move_down());
    assert!(!state.move_back());
    assert_eq!(state.move_forward(), MoveForwardResult::NotExpanded);
    assert_eq!(state.number_of_children_for_selected(), 4);
    state = state.toggle_expanded();
    assert!(state.get_selected_tree().value.expanded);
    assert_eq!(state.move_forward(), MoveForwardResult::Moved);
    assert_eq!(state.selected_node, vec![0]);
    assert_eq!(state.get_selected_parent().unwrap().value.text, "<root>");
    assert_eq!(state.number_of_siblings_for_selected(), 4);
    assert!(state.move_up());
    assert_eq!(state.selected_node, vec![0]);
    assert!(state.move_down());
    assert!(state.move_down());
    assert!(state.move_down());
    assert_eq!(state.selected_node, vec![3]);
    assert!(state.move_down());
    assert_eq!(state.selected_node, vec![3]);
    assert_eq!(state.get_selected_tree().value.text, "d");
    state = state.toggle_expanded();
    assert_eq!(state.move_forward(), MoveForwardResult::NoMoreChildren);
    assert!(state.move_up());
    assert_eq!(state.selected_node, vec![2]);
    assert!(state.move_back());
    assert!(state.selected_node.is_empty());
}

#[test]
fn lines_are_marked_and_unfolded() {
    let mut state = browser("ab");
    state.number_of_children_for_selected();
    state = state.toggle_expanded();
    state.move_forward();
    state = state.select_node();
    assert!(state.get_selected_tree().value.selected);
    assert!(state.tree.value.selected);
    state = state.deselect_node();
    assert!(!state.get_selected_tree().value.selected);
    state = state.set_selected(true);
    assert!(state.get_selected_tree().value.selected);
    state = state.toggle_expanded();
    assert!(state.get_selected_tree().value.expanded);
    state = state.toggle_expanded();
    assert!(!state.get_selected_tree().value.expanded);
    assert_eq!(state.get_selected_tree().value.text, "ab");
    assert_eq!(state.selected_node, vec![0]);
}

#[test]
fn way_along_a_path_is_opened() {
    let mut state = browser("abcabd");
    state.number_of_children_for_selected();
    state.tree.child_mut(0).children();
    let state = state.move_to_path(&vec![0, 1]);
    assert!(!state.tree.value.expanded);
    assert!(state.tree.child(0).value.expanded);
    assert!(state.tree.child(0).child(1).value.expanded);
    assert!(!state.tree.child(0).child(0).value.expanded);
    assert!(!state.tree.child(1).value.expanded);
    assert!(state.selected_node.is_empty());
}

#[test]
fn route_is_found_through_the_lines() {
    let trie = Rc::new(Trie::suffix("abcabd", None));
    let mut root = new_tree(trie.clone(), trie.root, true);
    let mut target = trie.root;
    let mut refs = vec![];
    for character in "abd".chars() {
        target = trie.find_child(target, character).unwrap();
        refs.push(target);
    }
    let mut path = vec![];
    assert!(find_route(&mut root, &refs, 0, &mut path));
    // "ab" is one line, "d" is a line below it
    assert_eq!(path.len(), 2);
    assert_eq!(*root.get_node(path.clone()).merged_refs.last().unwrap(), target);
    let mut nowhere = vec![];
    assert!(!find_route(&mut root, &vec![trie.node_count() + 5], 0, &mut nowhere));
}

#[test]
fn cursor_goes_to_the_longest_path() {
    // below the root, the line "b" stands for the node that "ab" leads to
    let mut state = browser("abab");
    state.number_of_children_for_selected();
    state = state.toggle_expanded();
    state.move_forward();
    state.move_down();
    let line = state.get_selected_tree().value.text.clone();
    let path = state.longest_path_to_selected().unwrap();
    let moved = state.move_to_longest_path();
    assert_eq!(moved.selected_node, path);
    assert_eq!(moved.get_selected_tree().value.text.chars().last(), line.chars().last());
    for depth in 1..=path.len() {
        assert!(moved.tree.get_node(path[..depth].to_vec()).expanded);
    }
}

#[test]
fn navigation_keys_move_the_cursor() {
    let state = browser("abacad").select_node();
    let (state, beep) = state.handle_trie_navigation_mode('l');
    assert!(!beep);
    assert_eq!(state.selected_node, vec![0]);
    assert!(state.tree.value.expanded);
    assert!(!state.tree.value.selected);
    let (state, _) = state.handle_trie_navigation_mode('j');
    let (state, _) = state.handle_trie_navigation_mode('j');
    assert_eq!(state.selected_node, vec![2]);
    let (state, _) = state.handle_trie_navigation_mode('k');
    assert_eq!(state.selected_node, vec![1]);
    let (state, beep) = state.handle_trie_navigation_mode('l');
    assert!(beep);
    assert_eq!(state.selected_node, vec![1]);
    let (state, _) = state.handle_trie_navigation_mode('\n');
    assert!(state.get_selected_tree().value.expanded);
    let (state, _) = state.handle_trie_navigation_mode('h');
    assert!(state.selected_node.is_empty());
    let (state, _) = state.handle_trie_navigation_mode('x');
    assert!(matches!(state.mode, UIMode::TrieNavigation));
    let (state, beep) = state.handle_trie_navigation_mode(':');
    assert!(!beep);
    assert!(matches!(state.mode, UIMode::Command));
}

#[test]
fn command_line_is_typed_and_carried_out() {
    let mut state = browser("ab");
    state.set_mode(UIMode::Command);
    for character in " mexn".chars() {
        state = state.handle_command_mode(character, files(&[]));
    }
    assert_eq!(state.command_buffer, " mexn");
    state = state.handle_command_mode('\x7F', files(&[]));
    state = state.handle_command_mode('\x7F', files(&[]));
    assert_eq!(state.command_buffer, " me");
    for character in "aning".chars() {
        state = state.handle_command_mode(character, files(&[]));
    }
    assert!(!state.display_meaningfulness);
    state = state.handle_command_mode('\n', files(&[]));
    assert!(state.display_meaningfulness);
    assert!(matches!(state.mode, UIMode::TrieNavigation));
    assert_eq!(state.command_buffer, " meaning");
    state = state.handle_command_mode('\x15', files(&[]));
    assert_eq!(state.command_buffer, "");
    state = state.handle_command_mode('\x7F', files(&[]));
    assert_eq!(state.command_buffer, "");
    state.set_mode(UIMode::Command);
    state = state.handle_command_mode('\x1B', files(&[]));
    assert!(matches!(state.mode, UIMode::TrieNavigation));
    state.command_buffer = "q".to_string();
    state = state.execute_command(files(&[]));
    assert!(matches!(state.mode, UIMode::Exit));
    state.command_buffer = "what".to_string();
    state = state.execute_command(files(&[]));
    assert!(matches!(state.mode, UIMode::TrieNavigation));
    assert!(state.display_meaningfulness);
}

#[test]
fn load_opens_the_file_explorer() {
    let mut state = browser("ab");
    state.command_buffer = "load".to_string();
    state = state.execute_command(files(&["x", "y"]));
    match state.mode {
        UIMode::FileExplorer(mut explorer) => {
            assert_eq!(explorer.hovered_file, 0);
            assert_eq!(explorer.files.value(), ".");
            assert_eq!(explorer.hovered_name(), Some("x".to_string()));
            explorer.hover_down();
            assert_eq!(explorer.hovered_name(), Some("y".to_string()));
            explorer.hover_down();
            assert_eq!(explorer.hovered_file, 1);
            explorer.hover_up();
            explorer.hover_up();
            assert_eq!(explorer.hovered_file, 0);
            explorer.hover_down();
            let inside = explorer.enter();
            assert_eq!(inside.files.value(), "y");
            assert_eq!(inside.hovered_file, 1);
            let mut inside = inside;
            assert_eq!(inside.hovered_name(), None);
            let same = inside.enter();
            assert_eq!(same.files.value(), "y");
        }
        _ => panic!("the file explorer should be open"),
    }
}

#[test]
fn file_explorer_state_can_be_made_by_hand() {
    let mut tree = files(&["a"]);
    tree.children();
    let mut explorer = FileExplorerState { files: LazyTreeZipper::new(tree), hovered_file: 5 };
    explorer.hover_up();
    assert_eq!(explorer.hovered_file, 0);
}

#[test]
fn numbers_are_written_in_decimal() {
    assert_eq!(decimal(0), "0");
    assert_eq!(decimal(7), "7");
    assert_eq!(decimal(10), "10");
    assert_eq!(decimal(4096), "4096");
    assert_eq!(decimal(usize::MAX), usize::MAX.to_string());
}

#[test]
fn caption_says_count_and_depth() {
    let mut state = browser("abab");
    assert_eq!(caption(&state.tree.value), "<root>... 0 | 0 | ");
    state.number_of_children_for_selected();
    state = state.toggle_expanded();
    assert_eq!(caption(&state.tree.value), "<root> 0 | 0 | ");
    assert_eq!(caption(&state.tree.child(0).value), "ab... 2 | 1 | ");
}

#[test]
fn lines_are_laid_out_below_each_other() {
    let mut state = browser("abacad");
    let folded = create_dom(&mut state.tree, 0, 0).unwrap();
    assert_eq!(folded.value.bounding_box, CursesBox { x: 0, y: 0, width: 3, height: 2 });
    assert!(folded.children.is_empty());
    assert!(folded.value.highlighted);
    assert_eq!(folded.value.text, "<root>... 0 | 0 | ");

    state = state.toggle_expanded();
    let dom = create_dom(&mut state.tree, 0, 0).unwrap();
    assert_eq!(dom.children.len(), 4);
    let rooms: Vec<CursesBox> = dom.children.iter().map(|child| child.value.bounding_box).collect();
    assert_eq!(
        rooms,
        vec![
            CursesBox { x: 3, y: 1, width: 3, height: 2 },
            CursesBox { x: 3, y: 3, width: 3, height: 2 },
            CursesBox { x: 3, y: 5, width: 3, height: 2 },
            CursesBox { x: 3, y: 7, width: 3, height: 2 },
        ]
    );
    assert_eq!(dom.value.bounding_box, CursesBox { x: 0, y: 0, width: 7, height: 9 });

    state.move_forward();
    state = state.toggle_expanded();
    let dom = create_dom(&mut state.tree, 2, 1).unwrap();
    let first = &dom.children[0];
    assert_eq!(first.children.len(), 3);
    assert_eq!(first.value.bounding_box, CursesBox { x: 4, y: 3, width: 7, height: 7 });
    assert_eq!(first.children[2].value.bounding_box, CursesBox { x: 7, y: 8, width: 3, height: 2 });
    assert_eq!(dom.children[1].value.bounding_box.y, 10);
    assert_eq!(dom.value.bounding_box, CursesBox { x: 1, y: 2, width: 11, height: 14 });
    assert_eq!(dom.get_node(&state.selected_node).bounding_box, first.value.bounding_box);
}

#[test]
fn layout_off_the_range_is_refused() {
    let mut state = browser("ab");
    assert!(create_dom(&mut state.tree, i32::MAX, 0).is_some());
    state = state.toggle_expanded();
    assert!(create_dom(&mut state.tree, i32::MAX, 0).is_none());
    assert!(create_dom(&mut state.tree, 0, i32::MAX - 2).is_none());
    assert!(create_dom(&mut state.tree, i32::MAX - 2, 0).is_none());
    assert!(create_dom(&mut state.tree, i32::MAX - 3, 0).is_some());
}
