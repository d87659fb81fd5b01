//! The state of the trie browser and the moves that change it.

use crate::display::keys::{
    command_key, command_of, navigation_key, parse_command, trimmed, uppercased, Command,
    CommandKey, NavigationKey,
};
use crate::display::route::{find_route, grown, lemma_grown_path, route_of};
use crate::graph::NodeRef;
use crate::display::outline::{is_line_of, new_tree, UIStateNode, UITree};
use crate::lazy::LazySupplier;
use crate::tree::{LazyTree, LazyTreeZipper, Shape, TreePath};
use crate::trie::{string_of_char, Trie};
use std::rc::Rc;
use vstd::prelude::*;
use vstd::string::*;

verus! {

/// `i`, or the nearer of the two limits where `i` lies outside them. Where
/// the limits are crossed (`min > max`), `min` wins for an `i` below it
/// and `max` for every other.
pub fn clamp(i: usize, min: usize, max: usize) -> (r: usize)
    ensures
        r == if i < min {
            min
        } else if i > max {
            max
        } else {
            i
        },
{
    if i < min {
        min
    } else if i > max {
        max
    } else {
        i
    }
}

/// `clamp` for signed numbers.
pub fn clamp_i(i: isize, min: isize, max: isize) -> (r: isize)
    ensures
        r == if i < min {
            min
        } else if i > max {
            max
        } else {
            i
        },
{
    if i < min {
        min
    } else if i > max {
        max
    } else {
        i
    }
}

/// What the browser is busy with.
pub enum UIMode<F> {
    FileExplorer(FileExplorerState<F>),
    TrieNavigation,
    Command,
    Exit,
}

/// The state of the file explorer: a place in the tree of files, and
/// which of the files there the cursor is on.
pub struct FileExplorerState<F> {
    pub files: LazyTreeZipper<String, F>,
    pub hovered_file: usize,
}

/// The state of the browser.
pub struct UIState<F> {
    pub tree: UITree,
    /// The way from the root of the tree to the line that the cursor is
    /// on.
    pub selected_node: TreePath,
    pub mode: UIMode<F>,
    pub command_buffer: String,
    pub display_meaningfulness: bool,
}

/// What came of the attempt to move to the first child.
#[derive(Clone, Copy, Debug, PartialEq, Eq, Structural)]
pub enum MoveForwardResult {
    NotExpanded,
    Moved,
    NoMoreChildren,
}

/// The line with another mark of selection.
pub open spec fn marked(node: UIStateNode, selected: bool) -> UIStateNode {
    UIStateNode { selected, ..node }
}

/// The line, expanded or not.
pub open spec fn unfolded(node: UIStateNode, expanded: bool) -> UIStateNode {
    UIStateNode { expanded, ..node }
}

/// The shape with another value at its top.
pub open spec fn relabelled(shape: Shape<UIStateNode>, value: UIStateNode) -> Shape<UIStateNode> {
    Shape { value, kids: shape.kids }
}

impl<F> UIState<F> {
    /// The state's invariant: the way to the cursor leads to a line of
    /// the tree.
    pub open spec fn wf(&self) -> bool {
        self.tree.has_path(self.selected_node@)
    }

    /// The mode, the command line and the switch for showing how
    /// meaningful the lines are, are those of `other`.
    pub open spec fn same_settings(&self, other: &UIState<F>) -> bool {
        &&& self.mode == other.mode
        &&& self.command_buffer == other.command_buffer
        &&& self.display_meaningfulness == other.display_meaningfulness
    }

    /// The shape of the line that the cursor is on, with what is below.
    pub open spec fn selected_shape(&self) -> Shape<UIStateNode> {
        self.tree@.at(self.selected_node@)
    }

    /// The browser of `trie`, with the cursor on the root.
    pub fn new(trie: Trie) -> (state: UIState<F>)
        requires
            trie@.is_trie(),
        ensures
            state.wf(),
            is_line_of(state.tree, trie@, trie@.root, true),
            state.selected_node@ == Seq::<usize>::empty(),
            state.mode is TrieNavigation,
            state.command_buffer@ == Seq::<char>::empty(),
            !state.display_meaningfulness,
    {
        let root = trie.root;
        UIState {
            tree: new_tree(Rc::new(trie), root, true),
            selected_node: Vec::new(),
            mode: UIMode::TrieNavigation,
            command_buffer: String::new(),
            display_meaningfulness: false,
        }
    }

    /// The line that the cursor is on, with what is below it.
    pub fn get_selected_tree(&self) -> (tree: &UITree)
        requires
            self.wf(),
        ensures
            *tree == self.tree.subtree(self.selected_node@),
    {
        let mut child = &self.tree;
        let mut i: usize = 0;
        assert(self.selected_node@.skip(0) =~= self.selected_node@);
        while i < self.selected_node.len()
            invariant
                i <= self.selected_node@.len(),
                child.has_path(self.selected_node@.skip(i as int)),
                child.subtree(self.selected_node@.skip(i as int)) == self.tree.subtree(
                    self.selected_node@,
                ),
            decreases self.selected_node@.len() - i,
        {
            proof {
                assert(self.selected_node@.skip(i as int)[0] == self.selected_node@[i as int]);
                assert(self.selected_node@.skip(i as int).drop_first() =~= self.selected_node@.skip(
                    i + 1,
                ));
            }
            child = child.child(self.selected_node[i]);
            i += 1;
        }
        child
    }

    /// The line above the line that the cursor is on; `None` where the
    /// cursor is on the root.
    pub fn get_selected_parent(&self) -> (parent: Option<&UITree>)
        requires
            self.wf(),
        ensures
            self.selected_node@.len() == 0 ==> parent is None,
            self.selected_node@.len() > 0 ==> parent is Some && *parent->0 == self.tree.subtree(
                self.selected_node@.drop_last(),
            ),
    {
        if self.selected_node.len() == 0 {
            return None;
        }
        let ghost front = self.selected_node@.drop_last();
        proof {
            self.tree.lemma_path_front(self.selected_node@);
            assert(front.skip(0) =~= front);
        }
        let mut parent = &self.tree;
        let mut i: usize = 0;
        while i < self.selected_node.len() - 1
            invariant
                self.selected_node@.len() > 0,
                front == self.selected_node@.drop_last(),
                i <= front.len(),
                parent.has_path(front.skip(i as int)),
                parent.subtree(front.skip(i as int)) == self.tree.subtree(front),
            decreases front.len() - i,
        {
            proof {
                assert(front.skip(i as int)[0] == self.selected_node@[i as int]);
                assert(front.skip(i as int).drop_first() =~= front.skip(i + 1));
            }
            parent = parent.child(self.selected_node[i]);
            i += 1;
        }
        Some(parent)
    }

    /// The number of lines among which the cursor can move up and down:
    /// the children of the line above; 1 where the cursor is on the
    /// root.
    pub fn number_of_siblings_for_selected(&self) -> (n: usize)
        requires
            self.wf(),
        ensures
            n == if self.selected_node@.len() == 0 {
                1
            } else {
                self.tree.subtree(self.selected_node@.drop_last()).kids().len()
            },
            self.selected_node@.len() > 0 ==> self.selected_node@.last() < n,
    {
        proof {
            if self.selected_node@.len() > 0 {
                self.tree.lemma_path_front(self.selected_node@);
            }
        }
        match self.get_selected_parent() {
            Some(parent) => parent.children.get().len(),
            None => 1,
        }
    }

    /// Sets the mode.
    pub fn set_mode(&mut self, mode: UIMode<F>)
        ensures
            final(self).mode == mode,
            final(self).tree == old(self).tree,
            final(self).selected_node == old(self).selected_node,
            final(self).command_buffer == old(self).command_buffer,
            final(self).display_meaningfulness == old(self).display_meaningfulness,
    {
        self.mode = mode;
    }

    /// Moves the cursor to the line before it among its siblings, if
    /// there is one. Says whether the cursor is on a line that has
    /// siblings at all, that is, not on the root.
    pub fn move_up(&mut self) -> (moved: bool)
        requires
            old(self).wf(),
        ensures
            final(self).wf(),
            final(self).same_settings(old(self)),
            final(self).tree == old(self).tree,
            moved == (old(self).selected_node@.len() > 0),
            !moved ==> final(self).selected_node@ == old(self).selected_node@,
            moved ==> final(self).selected_node@ == old(self).selected_node@.drop_last().push(
                if old(self).selected_node@.last() == 0 {
                    0usize
                } else {
                    (old(self).selected_node@.last() - 1) as usize
                },
            ),
    {
        let num_siblings = self.number_of_siblings_for_selected();
        let length = self.selected_node.len();
        if length == 0 {
            false
        } else {
            let i = self.selected_node[length - 1];
            let above = if i == 0 {
                0
            } else {
                i - 1
            };
            let target = clamp(above, 0, num_siblings - 1);
            proof {
                self.tree.lemma_path_front(self.selected_node@);
                self.tree.lemma_path_push(self.selected_node@.drop_last(), target);
            }
            self.selected_node.set(length - 1, target);
            proof {
                assert(self.selected_node@ =~= old(self).selected_node@.drop_last().push(target));
            }
            true
        }
    }

    /// Moves the cursor to the line after it among its siblings, if
    /// there is one. Says whether the cursor is on a line that has
    /// siblings at all, that is, not on the root.
    pub fn move_down(&mut self) -> (moved: bool)
        requires
            old(self).wf(),
        ensures
            final(self).wf(),
            final(self).same_settings(old(self)),
            final(self).tree == old(self).tree,
            moved == (old(self).selected_node@.len() > 0),
            !moved ==> final(self).selected_node@ == old(self).selected_node@,
            moved ==> final(self).selected_node@ == old(self).selected_node@.drop_last().push(
                if old(self).selected_node@.last() + 1 < old(self).tree.subtree(
                    old(self).selected_node@.drop_last(),
                ).kids().len() {
                    (old(self).selected_node@.last() + 1) as usize
                } else {
                    old(self).selected_node@.last()
                },
            ),
    {
        let num_siblings = self.number_of_siblings_for_selected();
        let length = self.selected_node.len();
        if length == 0 {
            false
        } else {
            let i = self.selected_node[length - 1];
            let target = clamp(i + 1, 0, num_siblings - 1);
            proof {
                self.tree.lemma_path_front(self.selected_node@);
                self.tree.lemma_path_push(self.selected_node@.drop_last(), target);
            }
            self.selected_node.set(length - 1, target);
            proof {
                assert(self.selected_node@ =~= old(self).selected_node@.drop_last().push(target));
            }
            true
        }
    }

    /// Moves the cursor to the line above, if there is one, and says
    /// whether there was.
    pub fn move_back(&mut self) -> (moved: bool)
        requires
            old(self).wf(),
        ensures
            final(self).wf(),
            final(self).same_settings(old(self)),
            final(self).tree == old(self).tree,
            moved == (old(self).selected_node@.len() > 0),
            !moved ==> final(self).selected_node@ == old(self).selected_node@,
            moved ==> final(self).selected_node@ == old(self).selected_node@.drop_last(),
    {
        if self.selected_node.len() == 0 {
            false
        } else {
            proof {
                self.tree.lemma_path_front(self.selected_node@);
            }
            self.selected_node.pop();
            true
        }
    }
}

impl<F> UIState<F> {
    /// The number of children of the line that the cursor is on; they
    /// are made first unless they are there.
    pub fn number_of_children_for_selected(&mut self) -> (n: usize)
        requires
            old(self).wf(),
        ensures
            final(self).wf(),
            final(self).same_settings(old(self)),
            final(self).selected_node == old(self).selected_node,
            old(self).tree@.made_at(final(self).tree@, old(self).selected_node@),
            final(self).tree.subtree(final(self).selected_node@).made(),
            final(self).tree.subtree(final(self).selected_node@).value == old(self).tree.subtree(
                old(self).selected_node@,
            ).value,
            n == final(self).tree.subtree(final(self).selected_node@).kids().len(),
    {
        assert(self.selected_node@.skip(0) =~= self.selected_node@);
        self.tree.make_children_at(&self.selected_node, 0)
    }

    /// Moves the cursor to the first child of the line that it is on, if
    /// the line is expanded and has children. The children are made
    /// first unless they are there.
    pub fn move_forward(&mut self) -> (result: MoveForwardResult)
        requires
            old(self).wf(),
            old(self).selected_node@.len() < usize::MAX,
        ensures
            final(self).wf(),
            final(self).same_settings(old(self)),
            old(self).tree@.made_at(final(self).tree@, old(self).selected_node@),
            final(self).tree.subtree(old(self).selected_node@).made(),
            result == if final(self).tree.subtree(old(self).selected_node@).kids().len() == 0 {
                MoveForwardResult::NoMoreChildren
            } else if old(self).tree.subtree(old(self).selected_node@).value.expanded {
                MoveForwardResult::Moved
            } else {
                MoveForwardResult::NotExpanded
            },
            final(self).selected_node@ == if result == MoveForwardResult::Moved {
                old(self).selected_node@.push(0)
            } else {
                old(self).selected_node@
            },
    {
        if self.number_of_children_for_selected() == 0 {
            MoveForwardResult::NoMoreChildren
        } else {
            if self.get_selected_tree().value.expanded {
                proof {
                    self.tree.lemma_path_push(self.selected_node@, 0);
                }
                self.selected_node.push(0);
                MoveForwardResult::Moved
            } else {
                MoveForwardResult::NotExpanded
            }
        }
    }

    /// Marks the line that the cursor is on as selected or not.
    pub fn set_selected(self, selected: bool) -> (state: UIState<F>)
        requires
            self.wf(),
        ensures
            state.wf(),
            state.selected_node == self.selected_node,
            state.mode == self.mode,
            state.command_buffer == self.command_buffer,
            state.display_meaningfulness == self.display_meaningfulness,
            state.tree@ == self.tree@.with_at(
                self.selected_node@,
                relabelled(self.selected_shape(), marked(self.selected_shape().value, selected)),
            ),
    {
        let UIState { tree, selected_node, mode, command_buffer, display_meaningfulness } = self;
        let mut state_zipper = LazyTreeZipper::new(tree).follow_path(&selected_node);
        let ghost before = state_zipper;
        state_zipper.node.value.selected = selected;
        proof {
            before.node.lemma_shape();
            state_zipper.node.lemma_shape();
            assert(state_zipper.node@.kids == before.node@.kids) by {
                if before.node.made() {
                    assert(state_zipper.node@.kids->0 =~= before.node@.kids->0);
                }
            }
            assert(state_zipper.closed(state_zipper.node@) == before.closed(state_zipper.node@));
            tree.lemma_shape_path(selected_node@);
            tree@.lemma_with_at(selected_node@, state_zipper.node@);
        }
        let tree = state_zipper.build();
        proof {
            tree.lemma_path_of_shape(selected_node@);
        }
        UIState { tree, selected_node, mode, command_buffer, display_meaningfulness }
    }

    /// Expands the line that the cursor is on if it is not expanded, and
    /// the other way round.
    pub fn toggle_expanded(self) -> (state: UIState<F>)
        requires
            self.wf(),
        ensures
            state.wf(),
            state.selected_node == self.selected_node,
            state.mode == self.mode,
            state.command_buffer == self.command_buffer,
            state.display_meaningfulness == self.display_meaningfulness,
            state.tree@ == self.tree@.with_at(
                self.selected_node@,
                relabelled(
                    self.selected_shape(),
                    unfolded(self.selected_shape().value, !self.selected_shape().value.expanded),
                ),
            ),
    {
        let UIState { tree, selected_node, mode, command_buffer, display_meaningfulness } = self;
        let mut state_zipper = LazyTreeZipper::new(tree).follow_path(&selected_node);
        let ghost before = state_zipper;
        let expanded = !state_zipper.node.value.expanded;
        state_zipper.node.value.expanded = expanded;
        proof {
            before.node.lemma_shape();
            state_zipper.node.lemma_shape();
            assert(state_zipper.node@.kids == before.node@.kids) by {
                if before.node.made() {
                    assert(state_zipper.node@.kids->0 =~= before.node@.kids->0);
                }
            }
            assert(state_zipper.closed(state_zipper.node@) == before.closed(state_zipper.node@));
            tree.lemma_shape_path(selected_node@);
            tree@.lemma_with_at(selected_node@, state_zipper.node@);
        }
        let tree = state_zipper.build();
        proof {
            tree.lemma_path_of_shape(selected_node@);
        }
        UIState { tree, selected_node, mode, command_buffer, display_meaningfulness }
    }

    /// Marks the line that the cursor is on as selected.
    pub fn select_node(self) -> (state: UIState<F>)
        requires
            self.wf(),
        ensures
            state.wf(),
            state.selected_node == self.selected_node,
            state.mode == self.mode,
            state.command_buffer == self.command_buffer,
            state.display_meaningfulness == self.display_meaningfulness,
            state.tree@ == self.tree@.with_at(
                self.selected_node@,
                relabelled(self.selected_shape(), marked(self.selected_shape().value, true)),
            ),
    {
        self.set_selected(true)
    }

    /// Marks the line that the cursor is on as not selected.
    pub fn deselect_node(self) -> (state: UIState<F>)
        requires
            self.wf(),
        ensures
            state.wf(),
            state.selected_node == self.selected_node,
            state.mode == self.mode,
            state.command_buffer == self.command_buffer,
            state.display_meaningfulness == self.display_meaningfulness,
            state.tree@ == self.tree@.with_at(
                self.selected_node@,
                relabelled(self.selected_shape(), marked(self.selected_shape().value, false)),
            ),
    {
        self.set_selected(false)
    }
}

/// The shape with `inner` in the place that the path leads to, and with
/// every line on the way there, below the top, expanded.
pub open spec fn opened_to(shape: Shape<UIStateNode>, path: Seq<usize>, inner: Shape<UIStateNode>)
    -> Shape<UIStateNode>
    decreases path.len(),
{
    if path.len() == 0 {
        inner
    } else {
        let kid = shape.kids->0[path[0] as int];
        shape.with_kid(
            path[0] as int,
            opened_to(relabelled(kid, unfolded(kid.value, true)), path.drop_first(), inner),
        )
    }
}

/// The line that the path leads to, expanded unless it is the top.
pub open spec fn opened_at(shape: Shape<UIStateNode>, path: Seq<usize>) -> Shape<UIStateNode> {
    if path.len() == 0 {
        shape
    } else {
        relabelled(shape.at(path), unfolded(shape.at(path).value, true))
    }
}

/// The shape with every line on the way along the path, below the top,
/// expanded.
pub open spec fn opened(shape: Shape<UIStateNode>, path: Seq<usize>) -> Shape<UIStateNode> {
    opened_to(shape, path, opened_at(shape, path))
}

/// Opening the way along a path that is one step longer is opening the
/// way along the path, with the line at its end getting the new end as
/// its child.
pub proof fn lemma_opened_push(
    shape: Shape<UIStateNode>,
    path: Seq<usize>,
    index: usize,
    inner: Shape<UIStateNode>,
)
    requires
        shape.has_path(path.push(index)),
    ensures
        opened_to(shape, path.push(index), inner) == opened_to(
            shape,
            path,
            opened_at(shape, path).with_kid(index as int, inner),
        ),
    decreases path.len(),
{
    let longer = path.push(index);
    if path.len() == 0 {
        assert(longer[0] == index);
        assert(longer.drop_first() =~= Seq::<usize>::empty());
        let kid = shape.kids->0[index as int];
        let open_kid = relabelled(kid, unfolded(kid.value, true));
        assert(opened_to(open_kid, longer.drop_first(), inner) == inner);
        assert(opened_to(shape, longer, inner) == shape.with_kid(index as int, inner));
        assert(opened_at(shape, path) == shape);
    } else {
        let rest = path.drop_first();
        assert(longer[0] == path[0]);
        assert(longer.drop_first() =~= rest.push(index));
        let kid = shape.kids->0[path[0] as int];
        let open_kid = relabelled(kid, unfolded(kid.value, true));
        assert(kid.has_path(rest.push(index)));
        lemma_relabelled_at(kid, open_kid.value, rest.push(index));
        kid.lemma_with_at_push(rest, index, inner);
        lemma_relabelled_at(kid, open_kid.value, rest);
        lemma_opened_push(open_kid, rest, index, inner);
        assert(shape.at(path) == kid.at(rest));
        assert(opened_at(open_kid, rest) == opened_at(shape, path)) by {
            if rest.len() == 0 {
                assert(kid.at(rest) == kid);
            }
        }
    }
}

/// Another value at the top changes nothing below the top.
pub proof fn lemma_relabelled_at(shape: Shape<UIStateNode>, value: UIStateNode, path: Seq<usize>)
    requires
        shape.has_path(path),
    ensures
        relabelled(shape, value).has_path(path),
        path.len() > 0 ==> relabelled(shape, value).at(path) == shape.at(path),
{
    if path.len() > 0 {
        let kid = shape.kids->0[path[0] as int];
        assert(relabelled(shape, value).kids->0[path[0] as int] == kid);
    }
}

impl<F> UIState<F> {
    /// Expands every line on the way along `path`, below the root. The
    /// cursor stays where it is.
    pub fn move_to_path(self, path: &TreePath) -> (state: UIState<F>)
        requires
            self.wf(),
            self.tree.has_path(path@),
        ensures
            state.selected_node == self.selected_node,
            state.mode == self.mode,
            state.command_buffer == self.command_buffer,
            state.display_meaningfulness == self.display_meaningfulness,
            state.tree@ == opened(self.tree@, path@),
            state.tree.has_path(path@),
    {
        let UIState { tree, selected_node, mode, command_buffer, display_meaningfulness } = self;
        let ghost start = tree@;
        proof {
            tree.lemma_shape_path(path@);
            assert(path@.take(0) =~= Seq::<usize>::empty());
            assert(path@.skip(0) =~= path@);
        }
        let mut state_zipper = LazyTreeZipper::new(tree);
        let mut i: usize = 0;
        while i < path.len()
            invariant
                i <= path@.len(),
                start.has_path(path@),
                state_zipper.wf(),
                state_zipper.node.has_path(path@.skip(i as int)),
                state_zipper.depth() == i,
                state_zipper.node@ == opened_at(start, path@.take(i as int)),
                forall|inner: Shape<UIStateNode>| #[trigger]
                    state_zipper.closed(inner) == opened_to(start, path@.take(i as int), inner),
            decreases path@.len() - i,
        {
            let ghost before = state_zipper;
            let ghost done = path@.take(i as int);
            let ghost index = path@[i as int];
            proof {
                assert(path@.skip(i as int)[0] == index);
                assert(path@.skip(i as int).drop_first() =~= path@.skip(i + 1));
                assert(path@.take(i + 1) =~= done.push(index));
                LazyTreeZipper::<UIStateNode, crate::display::outline::TrieChildren>::lemma_prefix_path(
                    start,
                    path@,
                    i + 1,
                );
                start.lemma_with_at_push(done, index, start);
                before.node.lemma_shape();
            }
            state_zipper = state_zipper.child(path[i]);
            let ghost below = state_zipper;
            state_zipper.node.value.expanded = true;
            proof {
                below.node.lemma_shape();
                state_zipper.node.lemma_shape();
                assert(state_zipper.node@.kids == below.node@.kids) by {
                    if below.node.made() {
                        assert(state_zipper.node@.kids->0 =~= below.node@.kids->0);
                    }
                }
                assert(state_zipper.wf() == below.wf());
                assert(state_zipper.depth() == below.depth());
                assert(below.node@ == start.at(done.push(index))) by {
                    if done.len() > 0 {
                    }
                }
                assert forall|inner: Shape<UIStateNode>| #[trigger]
                    state_zipper.closed(inner) == opened_to(start, path@.take(i + 1), inner) by {
                    assert(state_zipper.closed(inner) == below.closed(inner));
                    lemma_opened_push(start, done, index, inner);
                }
                assert(state_zipper.node.has_path(path@.skip(i + 1))) by {
                    below.node.lemma_shape_path(path@.skip(i + 1));
                    lemma_relabelled_at(
                        below.node@,
                        state_zipper.node@.value,
                        path@.skip(i + 1),
                    );
                    state_zipper.node.lemma_path_of_shape(path@.skip(i + 1));
                }
            }
            i += 1;
        }
        proof {
            assert(path@.take(path@.len() as int) =~= path@);
        }
        let tree = state_zipper.build();
        proof {
            lemma_opened_has_path(start, path@);
            tree.lemma_path_of_shape(path@);
        }
        UIState { tree, selected_node, mode, command_buffer, display_meaningfulness }
    }
}

/// The path along which the way was opened still leads where it led.
pub proof fn lemma_opened_has_path(shape: Shape<UIStateNode>, path: Seq<usize>)
    requires
        shape.has_path(path),
    ensures
        opened(shape, path).has_path(path),
{
    lemma_opened_to_has_path(shape, path, opened_at(shape, path));
}

/// The path along which the way was opened leads to what was put at its
/// end.
pub proof fn lemma_opened_to_has_path(
    shape: Shape<UIStateNode>,
    path: Seq<usize>,
    inner: Shape<UIStateNode>,
)
    requires
        shape.has_path(path),
    ensures
        opened_to(shape, path, inner).has_path(path),
        opened_to(shape, path, inner).at(path) == inner,
    decreases path.len(),
{
    if path.len() > 0 {
        let kid = shape.kids->0[path[0] as int];
        let open_kid = relabelled(kid, unfolded(kid.value, true));
        lemma_relabelled_at(kid, open_kid.value, path.drop_first());
        lemma_opened_to_has_path(open_kid, path.drop_first(), inner);
    }
}

/// The mode is the file explorer at the root of `files`, with the cursor
/// on the first file.
pub open spec fn explores<F>(mode: UIMode<F>, files: LazyTree<String, F>) -> bool {
    match mode {
        UIMode::FileExplorer(explorer) => explorer.hovered_file == 0 && explorer.files.node == files
            && explorer.files.parent is None && explorer.files.index == 0,
        _ => false,
    }
}

/// What a command does to the mode and to the switch for showing how
/// meaningful the lines are.
pub open spec fn commanded<F>(
    command: Command,
    meaningfulness: bool,
    files: LazyTree<String, F>,
    mode: UIMode<F>,
    meaningfulness_after: bool,
) -> bool {
    match command {
        Command::Meaning => mode is TrieNavigation && meaningfulness_after == !meaningfulness,
        Command::Load => explores(mode, files) && meaningfulness_after == meaningfulness,
        Command::Quit => mode is Exit && meaningfulness_after == meaningfulness,
        Command::Other => mode is TrieNavigation && meaningfulness_after == meaningfulness,
    }
}

impl<F: LazySupplier<Vec<LazyTree<String, F>>>> UIState<F> {
    /// Carries out the command that the command line holds. `files` is
    /// the tree of the files among which a file to load is chosen.
    pub fn execute_command(self, files: LazyTree<String, F>) -> (state: UIState<F>)
        ensures
            state.tree == self.tree,
            state.selected_node == self.selected_node,
            state.command_buffer == self.command_buffer,
            commanded(
                command_of(uppercased(trimmed(self.command_buffer@))),
                self.display_meaningfulness,
                files,
                state.mode,
                state.display_meaningfulness,
            ),
    {
        let command = parse_command(self.command_buffer.as_str());
        let mut ui_state = self;
        match command {
            Command::Meaning => {
                ui_state.display_meaningfulness = !ui_state.display_meaningfulness;
                ui_state.set_mode(UIMode::TrieNavigation);
            },
            Command::Load => {
                ui_state.set_mode(
                    UIMode::FileExplorer(
                        FileExplorerState { files: LazyTreeZipper::new(files), hovered_file: 0 },
                    ),
                );
            },
            Command::Quit => {
                ui_state.set_mode(UIMode::Exit);
            },
            Command::Other => {
                ui_state.set_mode(UIMode::TrieNavigation);
            },
        }
        ui_state
    }

    /// What a key does while a command line is typed. The line that the
    /// cursor is on is no longer marked as selected afterwards.
    pub fn handle_command_mode(self, character: char, files: LazyTree<String, F>) -> (state:
        UIState<F>)
        requires
            self.wf(),
        ensures
            state.wf(),
            state.selected_node == self.selected_node,
            state.tree@ == self.tree@.with_at(
                self.selected_node@,
                relabelled(self.selected_shape(), marked(self.selected_shape().value, false)),
            ),
            match command_key(character) {
                CommandKey::Execute => state.command_buffer == self.command_buffer && commanded(
                    command_of(uppercased(trimmed(self.command_buffer@))),
                    self.display_meaningfulness,
                    files,
                    state.mode,
                    state.display_meaningfulness,
                ),
                CommandKey::Leave => state.mode is TrieNavigation && state.command_buffer
                    == self.command_buffer && state.display_meaningfulness
                    == self.display_meaningfulness,
                CommandKey::Delete => state.mode == self.mode && state.display_meaningfulness
                    == self.display_meaningfulness && state.command_buffer@
                    == if self.command_buffer@.len() > 0 {
                    self.command_buffer@.drop_last()
                } else {
                    self.command_buffer@
                },
                CommandKey::Clear => state.mode == self.mode && state.display_meaningfulness
                    == self.display_meaningfulness && state.command_buffer@ == Seq::<char>::empty(),
                CommandKey::Insert(typed) => state.mode == self.mode
                    && state.display_meaningfulness == self.display_meaningfulness
                    && state.command_buffer@ == self.command_buffer@.push(typed),
            },
    {
        let mut ui_state = self.deselect_node();
        let ghost old_buffer = ui_state.command_buffer@;
        match command_key(character) {
            CommandKey::Execute => {
                ui_state = ui_state.execute_command(files);
            },
            CommandKey::Leave => {
                ui_state.set_mode(UIMode::TrieNavigation);
            },
            CommandKey::Delete => {
                let length = ui_state.command_buffer.as_str().unicode_len();
                if length > 0 {
                    let shorter = String::from_str(
                        ui_state.command_buffer.as_str().substring_char(0, length - 1),
                    );
                    proof {
                        assert(ui_state.command_buffer@.subrange(0, length - 1)
                            =~= ui_state.command_buffer@.drop_last());
                    }
                    ui_state.command_buffer = shorter;
                }
            },
            CommandKey::Clear => {
                ui_state.command_buffer = String::new();
            },
            CommandKey::Insert(typed) => {
                let letter = string_of_char(typed);
                ui_state.command_buffer.append(letter.as_str());
                proof {
                    assert(old_buffer + seq![typed] =~= old_buffer.push(typed));
                }
            },
        }
        ui_state
    }
}

impl<F: LazySupplier<Vec<LazyTree<String, F>>>> FileExplorerState<F> {
    /// Moves the cursor to the next file, if there is one. The files are
    /// made first unless they are there.
    pub fn hover_down(&mut self)
        ensures
            final(self).files.parent == old(self).files.parent,
            final(self).files.index == old(self).files.index,
            final(self).files.node.value == old(self).files.node.value,
            old(self).files.node.children.made_into(final(self).files.node.children),
            final(self).hovered_file == if final(self).files.node.kids().len() == 0 {
                0
            } else if old(self).hovered_file + 1 < final(self).files.node.kids().len() {
                old(self).hovered_file + 1
            } else {
                final(self).files.node.kids().len() - 1
            },
    {
        let n = self.files.number_of_children();
        self.hovered_file = crate::display::keys::hover_down(self.hovered_file, n);
    }

    /// Moves the cursor to the file before, if there is one. The files
    /// are made first unless they are there.
    pub fn hover_up(&mut self)
        ensures
            final(self).files.parent == old(self).files.parent,
            final(self).files.index == old(self).files.index,
            final(self).files.node.value == old(self).files.node.value,
            old(self).files.node.children.made_into(final(self).files.node.children),
            final(self).hovered_file == if final(self).files.node.kids().len() == 0
                || old(self).hovered_file == 0 {
                0
            } else if old(self).hovered_file - 1 < final(self).files.node.kids().len() {
                old(self).hovered_file - 1
            } else {
                final(self).files.node.kids().len() - 1
            },
    {
        let n = self.files.number_of_children();
        self.hovered_file = crate::display::keys::hover_up(self.hovered_file, n);
    }

    /// The name of the file that the cursor is on; `None` if the cursor
    /// is on no file. The files are made first unless they are there.
    pub fn hovered_name(&mut self) -> (name: Option<String>)
        ensures
            final(self).files.parent == old(self).files.parent,
            final(self).files.index == old(self).files.index,
            final(self).files.node.value == old(self).files.node.value,
            final(self).hovered_file == old(self).hovered_file,
            old(self).files.node.children.made_into(final(self).files.node.children),
            name is Some <==> old(self).hovered_file < final(self).files.node.kids().len(),
            name matches Some(text) ==> text@ == final(self).files.node.kids()[old(
                self,
            ).hovered_file as int].value@,
    {
        let hovered = self.hovered_file;
        let children = self.files.node.children();
        if hovered < children.len() {
            Some(children[hovered].value.clone())
        } else {
            None
        }
    }

    /// Goes into the directory that the cursor is on, if the cursor is
    /// on a file at all; the cursor stays on the same line.
    pub fn enter(self) -> (state: FileExplorerState<F>)
        requires
            self.files.wf(),
            self.files.node.made(),
        ensures
            state.hovered_file == self.hovered_file,
            self.hovered_file >= self.files.node.kids().len() ==> state.files == self.files,
            self.hovered_file < self.files.node.kids().len() ==> state.files.wf()
                && state.files.node == self.files.node.kids()[self.hovered_file as int]
                && state.files.index == self.hovered_file && state.files.rebuilt()
                == self.files.rebuilt(),
    {
        let FileExplorerState { files, hovered_file } = self;
        if hovered_file < files.node.children.get().len() {
            FileExplorerState { files: files.child(hovered_file), hovered_file }
        } else {
            FileExplorerState { files, hovered_file }
        }
    }
}

/// What a key does to the tree of lines and to the cursor while the
/// trie is browsed, where `tree` and `selected` are the tree and the
/// cursor once the line under the cursor is no longer marked as
/// selected.
pub open spec fn navigated(
    key: NavigationKey,
    tree: Shape<UIStateNode>,
    selected: Seq<usize>,
    after: Shape<UIStateNode>,
    selected_after: Seq<usize>,
    beep: bool,
) -> bool {
    let line = tree.at(selected);
    match key {
        NavigationKey::Toggle => !beep && selected_after == selected && after == tree.with_at(
            selected,
            relabelled(line, unfolded(line.value, !line.value.expanded)),
        ),
        NavigationKey::Forward => exists|made: Shape<UIStateNode>|
            tree.made_at(made, selected) && #[trigger] forwarded(
                made,
                selected,
                after,
                selected_after,
                beep,
            ),
        NavigationKey::Back => !beep && after == tree && selected_after == if selected.len() > 0 {
            selected.drop_last()
        } else {
            selected
        },
        NavigationKey::Down => !beep && after == tree && selected_after == if selected.len() > 0 {
            selected.drop_last().push(
                if selected.last() + 1 < tree.at(selected.drop_last()).kids->0.len() {
                    (selected.last() + 1) as usize
                } else {
                    selected.last()
                },
            )
        } else {
            selected
        },
        NavigationKey::Up => !beep && after == tree && selected_after == if selected.len() > 0 {
            selected.drop_last().push(
                if selected.last() == 0 {
                    0usize
                } else {
                    (selected.last() - 1) as usize
                },
            )
        } else {
            selected
        },
        NavigationKey::LongestPath => !beep && exists|made: Shape<UIStateNode>|
            grown(tree, made) && #[trigger] routed(
                made,
                line.value.longest_path@,
                selected,
                after,
                selected_after,
            ),
        NavigationKey::StartCommand => !beep && after == tree && selected_after == selected,
        NavigationKey::Ignore => !beep && after == tree && selected_after == selected,
    }
}

/// What going forward does once the children of the line under the
/// cursor are made: without children there is a beep; else the line is
/// expanded and the cursor goes to its first child.
pub open spec fn forwarded(
    made: Shape<UIStateNode>,
    selected: Seq<usize>,
    after: Shape<UIStateNode>,
    selected_after: Seq<usize>,
    beep: bool,
) -> bool {
    let line = made.at(selected);
    if line.kids->0.len() == 0 {
        beep && after == made && selected_after == selected
    } else {
        !beep && selected_after == selected.push(0) && after == if line.value.expanded {
            made
        } else {
            made.with_at(selected, relabelled(line, unfolded(line.value, true)))
        }
    }
}

/// What opening the way along the nodes `refs` does once the children on
/// the way are made: where the way is found, the cursor goes to its end
/// and the lines on it are expanded.
pub open spec fn routed(
    made: Shape<UIStateNode>,
    refs: Seq<NodeRef>,
    selected: Seq<usize>,
    after: Shape<UIStateNode>,
    selected_after: Seq<usize>,
) -> bool {
    match route_of(made, refs) {
        Some(path) => selected_after == path && after == opened(made, path),
        None => selected_after == selected && after == made,
    }
}

impl<F> UIState<F> {
    /// The way through the lines to the line of the node that the cursor
    /// is on, along the deepest parents of that node; `None` if the
    /// lines do not hold such a way. Children are made on the way as far
    /// as they are needed.
    pub fn longest_path_to_selected(&mut self) -> (path: Option<TreePath>)
        requires
            old(self).wf(),
        ensures
            final(self).wf(),
            final(self).same_settings(old(self)),
            final(self).selected_node == old(self).selected_node,
            grown(old(self).tree@, final(self).tree@),
            match path {
                Some(found) => route_of(
                    final(self).tree@,
                    old(self).selected_shape().value.longest_path@,
                ) == Some(found@) && final(self).tree.has_path(found@),
                None => route_of(
                    final(self).tree@,
                    old(self).selected_shape().value.longest_path@,
                ) is None,
            },
    {
        let refs = self.get_selected_tree().value.longest_path.clone();
        let mut path: TreePath = Vec::new();
        proof {
            assert(refs@.skip(0) =~= refs@);
            self.tree.lemma_shape_path(self.selected_node@);
            self.tree.subtree(self.selected_node@).lemma_shape();
        }
        let found = find_route(&mut self.tree, &refs, 0, &mut path);
        proof {
            old(self).tree.lemma_shape_path(old(self).selected_node@);
            lemma_grown_path(old(self).tree@, self.tree@, self.selected_node@);
            self.tree.lemma_path_of_shape(self.selected_node@);
            if found {
                assert(Seq::<usize>::empty() + path@ =~= path@);
                self.tree.lemma_path_of_shape(path@);
            }
        }
        if found {
            Some(path)
        } else {
            None
        }
    }

    /// Moves the cursor to the line of the node that it is on along the
    /// deepest parents of that node, and expands the lines on the way.
    /// Where the lines hold no such way the cursor stays.
    pub fn move_to_longest_path(self) -> (state: UIState<F>)
        requires
            self.wf(),
        ensures
            state.wf(),
            state.mode == self.mode,
            state.command_buffer == self.command_buffer,
            state.display_meaningfulness == self.display_meaningfulness,
            exists|made: Shape<UIStateNode>|
                grown(self.tree@, made) && #[trigger] routed(
                    made,
                    self.selected_shape().value.longest_path@,
                    self.selected_node@,
                    state.tree@,
                    state.selected_node@,
                ),
    {
        let mut ui_state = self;
        match ui_state.longest_path_to_selected() {
            Some(longest_path) => {
                let ghost made = ui_state.tree@;
                ui_state.selected_node = longest_path.clone();
                let moved = ui_state.move_to_path(&longest_path);
                proof {
                    assert(routed(
                        made,
                        self.selected_shape().value.longest_path@,
                        self.selected_node@,
                        moved.tree@,
                        moved.selected_node@,
                    ));
                }
                moved
            },
            None => {
                proof {
                    assert(routed(
                        ui_state.tree@,
                        self.selected_shape().value.longest_path@,
                        self.selected_node@,
                        ui_state.tree@,
                        ui_state.selected_node@,
                    ));
                }
                ui_state
            },
        }
    }

    /// What a key does while the trie is browsed. The line that the
    /// cursor was on is no longer marked as selected afterwards. The
    /// second result says whether to beep.
    pub fn handle_trie_navigation_mode(self, character: char) -> (result: (UIState<F>, bool))
        requires
            self.wf(),
            self.selected_node@.len() < usize::MAX,
        ensures
            result.0.wf(),
            result.0.command_buffer == self.command_buffer,
            result.0.display_meaningfulness == self.display_meaningfulness,
            navigation_key(character) == NavigationKey::StartCommand ==> result.0.mode is Command,
            navigation_key(character) != NavigationKey::StartCommand ==> result.0.mode == self.mode,
            navigated(
                navigation_key(character),
                self.tree@.with_at(
                    self.selected_node@,
                    relabelled(self.selected_shape(), marked(self.selected_shape().value, false)),
                ),
                self.selected_node@,
                result.0.tree@,
                result.0.selected_node@,
                result.1,
            ),
    {
        let mut ui_state = self.deselect_node();
        let ghost tree = ui_state.tree@;
        let ghost selected = ui_state.selected_node@;
        let ghost key = navigation_key(character);
        let mut beep = false;
        proof {
            lemma_line(&ui_state.tree, selected);
            if selected.len() > 0 {
                ui_state.tree.lemma_path_front(selected);
                lemma_line(&ui_state.tree, selected.drop_last());
            }
        }
        match navigation_key(character) {
            NavigationKey::Toggle => {
                ui_state = ui_state.toggle_expanded();
            },
            NavigationKey::Forward => {
                match ui_state.move_forward() {
                    MoveForwardResult::Moved => {
                        proof {
                            let made = ui_state.tree@;
                            ui_state.tree.lemma_path_of_shape(selected);
                            lemma_line(&ui_state.tree, selected);
                            assert(forwarded(made, selected, made, selected.push(0), false));
                        }
                    },
                    MoveForwardResult::NotExpanded => {
                        let ghost made = ui_state.tree@;
                        proof {
                            ui_state.tree.lemma_path_of_shape(selected);
                            lemma_line(&ui_state.tree, selected);
                        }
                        ui_state = ui_state.toggle_expanded();
                        let ghost open = ui_state.tree@;
                        proof {
                            made.lemma_with_at(
                                selected,
                                relabelled(
                                    made.at(selected),
                                    unfolded(made.at(selected).value, true),
                                ),
                            );
                            lemma_line(&ui_state.tree, selected);
                        }
                        ui_state.move_forward();
                        proof {
                            assert(ui_state.tree@ == open);
                            ui_state.tree.lemma_path_of_shape(selected);
                            lemma_line(&ui_state.tree, selected);
                            assert(forwarded(made, selected, open, selected.push(0), false));
                        }
                    },
                    MoveForwardResult::NoMoreChildren => {
                        beep = true;
                        proof {
                            let made = ui_state.tree@;
                            lemma_line(&ui_state.tree, selected);
                            assert(forwarded(made, selected, made, selected, true));
                        }
                    },
                }
            },
            NavigationKey::Back => {
                ui_state.move_back();
            },
            NavigationKey::Down => {
                ui_state.move_down();
            },
            NavigationKey::Up => {
                ui_state.move_up();
            },
            NavigationKey::LongestPath => {
                ui_state = ui_state.move_to_longest_path();
            },
            NavigationKey::StartCommand => {
                ui_state.set_mode(UIMode::Command);
            },
            NavigationKey::Ignore => {},
        }
        proof {
            assert(navigated(key, tree, selected, ui_state.tree@, ui_state.selected_node@, beep));
        }
        (ui_state, beep)
    }
}

/// What the tree says of the line at a path is what its shape says.
pub proof fn lemma_line(tree: &UITree, path: Seq<usize>)
    requires
        tree.has_path(path) || tree@.has_path(path),
    ensures
        tree.has_path(path),
        tree@.has_path(path),
        tree.subtree(path)@ == tree@.at(path),
        tree@.at(path).value == tree.subtree(path).value,
        tree.subtree(path).made() <==> tree@.at(path).kids is Some,
        tree.subtree(path).made() ==> tree@.at(path).kids->0.len() == tree.subtree(
            path,
        ).kids().len(),
{
    if tree@.has_path(path) {
        tree.lemma_path_of_shape(path);
    }
    tree.lemma_shape_path(path);
    tree.subtree(path).lemma_shape();
}

} // verus!
