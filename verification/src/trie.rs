//! The trie's nodes and the questions and edits that the builder and the
//! readers of a finished trie need.

use crate::graph::{Graph, NodeRef};
use crate::tree::{BiDirectionalTree, EditNodeError, EditNodeResult};
use vstd::prelude::*;

verus! {

/// A reference to a node of a trie.
pub type TrieNodeRef = NodeRef;

/// What a trie node carries: its character (the root has none), how often
/// the path from the root to it has occurred, and the greatest depth at
/// which it was reached.
#[derive(Clone, Copy, Debug, PartialEq, Eq, Structural)]
pub struct TrieNode {
    pub data: Option<char>,
    pub count: usize,
    pub max_depth: usize,
}

/// A trie: an arena of trie nodes.
pub type Trie = BiDirectionalTree<TrieNode>;

impl Graph<TrieNode> {
    /// The character of the node `n`.
    pub open spec fn data(self, n: NodeRef) -> Option<char> {
        self.value(n).data
    }

    /// The count of the node `n`.
    pub open spec fn count(self, n: NodeRef) -> usize {
        self.value(n).count
    }

    /// The depth recorded at the node `n`.
    pub open spec fn depth(self, n: NodeRef) -> usize {
        self.value(n).max_depth
    }

    /// The first of `kids` that carries `character`.
    pub open spec fn child_among(self, kids: Seq<NodeRef>, character: char) -> Option<NodeRef>
        decreases kids.len(),
    {
        if kids.len() == 0 {
            None
        } else if self.data(kids[0]) == Some(character) {
            Some(kids[0])
        } else {
            self.child_among(kids.drop_first(), character)
        }
    }

    /// The first child of `n`, in the order in which `n` lists its
    /// children, that carries `character`.
    pub open spec fn child_with(self, n: NodeRef, character: char) -> Option<NodeRef> {
        self.child_among(self.children(n), character)
    }

    /// Of the listed nodes, the one with the greatest depth; of several
    /// with that depth, the one listed first.
    pub open spec fn deepest_among(self, ps: Seq<NodeRef>) -> Option<NodeRef>
        decreases ps.len(),
    {
        if ps.len() == 0 {
            None
        } else {
            match self.deepest_among(ps.drop_last()) {
                None => Some(ps.last()),
                Some(best) => if self.depth(best) < self.depth(ps.last()) {
                    Some(ps.last())
                } else {
                    Some(best)
                },
            }
        }
    }

    /// The parent of `n` with the greatest depth; of several with that
    /// depth, the one that `n` lists first.
    pub open spec fn deepest_parent(self, n: NodeRef) -> Option<NodeRef> {
        self.deepest_among(self.parents(n))
    }

    /// What the trie asks of one node beyond the graph's invariant.
    pub open spec fn trie_node(self, n: NodeRef) -> bool {
        &&& n != self.root ==> self.data(n) is Some && self.count(n) >= 1
        &&& forall|c: NodeRef| #[trigger]
            self.children(n).contains(c) ==> self.depth(n) < self.depth(c)
        &&& self.orphaned(n) ==> self.children(n).len() == 0
        &&& forall|x: NodeRef, y: NodeRef|
            #[trigger] self.children(n).contains(x) && #[trigger] self.children(n).contains(y) && x
                != y ==> self.data(x) != self.data(y)
    }

    /// The invariant of a trie. The graph is well formed. The root carries
    /// no character, count 0 and depth 0; every other node carries a
    /// character and a count of at least 1. Depth grows strictly along
    /// every edge. A node that has been unlinked from all of its parents
    /// has no children left. No node has two children with one character.
    pub open spec fn is_trie(self) -> bool {
        &&& self.wf()
        &&& self.value(self.root) == (TrieNode { data: None, count: 0, max_depth: 0 })
        &&& forall|n: NodeRef| self.has(n) ==> #[trigger] self.trie_node(n)
    }

    /// The way from the root down to `n` that a walk upward from `n`
    /// finds when it always takes the deepest parent: the nodes below the
    /// root on that way, `n` last. For the root it is empty.
    pub open spec fn longest_path(self, n: NodeRef) -> Seq<NodeRef>
        decreases self.depth(n),
        when self.is_trie() && self.has(n)
    {
        match self.deepest_parent(n) {
            None => Seq::empty(),
            Some(p) => {
                proof {
                    self.lemma_parent_is_shallower(n);
                }
                self.longest_path(p).push(n)
            },
        }
    }

    /// In a trie the deepest parent of a node is a node of the trie, has
    /// the node as a child, and is less deep than the node.
    pub proof fn lemma_parent_is_shallower(self, n: NodeRef)
        requires
            self.is_trie(),
            self.has(n),
        ensures
            match self.deepest_parent(n) {
                Some(p) => self.has(p) && self.children(p).contains(n) && self.depth(p)
                    < self.depth(n) && self.attached(p),
                None => self.parents(n).len() == 0,
            },
    {
        self.lemma_deepest_among(self.parents(n));
        match self.deepest_parent(n) {
            Some(p) => {
                assert(self.node_wf(n));
                assert(self.parents(n).contains(p));
                assert(self.trie_node(p));
                if self.orphaned(p) {
                    assert(self.children(p).len() == 0);
                }
            },
            None => {},
        }
    }

    /// The path leads from the root downward and its nodes below the root
    /// carry the characters of `text`, in order.
    pub open spec fn spells(self, path: Seq<NodeRef>, text: Seq<char>) -> bool {
        &&& self.is_path(path)
        &&& path.len() == text.len() + 1
        &&& forall|i: int| 0 <= i < text.len() ==> self.data(#[trigger] path[i + 1]) == Some(text[i])
    }

    /// Some path from the root spells `text`, and the node at its end has
    /// a count of at least 1.
    pub open spec fn contains_text(self, text: Seq<char>) -> bool {
        exists|path: Seq<NodeRef>| self.spells(path, text) && self.count(path.last()) >= 1
    }

    /// In a trie a path from the root is no longer than its last node is
    /// deep.
    pub proof fn lemma_path_depth(self, path: Seq<NodeRef>, i: int)
        requires
            self.is_trie(),
            self.is_path(path),
            0 <= i < path.len(),
        ensures
            i <= self.depth(path[i]),
        decreases i,
    {
        if i > 0 {
            self.lemma_path_depth(path, i - 1);
            self.lemma_path_nodes(path, i - 1);
            assert(self.edge(path[i - 1], path[i]));
            assert(self.trie_node(path[i - 1]));
        }
    }

    /// The first of the nodes that carries the character carries it, is one
    /// of them, and none before it carries it; if there is none, no node
    /// carries it.
    pub proof fn lemma_child_among(self, kids: Seq<NodeRef>, character: char)
        ensures
            match self.child_among(kids, character) {
                Some(c) => exists|i: int|
                    0 <= i < kids.len() && #[trigger] kids[i] == c && self.data(c) == Some(character)
                        && forall|j: int| 0 <= j < i ==> self.data(#[trigger] kids[j]) != Some(character),
                None => forall|j: int|
                    0 <= j < kids.len() ==> self.data(#[trigger] kids[j]) != Some(character),
            },
        decreases kids.len(),
    {
        if kids.len() > 0 {
            if self.data(kids[0]) == Some(character) {
                assert(kids[0] == kids[0]);
            } else {
                let rest = kids.drop_first();
                self.lemma_child_among(rest, character);
                match self.child_among(rest, character) {
                    Some(c) => {
                        let i = choose|i: int|
                            0 <= i < rest.len() && #[trigger] rest[i] == c && self.data(c) == Some(
                                character,
                            ) && forall|j: int|
                                0 <= j < i ==> self.data(#[trigger] rest[j]) != Some(character);
                        assert(kids[i + 1] == c);
                        assert forall|j: int| 0 <= j < i + 1 implies self.data(#[trigger] kids[j])
                            != Some(character) by {
                            if j > 0 {
                                assert(rest[j - 1] == kids[j]);
                            }
                        }
                    },
                    None => {
                        assert forall|j: int| 0 <= j < kids.len() implies self.data(
                            #[trigger] kids[j],
                        ) != Some(character) by {
                            if j > 0 {
                                assert(rest[j - 1] == kids[j]);
                            }
                        }
                    },
                }
            }
        }
    }

    /// The deepest of the nodes is one of them, none is deeper, and none
    /// before it is as deep; there is none only where there are no nodes.
    pub proof fn lemma_deepest_among(self, ps: Seq<NodeRef>)
        ensures
            match self.deepest_among(ps) {
                Some(p) => exists|i: int|
                    0 <= i < ps.len() && #[trigger] ps[i] == p && (forall|j: int|
                        0 <= j < ps.len() ==> self.depth(#[trigger] ps[j]) <= self.depth(p))
                        && forall|j: int| 0 <= j < i ==> self.depth(#[trigger] ps[j]) < self.depth(p),
                None => ps.len() == 0,
            },
        decreases ps.len(),
    {
        if ps.len() > 0 {
            let front = ps.drop_last();
            self.lemma_deepest_among(front);
            match self.deepest_among(front) {
                None => {
                    assert(ps[0] == ps.last());
                },
                Some(best) => {
                    let i = choose|i: int|
                        0 <= i < front.len() && #[trigger] front[i] == best && (forall|j: int|
                            0 <= j < front.len() ==> self.depth(#[trigger] front[j]) <= self.depth(
                                best,
                            )) && forall|j: int|
                            0 <= j < i ==> self.depth(#[trigger] front[j]) < self.depth(best);
                    if self.depth(best) < self.depth(ps.last()) {
                        assert(ps[ps.len() - 1] == ps.last());
                        assert forall|j: int| 0 <= j < ps.len() - 1 implies self.depth(
                            #[trigger] ps[j],
                        ) < self.depth(ps.last()) by {
                            assert(front[j] == ps[j]);
                        }
                    } else {
                        assert(ps[i] == best);
                        assert forall|j: int| 0 <= j < ps.len() implies self.depth(
                            #[trigger] ps[j],
                        ) <= self.depth(best) by {
                            if j < front.len() {
                                assert(front[j] == ps[j]);
                            }
                        }
                        assert forall|j: int| 0 <= j < i implies self.depth(#[trigger] ps[j])
                            < self.depth(best) by {
                            assert(front[j] == ps[j]);
                        }
                    }
                },
            }
        }
    }
}

/// `String::from` on a character: the string that holds this one
/// character and nothing else.
#[verifier::external_body]
pub(crate) fn string_of_char(character: char) -> (text: String)
    ensures
        text@ == seq![character],
{
    String::from(character)
}

impl Trie {
    /// The character of the node as a string; the empty string for a node
    /// without a character, as the root is.
    pub fn get_string(&self, node_ref: TrieNodeRef) -> (text: String)
        requires
            self@.has(node_ref),
        ensures
            text@ == match self@.data(node_ref) {
                Some(character) => seq![character],
                None => Seq::<char>::empty(),
            },
    {
        match self.get_value(node_ref).data {
            Some(character) => string_of_char(character),
            None => String::new(),
        }
    }

    /// Counts one more occurrence at the node `idx`.
    pub fn increment_count(&mut self, idx: TrieNodeRef)
        requires
            old(self)@.has(idx),
            old(self)@.count(idx) < usize::MAX,
        ensures
            final(self)@ == old(self)@.with_value(
                idx,
                TrieNode { count: (old(self)@.count(idx) + 1) as usize, ..old(self)@.value(idx) },
            ),
            old(self).wf() ==> final(self).wf(),
    {
        let value = self.get_value_mut(idx);
        value.count = value.count + 1;
        proof {
            if old(self).wf() {
                old(self)@.lemma_with_value_wf(idx, self@.value(idx));
            }
        }
    }

    /// Sets the depth recorded at the node `idx`.
    pub fn set_max_depth(&mut self, idx: TrieNodeRef, max_depth: usize)
        requires
            old(self)@.has(idx),
        ensures
            final(self)@ == old(self)@.with_value(
                idx,
                TrieNode { max_depth, ..old(self)@.value(idx) },
            ),
            old(self).wf() ==> final(self).wf(),
    {
        let value = self.get_value_mut(idx);
        value.max_depth = max_depth;
        proof {
            if old(self).wf() {
                old(self)@.lemma_with_value_wf(idx, self@.value(idx));
            }
        }
    }

    /// The child of `idx` that carries `character`: the first such child
    /// in the order in which `idx` lists its children, `None` if there is
    /// none.
    pub fn find_child(&self, idx: TrieNodeRef, character: char) -> (found: Option<TrieNodeRef>)
        requires
            self.wf(),
            self@.has(idx),
        ensures
            found == self@.child_with(idx, character),
            match found {
                Some(c) => self@.children(idx).contains(c) && self@.data(c) == Some(character),
                None => forall|j: int|
                    0 <= j < self@.children(idx).len() ==> self@.data(
                        #[trigger] self@.children(idx)[j],
                    ) != Some(character),
            },
    {
        let node = self.get_node(idx);
        let ghost kids = self@.children(idx);
        proof {
            assert(self@.node_wf(idx));
            self@.lemma_child_among(kids, character);
            assert(kids.subrange(0, kids.len() as int) =~= kids);
        }
        let mut i: usize = 0;
        while i < node.children.len()
            invariant
                self.wf(),
                self@.has(idx),
                node@ == self@.nodes[idx as int],
                kids == self@.children(idx),
                i <= kids.len(),
                self@.child_among(kids.subrange(i as int, kids.len() as int), character)
                    == self@.child_among(kids, character),
            decreases kids.len() - i,
        {
            let child = node.children[i];
            let ghost rest = kids.subrange(i as int, kids.len() as int);
            proof {
                assert(rest[0] == child);
                assert(kids.contains(kids[i as int]));
                assert(self@.node_wf(idx));
                assert(rest.drop_first() =~= kids.subrange(i + 1, kids.len() as int));
            }
            let carries = match self.get_value(child).data {
                Some(d) => d == character,
                None => false,
            };
            if carries {
                return Some(child);
            }
            i += 1;
        }
        assert(kids.subrange(i as int, kids.len() as int).len() == 0);
        None
    }

    /// Makes `new_child` a child of `parent`, then unlinks `old_child`
    /// from `parent` as `remove_child` does. The new edge is made first,
    /// so that a node that is both the old and the new child is never
    /// without a parent in between. Where `parent` has been unlinked, no
    /// edge is made and the error is returned; `old_child` is unlinked
    /// either way.
    pub fn replace_child_ref(
        &mut self,
        parent: TrieNodeRef,
        old_child: TrieNodeRef,
        new_child: TrieNodeRef,
    ) -> (result: EditNodeResult)
        requires
            old(self).wf(),
            old(self)@.has(parent),
            old(self)@.has(old_child),
            old(self)@.attached(parent) ==> old(self)@.has(new_child),
        ensures
            final(self).wf(),
            old(self)@.attached(parent) ==> result == Ok::<NodeRef, EditNodeError>(new_child)
                && final(self)@ == old(self)@.linked(parent, new_child).removed(parent, old_child),
            !old(self)@.attached(parent) ==> result == Err::<NodeRef, EditNodeError>(
                EditNodeError::NodeDeleted(parent),
            ) && final(self)@ == old(self)@.removed(parent, old_child),
            final(self)@ == old(self)@.replaced(parent, old_child, new_child),
    {
        let result = self.add_child_ref(parent, new_child);
        self.remove_child(parent, old_child);
        result
    }

    /// Gives `idx` a new child that carries `character`, with count 1 and
    /// a depth one greater than that of `idx`. Where `idx` has been
    /// unlinked, nothing changes and the error is returned.
    pub fn append_character(&mut self, idx: TrieNodeRef, character: char) -> (result:
        EditNodeResult)
        requires
            old(self).wf(),
            old(self)@.has(idx),
            old(self)@.depth(idx) < usize::MAX,
        ensures
            final(self).wf(),
            old(self)@.attached(idx) ==> result == Ok::<NodeRef, EditNodeError>(
                old(self)@.nodes.len() as NodeRef,
            ) && final(self)@ == old(self)@.with_node(
                TrieNode {
                    data: Some(character),
                    count: 1,
                    max_depth: (old(self)@.depth(idx) + 1) as usize,
                },
            ).linked(idx, old(self)@.nodes.len() as NodeRef),
            !old(self)@.attached(idx) ==> result == Err::<NodeRef, EditNodeError>(
                EditNodeError::NodeDeleted(idx),
            ) && final(self)@ == old(self)@,
    {
        let child = TrieNode {
            data: Some(character),
            count: 1,
            max_depth: self.get_value(idx).max_depth + 1,
        };
        self.add_child(idx, child)
    }

    /// The parent of `idx` that has the greatest depth. Of several parents
    /// with that depth, the one that `idx` lists first is returned; `None`
    /// if `idx` has no parent.
    pub fn find_maximum_depth_parent(&self, idx: TrieNodeRef) -> (found: Option<TrieNodeRef>)
        requires
            self.wf(),
            self@.has(idx),
        ensures
            found == self@.deepest_parent(idx),
            match found {
                Some(p) => exists|i: int|
                    0 <= i < self@.parents(idx).len() && #[trigger] self@.parents(idx)[i] == p
                        && (forall|j: int|
                        0 <= j < self@.parents(idx).len() ==> self@.depth(
                            #[trigger] self@.parents(idx)[j],
                        ) <= self@.depth(p)) && forall|j: int|
                        0 <= j < i ==> self@.depth(#[trigger] self@.parents(idx)[j]) < self@.depth(p),
                None => self@.parents(idx).len() == 0,
            },
    {
        let node = self.get_node(idx);
        let ghost ps = self@.parents(idx);
        proof {
            self@.lemma_deepest_among(ps);
        }
        let mut maximum_parent: Option<TrieNodeRef> = None;
        let mut i: usize = 0;
        while i < node.parents.len()
            invariant
                self.wf(),
                self@.has(idx),
                node@ == self@.nodes[idx as int],
                ps == self@.parents(idx),
                i <= ps.len(),
                maximum_parent == self@.deepest_among(ps.subrange(0, i as int)),
                maximum_parent is Some ==> self@.has(maximum_parent->0),
            decreases ps.len() - i,
        {
            let parent = node.parents[i];
            proof {
                assert(ps.contains(ps[i as int]));
                assert(self@.node_wf(idx));
                assert(ps.subrange(0, i + 1).drop_last() =~= ps.subrange(0, i as int));
                assert(ps.subrange(0, i + 1).last() == parent);
            }
            match maximum_parent {
                None => {
                    maximum_parent = Some(parent);
                },
                Some(current_maximum_ref) => {
                    if self.get_value(current_maximum_ref).max_depth < self.get_value(
                        parent,
                    ).max_depth {
                        maximum_parent = Some(parent);
                    }
                },
            }
            i += 1;
        }
        assert(ps.subrange(0, i as int) =~= ps);
        maximum_parent
    }

    /// The way from the root down to `idx` along the deepest parents (see
    /// `find_maximum_depth_parent`): the nodes below the root on that way,
    /// in order, `idx` last. For the root the way is empty.
    pub fn find_longest_path_to_node(&self, idx: TrieNodeRef) -> (path: Vec<TrieNodeRef>)
        requires
            self@.is_trie(),
            self@.attached(idx),
        ensures
            path@ == self@.longest_path(idx),
    {
        let mut upward: Vec<TrieNodeRef> = Vec::new();
        let mut at = idx;
        let mut next = self.find_maximum_depth_parent(at);
        while next.is_some()
            invariant
                self@.is_trie(),
                self@.has(at),
                next == self@.deepest_parent(at),
                self@.longest_path(idx) == self@.longest_path(at) + upward@.reverse(),
            decreases self@.depth(at),
        {
            let parent = next.unwrap();
            proof {
                self@.lemma_parent_is_shallower(at);
                let before = upward@;
                let after = before.push(at);
                assert(after.reverse() =~= seq![at] + before.reverse());
                assert(self@.longest_path(parent).push(at) + before.reverse()
                    =~= self@.longest_path(parent) + after.reverse());
            }
            upward.push(at);
            at = parent;
            next = self.find_maximum_depth_parent(at);
        }
        assert(self@.longest_path(at) =~= Seq::<NodeRef>::empty());
        assert(self@.longest_path(idx) =~= upward@.reverse());
        let mut path: Vec<TrieNodeRef> = Vec::new();
        let mut i: usize = upward.len();
        while i > 0
            invariant
                i <= upward@.len(),
                path@.len() == upward@.len() - i,
                forall|k: int| 0 <= k < path@.len() ==> path@[k] == upward@[upward@.len() - 1 - k],
            decreases i,
        {
            i -= 1;
            path.push(upward[i]);
        }
        assert(path@ =~= upward@.reverse());
        path
    }
}

} // verus!
