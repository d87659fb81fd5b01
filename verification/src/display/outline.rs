//! What the browser shows of a trie: for each node a line, in which a
//! chain of nodes that always occur together is drawn together, and
//! below it the lines of its children, the most frequent first.

use crate::graph::{Graph, NodeRef};
use crate::lazy::{Lazy, LazySupplier};
use crate::tree::LazyTree;
use crate::trie::{string_of_char, Trie, TrieNode, TrieNodeRef};
use std::rc::Rc;
use vstd::prelude::*;
use vstd::string::*;

verus! {

impl Graph<TrieNode> {
    /// `sorted` with `x` behind the last node that counts at least as
    /// much as `x`.
    pub open spec fn placed(self, sorted: Seq<NodeRef>, x: NodeRef) -> Seq<NodeRef>
        decreases sorted.len(),
    {
        if sorted.len() == 0 {
            seq![x]
        } else if self.count(sorted.last()) >= self.count(x) {
            sorted.push(x)
        } else {
            self.placed(sorted.drop_last(), x).push(sorted.last())
        }
    }

    /// The nodes in the order of falling count; nodes with one count
    /// keep their order.
    pub open spec fn by_falling_count(self, nodes: Seq<NodeRef>) -> Seq<NodeRef>
        decreases nodes.len(),
    {
        if nodes.len() == 0 {
            nodes
        } else {
            self.placed(self.by_falling_count(nodes.drop_last()), nodes.last())
        }
    }

    /// The counts do not rise along the sequence.
    pub open spec fn falling(self, nodes: Seq<NodeRef>) -> bool {
        forall|i: int, j: int|
            0 <= i < j < nodes.len() ==> self.count(#[trigger] nodes[i]) >= self.count(
                #[trigger] nodes[j],
            )
    }

    /// `placed` puts `x` at the place `at` if every node from there on
    /// counts less than `x` and the node before counts at least as much.
    pub proof fn lemma_placed_at(self, sorted: Seq<NodeRef>, x: NodeRef, at: int)
        requires
            0 <= at <= sorted.len(),
            forall|k: int| at <= k < sorted.len() ==> self.count(#[trigger] sorted[k]) < self.count(x),
            at > 0 ==> self.count(sorted[at - 1]) >= self.count(x),
        ensures
            self.placed(sorted, x) == sorted.insert(at, x),
        decreases sorted.len(),
    {
        if sorted.len() == 0 {
            assert(sorted.insert(0, x) =~= seq![x]);
        } else if at == sorted.len() {
            assert(sorted.insert(at, x) =~= sorted.push(x));
        } else {
            assert(self.count(sorted[sorted.len() - 1]) < self.count(x));
            let front = sorted.drop_last();
            self.lemma_placed_at(front, x, at);
            assert(front.insert(at, x).push(sorted.last()) =~= sorted.insert(at, x));
        }
    }

    /// Placing a node keeps the order of falling count, and adds this
    /// node and no other.
    pub proof fn lemma_placed(self, sorted: Seq<NodeRef>, x: NodeRef)
        requires
            self.falling(sorted),
        ensures
            self.falling(self.placed(sorted, x)),
            self.placed(sorted, x).len() == sorted.len() + 1,
            forall|y: NodeRef|
                self.placed(sorted, x).contains(y) <==> (sorted.contains(y) || y == x),
        decreases sorted.len(),
    {
        let r = self.placed(sorted, x);
        if sorted.len() == 0 {
            assert forall|y: NodeRef| r.contains(y) <==> (sorted.contains(y) || y == x) by {
                assert(r[0] == x);
            }
        } else if self.count(sorted.last()) >= self.count(x) {
            assert(sorted[sorted.len() - 1] == sorted.last());
            assert forall|y: NodeRef| r.contains(y) <==> (sorted.contains(y) || y == x) by {
                assert(r[sorted.len() as int] == x);
                if sorted.contains(y) {
                    let i = choose|i: int| 0 <= i < sorted.len() && sorted[i] == y;
                    assert(r[i] == y);
                }
                if r.contains(y) {
                    let i = choose|i: int| 0 <= i < r.len() && r[i] == y;
                    if i < sorted.len() {
                        assert(sorted[i] == y);
                    }
                }
            }
        } else {
            let front = sorted.drop_last();
            assert(self.falling(front)) by {
                assert forall|i: int, j: int| 0 <= i < j < front.len() implies self.count(
                    #[trigger] front[i],
                ) >= self.count(#[trigger] front[j]) by {
                    assert(front[i] == sorted[i] && front[j] == sorted[j]);
                }
            }
            self.lemma_placed(front, x);
            let inner = self.placed(front, x);
            assert(sorted[sorted.len() - 1] == sorted.last());
            assert forall|i: int, j: int| 0 <= i < j < r.len() implies self.count(
                #[trigger] r[i],
            ) >= self.count(#[trigger] r[j]) by {
                if j < inner.len() {
                    assert(r[i] == inner[i] && r[j] == inner[j]);
                } else {
                    assert(r[i] == inner[i]);
                    assert(inner.contains(inner[i]));
                    if inner[i] != x {
                        assert(front.contains(inner[i]));
                        let k = choose|k: int| 0 <= k < front.len() && front[k] == inner[i];
                        assert(sorted[k] == inner[i]);
                    }
                }
            }
            assert forall|y: NodeRef| r.contains(y) <==> (sorted.contains(y) || y == x) by {
                assert(r[inner.len() as int] == sorted.last());
                if inner.contains(y) {
                    let i = choose|i: int| 0 <= i < inner.len() && inner[i] == y;
                    assert(r[i] == y);
                }
                if front.contains(y) {
                    let i = choose|i: int| 0 <= i < front.len() && front[i] == y;
                    assert(sorted[i] == y);
                }
                if sorted.contains(y) {
                    let i = choose|i: int| 0 <= i < sorted.len() && sorted[i] == y;
                    if i < front.len() {
                        assert(front[i] == y);
                    }
                }
                if r.contains(y) {
                    let i = choose|i: int| 0 <= i < r.len() && r[i] == y;
                    if i < inner.len() {
                        assert(inner[i] == y);
                    }
                }
            }
        }
    }

    /// The order of falling count holds the same nodes, as many of them,
    /// and the counts do not rise along it.
    pub proof fn lemma_by_falling_count(self, nodes: Seq<NodeRef>)
        ensures
            self.falling(self.by_falling_count(nodes)),
            self.by_falling_count(nodes).len() == nodes.len(),
            forall|y: NodeRef| self.by_falling_count(nodes).contains(y) <==> nodes.contains(y),
        decreases nodes.len(),
    {
        if nodes.len() > 0 {
            let front = nodes.drop_last();
            self.lemma_by_falling_count(front);
            self.lemma_placed(self.by_falling_count(front), nodes.last());
            assert forall|y: NodeRef| self.by_falling_count(nodes).contains(y) <==> nodes.contains(
                y,
            ) by {
                assert(nodes[nodes.len() - 1] == nodes.last());
                if front.contains(y) {
                    let i = choose|i: int| 0 <= i < front.len() && front[i] == y;
                    assert(nodes[i] == y);
                }
                if nodes.contains(y) {
                    let i = choose|i: int| 0 <= i < nodes.len() && nodes[i] == y;
                    if i < front.len() {
                        assert(front[i] == y);
                    }
                }
            }
        }
    }
}

impl Trie {
    /// The children of `node` in the order of falling count; children
    /// with one count keep the order in which the node lists them.
    pub fn children_by_count(&self, node: TrieNodeRef) -> (sorted: Vec<TrieNodeRef>)
        requires
            self.wf(),
            self@.has(node),
        ensures
            sorted@ == self@.by_falling_count(self@.children(node)),
            self@.falling(sorted@),
            sorted@.len() == self@.children(node).len(),
            forall|y: NodeRef| sorted@.contains(y) <==> self@.children(node).contains(y),
    {
        let kids = &self.get_node(node).children;
        let mut sorted: Vec<TrieNodeRef> = Vec::new();
        let mut i: usize = 0;
        proof {
            assert(self@.node_wf(node));
            assert(kids@.take(0) =~= Seq::<NodeRef>::empty());
        }
        while i < kids.len()
            invariant
                i <= kids@.len(),
                kids@ == self@.children(node),
                self.wf(),
                self@.has(node),
                sorted@ == self@.by_falling_count(kids@.take(i as int)),
            decreases kids@.len() - i,
        {
            let x = kids[i];
            let ghost before = sorted@;
            proof {
                assert(self@.node_wf(node));
                assert(kids@.contains(kids@[i as int]));
                assert(kids@.take(i + 1).drop_last() =~= kids@.take(i as int));
                assert(kids@.take(i + 1).last() == x);
                self@.lemma_by_falling_count(kids@.take(i as int));
                assert forall|k: int| 0 <= k < before.len() implies self@.has(
                    #[trigger] before[k],
                ) by {
                    assert(before.contains(before[k]));
                    assert(kids@.take(i as int).contains(before[k]));
                    let m = choose|m: int|
                        0 <= m < kids@.take(i as int).len() && kids@.take(i as int)[m] == before[k];
                    assert(kids@.contains(kids@[m]));
                }
            }
            let count = self.get_value(x).count;
            let mut at: usize = sorted.len();
            while at > 0 && self.get_value(sorted[at - 1]).count < count
                invariant
                    at <= sorted@.len(),
                    sorted@ == before,
                    self@.has(x),
                    count == self@.count(x),
                    forall|k: int| 0 <= k < before.len() ==> self@.has(#[trigger] before[k]),
                    forall|k: int|
                        at <= k < before.len() ==> self@.count(#[trigger] before[k]) < count,
                decreases at,
            {
                at -= 1;
            }
            proof {
                self@.lemma_placed_at(before, x, at as int);
            }
            sorted.insert(at, x);
            i += 1;
        }
        proof {
            assert(kids@.take(kids@.len() as int) =~= kids@);
            self@.lemma_by_falling_count(kids@);
        }
        sorted
    }
}

impl Graph<TrieNode> {
    /// `cur` has one child, and that child has occurred as often as
    /// `top`: wherever `top` occurs, this child follows.
    pub open spec fn merges(self, top: NodeRef, cur: NodeRef) -> bool {
        self.children(cur).len() == 1 && self.count(self.children(cur)[0]) == self.count(top)
    }

    /// The nodes that are drawn together with `top`, from `cur` on: the
    /// only child of `cur` if it has occurred as often as `top`, then
    /// the only child of that child on the same condition, and so on.
    pub open spec fn chain(self, top: NodeRef, cur: NodeRef) -> Seq<NodeRef>
        decreases usize::MAX - self.depth(cur),
        when self.is_trie() && self.has(cur)
    {
        if self.merges(top, cur) {
            let kid = self.children(cur)[0];
            proof {
                assert(self.children(cur).contains(kid));
                assert(self.trie_node(cur));
            }
            seq![kid] + self.chain(top, kid)
        } else {
            Seq::empty()
        }
    }

    /// The children that are shown below `top`: its own in the order of
    /// falling count, or, where nodes are drawn together with it, those
    /// of the last of them, in its order.
    pub open spec fn shown_children(self, top: NodeRef) -> Seq<NodeRef> {
        let chain = self.chain(top, top);
        if chain.len() == 0 {
            self.by_falling_count(self.children(top))
        } else {
            self.children(chain.last())
        }
    }

    /// What stands for a node by itself: its character, or a word for
    /// the root.
    pub open spec fn label(self, n: NodeRef) -> Seq<char> {
        match self.data(n) {
            Some(character) => seq![character],
            None => "<root>"@,
        }
    }

    /// The characters of the nodes, in order.
    pub open spec fn letters(self, nodes: Seq<NodeRef>) -> Seq<char>
        decreases nodes.len(),
    {
        if nodes.len() == 0 {
            Seq::empty()
        } else {
            self.letters(nodes.drop_last()) + match self.data(nodes.last()) {
                Some(character) => seq![character],
                None => Seq::empty(),
            }
        }
    }
}

/// One line of the browser.
pub struct UIStateNode {
    pub selected: bool,
    pub expanded: bool,
    /// What the line says: the node's label, then the characters of the
    /// nodes drawn together with it.
    pub text: String,
    /// The node and the nodes drawn together with it.
    pub merged_refs: Vec<TrieNodeRef>,
    pub count: usize,
    pub max_depth: usize,
    /// The way from the root to the node along the deepest parents.
    pub longest_path: Vec<TrieNodeRef>,
}

impl UIStateNode {
    /// The line is the line of the node `node` of the trie `g`, not
    /// expanded.
    pub open spec fn outlines(&self, g: Graph<TrieNode>, node: NodeRef, selected: bool) -> bool {
        &&& self.selected == selected
        &&& !self.expanded
        &&& self.text@ == g.label(node) + g.letters(g.chain(node, node))
        &&& self.merged_refs@ == seq![node] + g.chain(node, node)
        &&& self.count == g.count(node)
        &&& self.max_depth == g.depth(node)
        &&& self.longest_path@ == g.longest_path(node)
    }
}

/// Makes the lines of the children of a line when they are asked for.
pub struct TrieChildren {
    trie: Rc<Trie>,
    children: Vec<TrieNodeRef>,
}

/// The tree of the lines of the browser.
pub type UITree = LazyTree<UIStateNode, TrieChildren>;

impl TrieChildren {
    #[verifier::type_invariant]
    spec fn ready(&self) -> bool {
        &&& self.trie@.is_trie()
        &&& forall|i: int|
            0 <= i < self.children@.len() ==> self.trie@.attached(#[trigger] self.children@[i])
    }

    /// The trie whose nodes the lines are of.
    pub closed spec fn graph(&self) -> Graph<TrieNode> {
        self.trie@
    }

    /// The nodes whose lines will be made.
    pub closed spec fn refs(&self) -> Seq<NodeRef> {
        self.children@
    }
}

impl LazySupplier<Vec<UITree>> for TrieChildren {
    /// One line for each node, in order, none of them selected.
    open spec fn supplies(&self, value: Vec<UITree>) -> bool {
        &&& value@.len() == self.refs().len()
        &&& forall|i: int|
            0 <= i < value@.len() ==> is_line_of(#[trigger] value@[i], self.graph(), self.refs()[i], false)
    }

    fn supply(&self) -> (value: Vec<UITree>) {
        proof {
            use_type_invariant(self);
        }
        let mut value: Vec<UITree> = Vec::new();
        let mut i: usize = 0;
        while i < self.children.len()
            invariant
                i <= self.children@.len(),
                self.trie@.is_trie(),
                forall|k: int|
                    0 <= k < self.children@.len() ==> self.trie@.attached(
                        #[trigger] self.children@[k],
                    ),
                value@.len() == i,
                forall|k: int|
                    0 <= k < i ==> is_line_of(
                        #[trigger] value@[k],
                        self.trie@,
                        self.children@[k],
                        false,
                    ),
            decreases self.children@.len() - i,
        {
            assert(self.trie@.attached(self.children@[i as int]));
            let line = new_tree(self.trie.clone(), self.children[i], false);
            value.push(line);
            i += 1;
        }
        value
    }
}

/// `tree` is the line of the node `node` of `g`, with its children not
/// made yet; when they are made they will be the lines of the children
/// shown below the node.
pub open spec fn is_line_of(tree: UITree, g: Graph<TrieNode>, node: NodeRef, selected: bool) -> bool {
    &&& tree.value.outlines(g, node, selected)
    &&& tree.children.t is None
    &&& tree.children.supplier.graph() == g
    &&& tree.children.supplier.refs() == g.shown_children(node)
}

/// The line of the node `node_ref`, with the lines of its children still
/// to be made.
pub fn new_tree(trie: Rc<Trie>, node_ref: TrieNodeRef, selected: bool) -> (tree: UITree)
    requires
        trie@.is_trie(),
        trie@.attached(node_ref),
    ensures
        is_line_of(tree, trie@, node_ref, selected),
{
    let ghost g = trie@;
    let top_count = trie.get_value(node_ref).count;
    let mut children = trie.children_by_count(node_ref);
    let mut text = match trie.get_value(node_ref).data {
        Some(character) => string_of_char(character),
        None => String::from_str("<root>"),
    };
    let mut refs: Vec<TrieNodeRef> = Vec::new();
    refs.push(node_ref);
    let mut cur = node_ref;
    proof {
        g.lemma_by_falling_count(g.children(node_ref));
        assert(g.node_wf(node_ref));
        assert(refs@ =~= seq![node_ref] + Seq::<NodeRef>::empty());
        assert(g.letters(Seq::<NodeRef>::empty()) =~= Seq::<char>::empty());
        assert(text@ =~= g.label(node_ref) + g.letters(refs@.skip(1)));
        lemma_single_sorted(g, g.children(node_ref));
        assert forall|k: int| 0 <= k < children@.len() implies g.attached(
            #[trigger] children@[k],
        ) by {
            assert(children@.contains(children@[k]));
            assert(g.children(node_ref).contains(children@[k]));
            assert(g.parents(children@[k]).contains(node_ref));
        }
    }
    while children.len() == 1 && trie.get_value(children[0]).count == top_count
        invariant
            g == trie@,
            g.is_trie(),
            g.has(node_ref),
            g.has(cur),
            g.attached(cur),
            top_count == g.count(node_ref),
            refs@.len() >= 1,
            refs@[0] == node_ref,
            refs@.last() == cur,
            g.chain(node_ref, node_ref) == refs@.skip(1) + g.chain(node_ref, cur),
            children@.len() == g.children(cur).len(),
            children@.len() == 1 ==> children@[0] == g.children(cur)[0],
            children@ == if refs@.len() == 1 {
                g.by_falling_count(g.children(node_ref))
            } else {
                g.children(cur)
            },
            forall|k: int| 0 <= k < children@.len() ==> g.attached(#[trigger] children@[k]),
            text@ == g.label(node_ref) + g.letters(refs@.skip(1)),
        decreases usize::MAX - g.depth(cur),
    {
        let child = children[0];
        let ghost before = refs@;
        proof {
            assert(g.children(cur).contains(child));
            assert(g.node_wf(cur));
            assert(g.trie_node(cur));
            assert(g.trie_node(child));
            assert(g.node_wf(child));
            assert(g.merges(node_ref, cur));
            assert(child != g.root) by {
                assert(g.parents(child).contains(cur));
                if child == g.root {
                    assert(g.depth(cur) < g.depth(child));
                }
            }
        }
        match trie.get_value(child).data {
            Some(character) => {
                let letter = string_of_char(character);
                text.append(letter.as_str());
            },
            None => {},
        }
        refs.push(child);
        children = trie.get_node(child).children.clone();
        cur = child;
        proof {
            assert(refs@.skip(1) =~= before.skip(1).push(child));
            assert(refs@.skip(1).drop_last() =~= before.skip(1));
            assert(g.chain(node_ref, node_ref) =~= refs@.skip(1) + g.chain(node_ref, child));
            assert forall|k: int| 0 <= k < children@.len() implies g.attached(
                #[trigger] children@[k],
            ) by {
                assert(g.children(child).contains(children@[k]));
                assert(g.parents(children@[k]).contains(child));
            }
        }
    }
    proof {
        assert(!g.merges(node_ref, cur));
        assert(g.chain(node_ref, cur) =~= Seq::<NodeRef>::empty());
        assert(g.chain(node_ref, node_ref) =~= refs@.skip(1));
        assert(refs@ =~= seq![node_ref] + refs@.skip(1));
        if refs@.len() > 1 {
            assert(refs@.skip(1).last() == cur);
        }
    }
    let max_depth = trie.get_value(node_ref).max_depth;
    let longest_path = trie.find_longest_path_to_node(node_ref);
    let value = UIStateNode {
        selected,
        expanded: false,
        text,
        merged_refs: refs,
        count: top_count,
        max_depth,
        longest_path,
    };
    LazyTree { value, children: Lazy { t: None, supplier: TrieChildren { trie, children } } }
}

/// A list of one node is in the order of falling count as it stands.
pub proof fn lemma_single_sorted(g: Graph<TrieNode>, nodes: Seq<NodeRef>)
    ensures
        nodes.len() == 1 ==> g.by_falling_count(nodes) == nodes,
{
    if nodes.len() == 1 {
        let front = nodes.drop_last();
        assert(front.len() == 0);
        assert(g.by_falling_count(front) == front);
        assert(g.placed(front, nodes.last()) == seq![nodes.last()]);
        assert(seq![nodes.last()] =~= nodes);
    }
}

} // verus!
