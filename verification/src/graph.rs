//! The mathematical model of a shared-node graph: a table of nodes, each
//! with a value, the references of its parents and the references of its
//! children. Every contract of the arena and of the trie is stated over it.

use vstd::prelude::*;

verus! {

/// A stable reference to a node: its position in the table.
pub type NodeRef = usize;

/// `s` with `x` at its end, unless `s` already holds `x`.
pub open spec fn inserted(s: Seq<NodeRef>, x: NodeRef) -> Seq<NodeRef> {
    if s.contains(x) {
        s
    } else {
        s.push(x)
    }
}

/// `s` without any occurrence of `x`; what stays keeps its order.
pub open spec fn without(s: Seq<NodeRef>, x: NodeRef) -> Seq<NodeRef>
    decreases s.len(),
{
    if s.len() == 0 {
        s
    } else if s.last() == x {
        without(s.drop_last(), x)
    } else {
        without(s.drop_last(), x).push(s.last())
    }
}

/// What is left after `x` is taken out is what was there, but `x`.
pub proof fn lemma_without_contains(s: Seq<NodeRef>, x: NodeRef, y: NodeRef)
    ensures
        without(s, x).contains(y) <==> (s.contains(y) && y != x),
    decreases s.len(),
{
    if s.len() > 0 {
        let t = s.drop_last();
        lemma_without_contains(t, x, y);
        if s.contains(y) {
            let i = choose|i: int| 0 <= i < s.len() && s[i] == y;
            if i < s.len() - 1 {
                assert(t[i] == y);
            }
        }
        if t.contains(y) {
            let i = choose|i: int| 0 <= i < t.len() && t[i] == y;
            assert(s[i] == y);
        }
        if s.last() != x {
            let w = without(t, x);
            if w.contains(y) {
                let i = choose|i: int| 0 <= i < w.len() && w[i] == y;
                assert(w.push(s.last())[i] == y);
            }
            assert(w.push(s.last())[w.len() as int] == s.last());
            if w.push(s.last()).contains(y) {
                let i = choose|i: int| 0 <= i < w.push(s.last()).len() && w.push(s.last())[i] == y;
                if i < w.len() {
                    assert(w[i] == y);
                }
            }
            assert(s[s.len() - 1] == s.last());
        }
    }
}

/// Taking out makes nothing longer, and shorter what held `x`.
pub proof fn lemma_without_len(s: Seq<NodeRef>, x: NodeRef)
    ensures
        without(s, x).len() <= s.len(),
        s.contains(x) ==> without(s, x).len() < s.len(),
    decreases s.len(),
{
    if s.len() > 0 {
        let t = s.drop_last();
        lemma_without_len(t, x);
        if s.contains(x) && s.last() != x {
            let i = choose|i: int| 0 <= i < s.len() && s[i] == x;
            assert(t[i] == x);
        }
    }
}

/// Taking out what is not there changes nothing.
pub proof fn lemma_without_absent(s: Seq<NodeRef>, x: NodeRef)
    requires
        !s.contains(x),
    ensures
        without(s, x) == s,
    decreases s.len(),
{
    if s.len() > 0 {
        let t = s.drop_last();
        assert(s[s.len() - 1] == s.last());
        assert forall|i: int| 0 <= i < t.len() implies t[i] != x by {
            assert(s[i] == t[i]);
        }
        lemma_without_absent(t, x);
        assert(t.push(s.last()) =~= s);
    }
}

/// Taking out brings no duplicates in.
pub proof fn lemma_without_no_duplicates(s: Seq<NodeRef>, x: NodeRef)
    requires
        s.no_duplicates(),
    ensures
        without(s, x).no_duplicates(),
    decreases s.len(),
{
    if s.len() > 0 {
        let t = s.drop_last();
        lemma_without_no_duplicates(t, x);
        if s.last() != x {
            let w = without(t, x);
            lemma_without_contains(t, x, s.last());
            if t.contains(s.last()) {
                let i = choose|i: int| 0 <= i < t.len() && t[i] == s.last();
                assert(s[i] == s[s.len() - 1]);
            }
            assert forall|i: int, j: int|
                0 <= i < w.len() + 1 && 0 <= j < w.len() + 1 && i != j implies w.push(s.last())[i]
                != w.push(s.last())[j] by {
                if i < w.len() {
                    assert(w.contains(w[i]));
                }
                if j < w.len() {
                    assert(w.contains(w[j]));
                }
            }
        }
    }
}

/// Without duplicates, taking `x` out is removing the one position that
/// holds it.
pub proof fn lemma_without_is_remove(s: Seq<NodeRef>, x: NodeRef, i: int)
    requires
        s.no_duplicates(),
        0 <= i < s.len(),
        s[i] == x,
    ensures
        without(s, x) == s.remove(i),
    decreases s.len(),
{
    let t = s.drop_last();
    if i == s.len() - 1 {
        assert forall|j: int| 0 <= j < t.len() implies t[j] != x by {
            assert(s[j] == t[j]);
        }
        lemma_without_absent(t, x);
        assert(s.remove(i) =~= t);
    } else {
        assert(s.last() == s[s.len() - 1]);
        lemma_without_is_remove(t, x, i);
        assert(t.remove(i).push(s.last()) =~= s.remove(i));
    }
}

/// After an insertion the sequence holds what it held, and `x`.
pub proof fn lemma_inserted_contains(s: Seq<NodeRef>, x: NodeRef, y: NodeRef)
    ensures
        inserted(s, x).contains(y) <==> (s.contains(y) || y == x),
{
    if !s.contains(x) {
        let t = s.push(x);
        assert(t[s.len() as int] == x);
        if s.contains(y) {
            let i = choose|i: int| 0 <= i < s.len() && s[i] == y;
            assert(t[i] == y);
        }
        if t.contains(y) {
            let i = choose|i: int| 0 <= i < t.len() && t[i] == y;
            if i < s.len() {
                assert(s[i] == y);
            }
        }
    }
}

/// An insertion brings no duplicates in.
pub proof fn lemma_inserted_no_duplicates(s: Seq<NodeRef>, x: NodeRef)
    requires
        s.no_duplicates(),
    ensures
        inserted(s, x).no_duplicates(),
{
    if !s.contains(x) {
        let t = s.push(x);
        assert forall|i: int, j: int| 0 <= i < t.len() && 0 <= j < t.len() && i != j implies t[i]
            != t[j] by {
            if i < s.len() {
                assert(s.contains(s[i]));
            }
            if j < s.len() {
                assert(s.contains(s[j]));
            }
        }
    }
}

/// The model of one node.
pub struct NodeView<T> {
    pub value: T,
    pub parents: Seq<NodeRef>,
    pub children: Seq<NodeRef>,
}

/// The model of the whole table, with the reference of its root.
pub struct Graph<T> {
    pub nodes: Seq<NodeView<T>>,
    pub root: NodeRef,
}

/// The number of child references held by all the nodes of a table.
pub open spec fn degree_sum<T>(nodes: Seq<NodeView<T>>) -> nat
    decreases nodes.len(),
{
    if nodes.len() == 0 {
        0
    } else {
        degree_sum(nodes.drop_last()) + nodes.last().children.len()
    }
}

/// Another node in one place changes the number of child references by
/// the difference between the two nodes.
pub proof fn lemma_degree_sum_update<T>(nodes: Seq<NodeView<T>>, i: int, node: NodeView<T>)
    requires
        0 <= i < nodes.len(),
    ensures
        degree_sum(nodes.update(i, node)) + nodes[i].children.len() == degree_sum(nodes)
            + node.children.len(),
    decreases nodes.len(),
{
    let after = nodes.update(i, node);
    if i == nodes.len() - 1 {
        assert(after.drop_last() =~= nodes.drop_last());
    } else {
        lemma_degree_sum_update(nodes.drop_last(), i, node);
        assert(after.drop_last() =~= nodes.drop_last().update(i, node));
    }
}

impl<T> Graph<T> {
    /// `n` refers to a node of the table.
    pub open spec fn has(self, n: NodeRef) -> bool {
        n < self.nodes.len()
    }

    /// The value of the node `n`.
    pub open spec fn value(self, n: NodeRef) -> T {
        self.nodes[n as int].value
    }

    /// The parents that the node `n` lists.
    pub open spec fn parents(self, n: NodeRef) -> Seq<NodeRef> {
        self.nodes[n as int].parents
    }

    /// The children that the node `n` lists.
    pub open spec fn children(self, n: NodeRef) -> Seq<NodeRef> {
        self.nodes[n as int].children
    }

    /// `c` is listed as a child of `p`.
    pub open spec fn edge(self, p: NodeRef, c: NodeRef) -> bool {
        self.has(p) && self.children(p).contains(c)
    }

    /// The node lists nothing twice, and each of its links is held from
    /// the other end too.
    pub open spec fn node_wf(self, n: NodeRef) -> bool {
        &&& self.children(n).no_duplicates()
        &&& self.parents(n).no_duplicates()
        &&& forall|c: NodeRef| #[trigger]
            self.children(n).contains(c) ==> self.has(c) && self.parents(c).contains(n)
        &&& forall|p: NodeRef| #[trigger]
            self.parents(n).contains(p) ==> self.has(p) && self.children(p).contains(n)
    }

    /// The table's invariant: the root exists and every node is well formed.
    pub open spec fn wf(self) -> bool {
        &&& self.nodes.len() <= usize::MAX
        &&& self.has(self.root)
        &&& forall|n: NodeRef| self.has(n) ==> #[trigger] self.node_wf(n)
    }

    /// The root, or a node that some parent still refers to.
    pub open spec fn attached(self, n: NodeRef) -> bool {
        self.has(n) && (n == self.root || self.parents(n).len() > 0)
    }

    /// A node other than the root that no parent refers to.
    pub open spec fn orphaned(self, n: NodeRef) -> bool {
        self.has(n) && n != self.root && self.parents(n).len() == 0
    }

    /// The number of edges of the graph.
    pub open spec fn edge_count(self) -> nat {
        degree_sum(self.nodes)
    }

    /// The graph with another value at the node `n`.
    pub open spec fn with_value(self, n: NodeRef, value: T) -> Graph<T> {
        if self.has(n) {
            Graph {
                nodes: self.nodes.update(n as int, NodeView { value, ..self.nodes[n as int] }),
                ..self
            }
        } else {
            self
        }
    }

    /// The graph with another list of parents at the node `n`.
    pub open spec fn with_parents(self, n: NodeRef, parents: Seq<NodeRef>) -> Graph<T> {
        if self.has(n) {
            Graph {
                nodes: self.nodes.update(n as int, NodeView { parents, ..self.nodes[n as int] }),
                ..self
            }
        } else {
            self
        }
    }

    /// The graph with another list of children at the node `n`.
    pub open spec fn with_children(self, n: NodeRef, children: Seq<NodeRef>) -> Graph<T> {
        if self.has(n) {
            Graph {
                nodes: self.nodes.update(n as int, NodeView { children, ..self.nodes[n as int] }),
                ..self
            }
        } else {
            self
        }
    }

    /// The table with one more node, which has no links.
    pub open spec fn with_node(self, value: T) -> Graph<T> {
        Graph {
            nodes: self.nodes.push(
                NodeView { value, parents: Seq::empty(), children: Seq::empty() },
            ),
            ..self
        }
    }

    /// The graph with the edge from `p` to `c`, held at both ends.
    pub open spec fn linked(self, p: NodeRef, c: NodeRef) -> Graph<T> {
        let g = self.with_parents(c, inserted(self.parents(c), p));
        g.with_children(p, inserted(g.children(p), c))
    }

    /// The graph without the edge from `p` to `c`, at either end.
    pub open spec fn unlinked(self, p: NodeRef, c: NodeRef) -> Graph<T> {
        let g = self.with_parents(c, without(self.parents(c), p));
        g.with_children(p, without(g.children(p), c))
    }

    /// Reference-count collection. `work` lists nodes whose outgoing edges
    /// are to go. The last of them loses its last child edge; a child that
    /// is left without a parent by this (and is not the root) joins the
    /// list. This repeats until the list is used up.
    pub open spec fn swept(self, work: Seq<NodeRef>) -> Graph<T>
        decreases self.edge_count(), work.len(),
    {
        if work.len() == 0 {
            self
        } else {
            let n = work.last();
            if !self.has(n) || self.children(n).len() == 0 {
                self.swept(work.drop_last())
            } else {
                let c = self.children(n).last();
                let g = self.unlinked(n, c);
                proof {
                    self.lemma_unlinked_edge_count(n, c);
                }
                if g.orphaned(c) {
                    g.swept(work.push(c))
                } else {
                    g.swept(work)
                }
            }
        }
    }

    /// The graph after the edge from `p` to `c` is taken out and, where
    /// this leaves `c` without a parent, after everything that only `c`
    /// kept reachable is unlinked as well.
    pub open spec fn removed(self, p: NodeRef, c: NodeRef) -> Graph<T> {
        let g = self.unlinked(p, c);
        if g.orphaned(c) {
            g.swept(seq![c])
        } else {
            g
        }
    }

    /// The table with one more node, which has the given value, no parent,
    /// and the children of `n`; each of those children names the new node
    /// as one more parent.
    pub open spec fn copied(self, n: NodeRef, value: T) -> Graph<T> {
        let fresh = self.nodes.len() as NodeRef;
        Graph {
            nodes: Seq::new(
                self.nodes.len() + 1,
                |i: int|
                    if i == self.nodes.len() {
                        NodeView { value, parents: Seq::empty(), children: self.children(n) }
                    } else if self.children(n).contains(i as NodeRef) {
                        NodeView {
                            parents: self.nodes[i].parents.push(fresh),
                            ..self.nodes[i]
                        }
                    } else {
                        self.nodes[i]
                    },
            ),
            ..self
        }
    }

    /// Unlinking adds no edge, and takes one away where there was one.
    pub proof fn lemma_unlinked_edge_count(self, p: NodeRef, c: NodeRef)
        ensures
            self.unlinked(p, c).edge_count() <= self.edge_count(),
            self.edge(p, c) ==> self.unlinked(p, c).edge_count() < self.edge_count(),
    {
        let g = self.with_parents(c, without(self.parents(c), p));
        if self.has(c) {
            lemma_degree_sum_update(
                self.nodes,
                c as int,
                NodeView { parents: without(self.parents(c), p), ..self.nodes[c as int] },
            );
        }
        if g.has(p) {
            lemma_without_len(g.children(p), c);
            lemma_degree_sum_update(
                g.nodes,
                p as int,
                NodeView { children: without(g.children(p), c), ..g.nodes[p as int] },
            );
        }
    }
}

} // verus!

verus! {

impl<T> Graph<T> {
    /// One more node without links keeps the graph well formed.
    pub proof fn lemma_with_node_wf(self, value: T)
        requires
            self.wf(),
            self.nodes.len() < usize::MAX,
        ensures
            self.with_node(value).wf(),
    {
        let g = self.with_node(value);
        assert forall|n: NodeRef| g.has(n) implies #[trigger] g.node_wf(n) by {
            if n < self.nodes.len() {
                assert(self.node_wf(n));
            }
        }
    }

    /// Linking keeps the graph well formed.
    pub proof fn lemma_linked_wf(self, p: NodeRef, c: NodeRef)
        requires
            self.wf(),
            self.has(p),
            self.has(c),
        ensures
            self.linked(p, c).wf(),
    {
        let g = self.linked(p, c);
        assert(self.node_wf(p));
        assert(self.node_wf(c));
        lemma_inserted_no_duplicates(self.parents(c), p);
        lemma_inserted_no_duplicates(self.children(p), c);
        assert(g.parents(c) == inserted(self.parents(c), p));
        assert(g.children(p) == inserted(self.children(p), c));
        assert forall|n: NodeRef| g.has(n) implies #[trigger] g.node_wf(n) by {
            assert(self.node_wf(n));
            assert(g.children(n) == if n == p {
                inserted(self.children(p), c)
            } else {
                self.children(n)
            });
            assert(g.parents(n) == if n == c {
                inserted(self.parents(c), p)
            } else {
                self.parents(n)
            });
            assert forall|x: NodeRef| #[trigger] g.children(n).contains(x) implies g.has(x)
                && g.parents(x).contains(n) by {
                lemma_inserted_contains(self.children(p), c, x);
                lemma_inserted_contains(self.parents(c), p, n);
                if self.children(n).contains(x) {
                    assert(self.parents(x).contains(n));
                }
            }
            assert forall|x: NodeRef| #[trigger] g.parents(n).contains(x) implies g.has(x)
                && g.children(x).contains(n) by {
                lemma_inserted_contains(self.parents(c), p, x);
                lemma_inserted_contains(self.children(p), c, n);
                if self.parents(n).contains(x) {
                    assert(self.children(x).contains(n));
                }
            }
        }
    }

    /// Unlinking keeps the graph well formed.
    pub proof fn lemma_unlinked_wf(self, p: NodeRef, c: NodeRef)
        requires
            self.wf(),
            self.has(p),
            self.has(c),
        ensures
            self.unlinked(p, c).wf(),
    {
        let g = self.unlinked(p, c);
        assert(self.node_wf(p));
        assert(self.node_wf(c));
        lemma_without_no_duplicates(self.parents(c), p);
        lemma_without_no_duplicates(self.children(p), c);
        assert(g.parents(c) == without(self.parents(c), p));
        assert(g.children(p) == without(self.children(p), c));
        assert forall|n: NodeRef| g.has(n) implies #[trigger] g.node_wf(n) by {
            assert(self.node_wf(n));
            assert(g.children(n) == if n == p {
                without(self.children(p), c)
            } else {
                self.children(n)
            });
            assert(g.parents(n) == if n == c {
                without(self.parents(c), p)
            } else {
                self.parents(n)
            });
            assert forall|x: NodeRef| #[trigger] g.children(n).contains(x) implies g.has(x)
                && g.parents(x).contains(n) by {
                lemma_without_contains(self.children(p), c, x);
                lemma_without_contains(self.parents(c), p, n);
                assert(self.children(n).contains(x));
                assert(self.parents(x).contains(n));
            }
            assert forall|x: NodeRef| #[trigger] g.parents(n).contains(x) implies g.has(x)
                && g.children(x).contains(n) by {
                lemma_without_contains(self.parents(c), p, x);
                lemma_without_contains(self.children(p), c, n);
                assert(self.parents(n).contains(x));
                assert(self.children(x).contains(n));
            }
        }
    }

    /// Copying a node keeps the graph well formed.
    pub proof fn lemma_copied_wf(self, n: NodeRef, value: T)
        requires
            self.wf(),
            self.has(n),
            self.nodes.len() < usize::MAX,
        ensures
            self.copied(n, value).wf(),
    {
        let g = self.copied(n, value);
        let fresh = self.nodes.len() as NodeRef;
        assert(self.node_wf(n));
        assert forall|m: NodeRef| g.has(m) implies #[trigger] g.node_wf(m) by {
            if m == fresh {
                assert(g.children(m) == self.children(n));
                assert(g.parents(m) =~= Seq::<NodeRef>::empty());
                assert forall|x: NodeRef| #[trigger] g.children(m).contains(x) implies g.has(x)
                    && g.parents(x).contains(m) by {
                    assert(g.parents(x) == self.parents(x).push(fresh));
                    assert(g.parents(x)[self.parents(x).len() as int] == fresh);
                }
            } else {
                assert(self.node_wf(m));
                assert(g.children(m) == self.children(m));
                assert forall|x: NodeRef| #[trigger] g.children(m).contains(x) implies g.has(x)
                    && g.parents(x).contains(m) by {
                    assert(self.parents(x).contains(m));
                    let i = choose|i: int| 0 <= i < self.parents(x).len() && self.parents(x)[i] == m;
                    if self.children(n).contains(x) {
                        assert(g.parents(x) == self.parents(x).push(fresh));
                        assert(g.parents(x)[i] == m);
                    }
                }
                if self.children(n).contains(m) {
                    let ps = self.parents(m);
                    assert(g.parents(m) == ps.push(fresh));
                    assert(!ps.contains(fresh));
                    assert forall|i: int, j: int|
                        0 <= i < ps.len() + 1 && 0 <= j < ps.len() + 1 && i != j implies ps.push(
                        fresh,
                    )[i] != ps.push(fresh)[j] by {
                        if i < ps.len() {
                            assert(ps.contains(ps[i]));
                        }
                        if j < ps.len() {
                            assert(ps.contains(ps[j]));
                        }
                    }
                    assert forall|x: NodeRef| #[trigger] g.parents(m).contains(x) implies g.has(x)
                        && g.children(x).contains(m) by {
                        let i = choose|i: int| 0 <= i < ps.len() + 1 && ps.push(fresh)[i] == x;
                        if i < ps.len() {
                            assert(ps.contains(x));
                            assert(self.children(x).contains(m));
                        }
                    }
                } else {
                    assert(g.parents(m) == self.parents(m));
                    assert forall|x: NodeRef| #[trigger] g.parents(m).contains(x) implies g.has(x)
                        && g.children(x).contains(m) by {
                        assert(self.children(x).contains(m));
                    }
                }
            }
        }
    }

    /// `after` has the nodes of this graph with their values, and no edge
    /// that this graph does not have.
    pub open spec fn shrinks_to(self, after: Graph<T>) -> bool {
        &&& after.nodes.len() == self.nodes.len()
        &&& after.root == self.root
        &&& forall|n: NodeRef| self.has(n) ==> #[trigger] after.value(n) == self.value(n)
        &&& forall|n: NodeRef, x: NodeRef|
            self.has(n) && #[trigger] after.children(n).contains(x) ==> self.children(n).contains(x)
        &&& forall|n: NodeRef, x: NodeRef|
            self.has(n) && #[trigger] after.parents(n).contains(x) ==> self.parents(n).contains(x)
    }

    /// Every node that has lost all of its parents has lost its children
    /// too.
    pub open spec fn collected(self) -> bool {
        forall|n: NodeRef| #[trigger] self.orphaned(n) ==> self.children(n).len() == 0
    }

    /// What unlinking changes: the edge is gone at both ends, and nothing
    /// else has changed.
    pub proof fn lemma_unlinked_shrinks(self, p: NodeRef, c: NodeRef)
        requires
            self.has(p),
            self.has(c),
        ensures
            self.shrinks_to(self.unlinked(p, c)),
            !self.unlinked(p, c).children(p).contains(c),
            !self.unlinked(p, c).parents(c).contains(p),
            forall|n: NodeRef|
                self.has(n) && n != p ==> #[trigger] self.unlinked(p, c).children(n)
                    == self.children(n),
            forall|n: NodeRef|
                self.has(n) && n != c ==> #[trigger] self.unlinked(p, c).parents(n)
                    == self.parents(n),
            self.unlinked(p, c).children(p) == without(self.children(p), c),
            self.unlinked(p, c).parents(c) == without(self.parents(c), p),
    {
        let g = self.unlinked(p, c);
        assert forall|n: NodeRef, x: NodeRef|
            self.has(n) && #[trigger] g.children(n).contains(x) implies self.children(n).contains(
            x,
        ) by {
            lemma_without_contains(self.children(p), c, x);
        }
        assert forall|n: NodeRef, x: NodeRef|
            self.has(n) && #[trigger] g.parents(n).contains(x) implies self.parents(n).contains(
            x,
        ) by {
            lemma_without_contains(self.parents(c), p, x);
        }
        lemma_without_contains(self.children(p), c, c);
        lemma_without_contains(self.parents(c), p, p);
    }

    /// What collection does: it only takes edges out, it takes none from
    /// a node that still has a parent afterwards, and, where every
    /// parentless node with children was on the list, it leaves no
    /// parentless node with children.
    pub proof fn lemma_swept(self, work: Seq<NodeRef>)
        requires
            self.wf(),
            forall|i: int| 0 <= i < work.len() ==> self.orphaned(#[trigger] work[i]),
        ensures
            self.swept(work).wf(),
            self.shrinks_to(self.swept(work)),
            forall|n: NodeRef|
                self.has(n) && !self.swept(work).orphaned(n) ==> #[trigger] self.swept(
                    work,
                ).children(n) == self.children(n),
            (forall|n: NodeRef|
                #[trigger] self.orphaned(n) && self.children(n).len() > 0 ==> work.contains(n))
                ==> self.swept(work).collected(),
        decreases self.edge_count(), work.len(),
    {
        if work.len() == 0 {
        } else {
            let n = work.last();
            assert(self.orphaned(work[work.len() - 1]));
            if self.children(n).len() == 0 {
                let rest = work.drop_last();
                assert forall|i: int| 0 <= i < rest.len() implies self.orphaned(
                    #[trigger] rest[i],
                ) by {
                    assert(rest[i] == work[i]);
                }
                self.lemma_swept(rest);
                if forall|m: NodeRef|
                    #[trigger] self.orphaned(m) && self.children(m).len() > 0 ==> work.contains(m) {
                    assert forall|m: NodeRef|
                        #[trigger] self.orphaned(m) && self.children(m).len()
                            > 0 implies rest.contains(m) by {
                        assert(work.contains(m));
                        let i = choose|i: int| 0 <= i < work.len() && work[i] == m;
                        assert(rest[i] == m);
                    }
                }
            } else {
                let c = self.children(n).last();
                let g = self.unlinked(n, c);
                assert(self.children(n)[self.children(n).len() - 1] == c);
                assert(self.children(n).contains(c));
                assert(self.node_wf(n));
                self.lemma_unlinked_edge_count(n, c);
                self.lemma_unlinked_wf(n, c);
                self.lemma_unlinked_shrinks(n, c);
                let next = if g.orphaned(c) {
                    work.push(c)
                } else {
                    work
                };
                assert forall|i: int| 0 <= i < next.len() implies g.orphaned(
                    #[trigger] next[i],
                ) by {
                    if i < work.len() {
                        let m = work[i];
                        assert(self.orphaned(m));
                        if g.parents(m).len() > 0 {
                            assert(g.parents(m).contains(g.parents(m)[0]));
                        }
                    }
                }
                g.lemma_swept(next);
                let f = g.swept(next);
                assert(f == self.swept(work));
                assert(self.shrinks_to(f));
                assert forall|m: NodeRef| self.has(m) && !f.orphaned(m) implies #[trigger] f.children(
                    m,
                ) == self.children(m) by {
                    if m == n {
                        assert(self.orphaned(n));
                        if f.parents(n).len() > 0 {
                            assert(f.parents(n).contains(f.parents(n)[0]));
                        }
                    }
                }
                if forall|m: NodeRef|
                    #[trigger] self.orphaned(m) && self.children(m).len() > 0 ==> work.contains(m) {
                    assert forall|m: NodeRef|
                        #[trigger] g.orphaned(m) && g.children(m).len() > 0 implies next.contains(
                        m,
                    ) by {
                        assert(g.children(m).contains(g.children(m)[0]));
                        assert(self.children(m).len() > 0);
                        if self.orphaned(m) {
                            assert(work.contains(m));
                            let i = choose|i: int| 0 <= i < work.len() && work[i] == m;
                            assert(next[i] == m);
                        } else {
                            assert(m == c);
                            assert(next[work.len() as int] == c);
                        }
                    }
                }
            }
        }
    }

    /// What `removed` does: the edge is gone, no edge is new, a node that
    /// still has a parent afterwards has lost no other edge to a child,
    /// and a graph that was collected stays collected.
    pub proof fn lemma_removed(self, p: NodeRef, c: NodeRef)
        requires
            self.wf(),
            self.has(p),
            self.has(c),
        ensures
            self.removed(p, c).wf(),
            self.shrinks_to(self.removed(p, c)),
            !self.removed(p, c).children(p).contains(c),
            forall|n: NodeRef|
                self.has(n) && !self.removed(p, c).orphaned(n) ==> #[trigger] self.removed(
                    p,
                    c,
                ).children(n) == if n == p {
                    without(self.children(p), c)
                } else {
                    self.children(n)
                },
            self.collected() ==> self.removed(p, c).collected(),
    {
        let g = self.unlinked(p, c);
        self.lemma_unlinked_wf(p, c);
        self.lemma_unlinked_shrinks(p, c);
        if g.orphaned(c) {
            let work = seq![c];
            assert(work[0] == c);
            g.lemma_swept(work);
            let f = g.swept(work);
            if self.collected() {
                assert forall|m: NodeRef|
                    #[trigger] g.orphaned(m) && g.children(m).len() > 0 implies work.contains(m) by {
                    assert(g.children(m).contains(g.children(m)[0]));
                    if m != c {
                        assert(self.orphaned(m));
                    }
                }
            }
        } else {
            if self.collected() {
                assert forall|m: NodeRef| #[trigger] g.orphaned(m) implies g.children(m).len()
                    == 0 by {
                    if g.children(m).len() > 0 {
                        assert(g.children(m).contains(g.children(m)[0]));
                        assert(self.orphaned(m));
                    }
                }
            }
        }
    }

    /// What `linked` changes: the child list of `p` and the parent list
    /// of `c`, and nothing else.
    pub proof fn lemma_linked(self, p: NodeRef, c: NodeRef)
        requires
            self.has(p),
            self.has(c),
        ensures
            self.linked(p, c).nodes.len() == self.nodes.len(),
            self.linked(p, c).root == self.root,
            forall|n: NodeRef| self.has(n) ==> #[trigger] self.linked(p, c).value(n) == self.value(n),
            forall|n: NodeRef|
                self.has(n) ==> #[trigger] self.linked(p, c).children(n) == if n == p {
                    inserted(self.children(p), c)
                } else {
                    self.children(n)
                },
            forall|n: NodeRef|
                self.has(n) ==> #[trigger] self.linked(p, c).parents(n) == if n == c {
                    inserted(self.parents(c), p)
                } else {
                    self.parents(n)
                },
    {
    }

    /// What `copied` changes: there is one more node, which has the
    /// children of `n`, and each of those has it as one more parent.
    pub proof fn lemma_copied(self, n: NodeRef, value: T)
        requires
            self.has(n),
            self.nodes.len() < usize::MAX,
        ensures
            self.copied(n, value).nodes.len() == self.nodes.len() + 1,
            self.copied(n, value).root == self.root,
            self.copied(n, value).value(self.nodes.len() as NodeRef) == value,
            self.copied(n, value).children(self.nodes.len() as NodeRef) == self.children(n),
            self.copied(n, value).parents(self.nodes.len() as NodeRef) == Seq::<NodeRef>::empty(),
            forall|m: NodeRef|
                self.has(m) ==> #[trigger] self.copied(n, value).value(m) == self.value(m),
            forall|m: NodeRef|
                self.has(m) ==> #[trigger] self.copied(n, value).children(m) == self.children(m),
            forall|m: NodeRef|
                self.has(m) ==> #[trigger] self.copied(n, value).parents(m) == if self.children(
                    n,
                ).contains(m) {
                    self.parents(m).push(self.nodes.len() as NodeRef)
                } else {
                    self.parents(m)
                },
    {
    }

    /// A new value at a node changes no edge.
    pub proof fn lemma_with_value_wf(self, n: NodeRef, value: T)
        requires
            self.wf(),
        ensures
            self.with_value(n, value).wf(),
    {
        let g = self.with_value(n, value);
        assert forall|m: NodeRef| g.has(m) implies #[trigger] g.node_wf(m) by {
            assert(self.node_wf(m));
            assert(g.children(m) == self.children(m));
            assert(g.parents(m) == self.parents(m));
            assert forall|x: NodeRef| #[trigger] g.children(m).contains(x) implies g.has(x)
                && g.parents(x).contains(m) by {
                assert(self.parents(x).contains(m));
                assert(g.parents(x) == self.parents(x));
            }
            assert forall|x: NodeRef| #[trigger] g.parents(m).contains(x) implies g.has(x)
                && g.children(x).contains(m) by {
                assert(self.children(x).contains(m));
                assert(g.children(x) == self.children(x));
            }
        }
    }

    /// The nodes lead from the root downward, each the child of the one
    /// before it.
    pub open spec fn is_path(self, path: Seq<NodeRef>) -> bool {
        &&& path.len() > 0
        &&& path[0] == self.root
        &&& forall|i: int| 0 <= i < path.len() - 1 ==> self.edge(#[trigger] path[i], path[i + 1])
    }

    /// Some path leads from the root to `n`.
    pub open spec fn reachable(self, n: NodeRef) -> bool {
        exists|path: Seq<NodeRef>| self.is_path(path) && path.last() == n
    }

    /// Every node on a path from the root exists, and each but the root
    /// names the node before it as a parent.
    pub proof fn lemma_path_nodes(self, path: Seq<NodeRef>, i: int)
        requires
            self.wf(),
            self.is_path(path),
            0 <= i < path.len(),
        ensures
            self.has(path[i]),
            self.attached(path[i]),
            i > 0 ==> self.parents(path[i]).contains(path[i - 1]),
        decreases i,
    {
        if i > 0 {
            self.lemma_path_nodes(path, i - 1);
            assert(self.edge(path[i - 1], path[i]));
            assert(self.node_wf(path[i - 1]));
            let j = choose|j: int|
                0 <= j < self.parents(path[i]).len() && self.parents(path[i])[j] == path[i - 1];
        }
    }

    /// A node that can be reached from the root, and is not the root, has
    /// a parent.
    pub proof fn lemma_reachable_has_parent(self, n: NodeRef)
        requires
            self.wf(),
            self.reachable(n),
            n != self.root,
        ensures
            self.has(n),
            self.parents(n).len() > 0,
    {
        let path = choose|path: Seq<NodeRef>| self.is_path(path) && path.last() == n;
        self.lemma_path_nodes(path, path.len() - 1);
    }

    /// The graph without the edges from `n` to its children.
    pub open spec fn cleared(self, n: NodeRef) -> Graph<T> {
        Graph {
            nodes: Seq::new(
                self.nodes.len(),
                |i: int|
                    if i == n {
                        NodeView { children: Seq::empty(), ..self.nodes[i] }
                    } else {
                        NodeView { parents: without(self.nodes[i].parents, n), ..self.nodes[i] }
                    },
            ),
            ..self
        }
    }

    /// Every child of `n` has a parent besides `n`.
    pub open spec fn children_shared(self, n: NodeRef) -> bool {
        forall|c: NodeRef| #[trigger]
            self.children(n).contains(c) ==> exists|q: NodeRef|
                q != n && #[trigger] self.parents(c).contains(q)
    }

    /// Where every child of a parentless node has another parent,
    /// collection stops at that node: it loses its children and nothing
    /// else changes.
    pub proof fn lemma_swept_single(self, n: NodeRef)
        requires
            self.wf(),
            self.orphaned(n),
            self.children_shared(n),
        ensures
            self.swept(seq![n]) == self.cleared(n),
        decreases self.children(n).len(),
    {
        let work = seq![n];
        assert(work.last() == n);
        assert(self.node_wf(n));
        if self.children(n).len() == 0 {
            let none = work.drop_last();
            assert(none.len() == 0);
            assert(self.swept(none) == self);
            assert(self.swept(work) == self.swept(none));
            assert(self.cleared(n).nodes =~= self.nodes) by {
                assert forall|i: int| 0 <= i < self.nodes.len() implies self.cleared(n).nodes[i]
                    == self.nodes[i] by {
                    if i == n {
                        assert(self.nodes[i].children =~= Seq::<NodeRef>::empty());
                    } else {
                        let m = i as NodeRef;
                        assert(self.node_wf(m));
                        if self.parents(m).contains(n) {
                            assert(self.children(n).contains(m));
                        }
                        lemma_without_absent(self.parents(m), n);
                    }
                }
            }
        } else {
            let c = self.children(n).last();
            let g = self.unlinked(n, c);
            assert(self.children(n)[self.children(n).len() - 1] == c);
            assert(self.children(n).contains(c));
            self.lemma_unlinked_wf(n, c);
            self.lemma_unlinked_shrinks(n, c);
            self.lemma_unlinked_edge_count(n, c);
            let q = choose|q: NodeRef| q != n && #[trigger] self.parents(c).contains(q);
            lemma_without_contains(self.parents(c), n, q);
            assert(g.parents(c).contains(q));
            assert(!g.orphaned(c));
            assert(c != n) by {
                if c == n {
                    assert(self.parents(n).contains(n));
                }
            }
            assert(self.swept(work) == g.swept(work));
            lemma_without_len(self.children(n), c);
            assert(g.children_shared(n)) by {
                assert forall|x: NodeRef| #[trigger] g.children(n).contains(x) implies exists|
                    r: NodeRef,
                | r != n && #[trigger] g.parents(x).contains(r) by {
                    lemma_without_contains(self.children(n), c, x);
                    assert(self.children(n).contains(x));
                    let r = choose|r: NodeRef| r != n && #[trigger] self.parents(x).contains(r);
                    assert(g.parents(x) == self.parents(x));
                }
            }
            g.lemma_swept_single(n);
            assert(g.cleared(n).nodes =~= self.cleared(n).nodes) by {
                assert forall|i: int| 0 <= i < self.nodes.len() implies g.cleared(n).nodes[i]
                    == self.cleared(n).nodes[i] by {
                    let m = i as NodeRef;
                    if m == n {
                    } else if m == c {
                        let once = without(self.parents(c), n);
                        lemma_without_contains(self.parents(c), n, n);
                        lemma_without_absent(once, n);
                    } else {
                        assert(g.parents(m) == self.parents(m));
                        assert(g.children(m) == self.children(m));
                    }
                }
            }
        }
    }

    /// The graph after `new_child` was linked under `parent` (where
    /// `parent` is attached) and `old_child` was then removed from it.
    pub open spec fn replaced(self, parent: NodeRef, old_child: NodeRef, new_child: NodeRef) -> Graph<
        T,
    > {
        if self.attached(parent) {
            self.linked(parent, new_child).removed(parent, old_child)
        } else {
            self.removed(parent, old_child)
        }
    }

    /// `old_child` has a parent besides `p`, or is the root.
    pub open spec fn held_besides(self, old_child: NodeRef, p: NodeRef) -> bool {
        old_child == self.root || exists|q: NodeRef|
            q != p && #[trigger] self.parents(old_child).contains(q)
    }

    /// What `replaced` does to the child lists where the new child has
    /// every child of the old one: the parent has the new child for the
    /// old one; the old child, if it is left without a parent, has no
    /// children any more; every other list is as it was.
    pub proof fn lemma_replaced_exact(self, p: NodeRef, old_child: NodeRef, c: NodeRef)
        requires
            self.wf(),
            self.attached(p),
            self.has(old_child),
            self.has(c),
            c != old_child,
            c != p,
            old_child != p,
            forall|z: NodeRef| #[trigger]
                self.children(old_child).contains(z) ==> self.children(c).contains(z),
        ensures
            self.replaced(p, old_child, c).wf(),
            self.replaced(p, old_child, c).nodes.len() == self.nodes.len(),
            self.replaced(p, old_child, c).root == self.root,
            forall|m: NodeRef|
                self.has(m) ==> #[trigger] self.replaced(p, old_child, c).value(m) == self.value(m),
            forall|m: NodeRef|
                self.has(m) ==> #[trigger] self.replaced(p, old_child, c).children(m) == if m == p {
                    without(inserted(self.children(p), c), old_child)
                } else if m == old_child && !self.held_besides(old_child, p) {
                    Seq::<NodeRef>::empty()
                } else {
                    self.children(m)
                },
            !self.held_besides(old_child, p) ==> self.replaced(p, old_child, c).parents(
                old_child,
            ).len() == 0,
            forall|m: NodeRef|
                self.has(m) && m != c && self.parents(m).len() == 0 ==> (
                #[trigger] self.replaced(p, old_child, c).parents(m)).len() == 0,
    {
        let g1 = self.linked(p, c);
        let g2 = g1.unlinked(p, old_child);
        let h = self.replaced(p, old_child, c);
        assert forall|m: NodeRef| self.has(m) && m != c && self.parents(m).len() == 0 implies (
        #[trigger] h.parents(m)).len() == 0 by {
            self.lemma_linked(p, c);
            self.lemma_linked_wf(p, c);
            g1.lemma_removed(p, old_child);
            if h.parents(m).len() > 0 {
                assert(h.parents(m).contains(h.parents(m)[0]));
                assert(g1.parents(m).contains(h.parents(m)[0]));
            }
        }
        self.lemma_linked(p, c);
        self.lemma_linked_wf(p, c);
        g1.lemma_unlinked_wf(p, old_child);
        g1.lemma_unlinked_shrinks(p, old_child);
        g1.lemma_removed(p, old_child);
        assert(self.node_wf(old_child));
        assert(g2.parents(old_child) == without(self.parents(old_child), p));
        if g2.orphaned(old_child) {
            assert(!self.held_besides(old_child, p)) by {
                if self.held_besides(old_child, p) {
                    let q = choose|q: NodeRef|
                        q != p && #[trigger] self.parents(old_child).contains(q);
                    lemma_without_contains(self.parents(old_child), p, q);
                    assert(g2.parents(old_child).contains(q));
                }
            }
            assert(g2.children_shared(old_child)) by {
                assert forall|z: NodeRef| #[trigger] g2.children(old_child).contains(z) implies exists|
                    q: NodeRef,
                | q != old_child && #[trigger] g2.parents(z).contains(q) by {
                    assert(self.children(old_child).contains(z));
                    assert(self.children(c).contains(z));
                    assert(self.node_wf(c));
                    assert(self.parents(z).contains(c));
                    if z == c {
                        lemma_inserted_contains(self.parents(c), p, c);
                    }
                    assert(g1.parents(z).contains(c));
                    if z == old_child {
                        lemma_without_contains(g1.parents(old_child), p, c);
                    }
                    assert(g2.parents(z).contains(c));
                }
            }
            g2.lemma_swept_single(old_child);
            assert(h == g2.cleared(old_child));
            assert(h.parents(old_child) == without(g2.parents(old_child), old_child));
            lemma_without_len(g2.parents(old_child), old_child);
        } else {
            assert(h == g2);
            if old_child != self.root {
                assert(g2.parents(old_child).len() > 0);
                let q = g2.parents(old_child)[0];
                assert(g2.parents(old_child).contains(q));
                lemma_without_contains(self.parents(old_child), p, q);
                assert(self.held_besides(old_child, p));
            }
        }
    }
}

} // verus!
