//! What holds of a scan at every moment, and why each move of the
//! construction keeps it.

use crate::frontier::{
    admits, depth_at, distinct, holds, lemma_depth_at, lemma_put_distinct, put, TriePointer,
};
use crate::graph::{
    inserted, lemma_inserted_contains, lemma_without_contains, without, Graph, NodeRef,
};
use crate::suffix::{ScanView, StepView};
use crate::trie::TrieNode;
use vstd::prelude::*;

verus! {

impl Graph<TrieNode> {
    /// No count and no depth exceeds `limit`.
    pub open spec fn bounded(self, limit: nat) -> bool {
        forall|n: NodeRef|
            self.has(n) ==> (#[trigger] self.value(n)).count <= limit && self.value(n).max_depth
                <= limit
    }

    /// No depth exceeds the bound by more than one.
    pub open spec fn capped(self, max_depth: Option<usize>) -> bool {
        forall|n: NodeRef|
            self.has(n) ==> match max_depth {
                Some(bound) => (#[trigger] self.value(n)).max_depth <= bound + 1,
                None => true,
            }
    }

    /// This graph has the nodes of `base`, with their values, and maybe
    /// more.
    pub open spec fn extends(self, base: Graph<TrieNode>) -> bool {
        &&& base.nodes.len() <= self.nodes.len()
        &&& self.root == base.root
        &&& forall|n: NodeRef| base.has(n) ==> #[trigger] self.value(n) == base.value(n)
    }

    /// No child of `p` carries `character`.
    pub open spec fn lacks(self, p: NodeRef, character: char) -> bool {
        forall|x: NodeRef| #[trigger]
            self.children(p).contains(x) ==> self.data(x) != Some(character)
    }

    /// The child found for a character is a child and carries the
    /// character; where none is found, no child carries it.
    pub proof fn lemma_child_with(self, p: NodeRef, character: char)
        ensures
            match self.child_with(p, character) {
                Some(c) => self.children(p).contains(c) && self.data(c) == Some(character),
                None => self.lacks(p, character),
            },
    {
        self.lemma_child_among(self.children(p), character);
        if self.child_with(p, character) is None {
            assert forall|x: NodeRef| #[trigger] self.children(p).contains(x) implies self.data(x)
                != Some(character) by {
                let i = choose|i: int| 0 <= i < self.children(p).len() && self.children(p)[i] == x;
                assert(self.data(self.children(p)[i]) != Some(character));
            }
        }
    }

    /// A new child for a character that `p` has no child for keeps the
    /// trie a trie.
    pub proof fn lemma_append_keeps_trie(self, p: NodeRef, value: TrieNode)
        requires
            self.is_trie(),
            self.attached(p),
            self.nodes.len() < usize::MAX,
            value.data is Some,
            value.count >= 1,
            self.depth(p) < value.max_depth,
            self.lacks(p, value.data->0),
        ensures
            self.with_node(value).linked(p, self.nodes.len() as NodeRef).is_trie(),
    {
        let n = self.nodes.len() as NodeRef;
        let g1 = self.with_node(value);
        let g2 = g1.linked(p, n);
        self.lemma_with_node_wf(value);
        g1.lemma_linked_wf(p, n);
        g1.lemma_linked(p, n);
        assert(self.node_wf(p));
        assert(self.trie_node(p));
        assert forall|m: NodeRef| g2.has(m) implies #[trigger] g2.trie_node(m) by {
            if m == n {
                assert(g2.children(m) == inserted(g1.children(n), n) || g2.children(m)
                    == g1.children(n));
                assert(g1.children(n) =~= Seq::<NodeRef>::empty());
                assert(g2.children(n) =~= Seq::<NodeRef>::empty());
                lemma_inserted_contains(g1.parents(n), p, p);
                assert(g2.parents(n).contains(p));
            } else {
                assert(self.trie_node(m));
                assert(self.node_wf(m));
                assert(g2.parents(m) == self.parents(m));
                if m == p {
                    assert forall|x: NodeRef| #[trigger] g2.children(m).contains(x) implies g2.depth(
                        m,
                    ) < g2.depth(x) by {
                        lemma_inserted_contains(self.children(p), n, x);
                        if x != n {
                            assert(self.children(p).contains(x));
                        }
                    }
                    assert forall|x: NodeRef, y: NodeRef|
                        #[trigger] g2.children(m).contains(x) && #[trigger] g2.children(m).contains(
                            y,
                        ) && x != y implies g2.data(x) != g2.data(y) by {
                        lemma_inserted_contains(self.children(p), n, x);
                        lemma_inserted_contains(self.children(p), n, y);
                        if x != n {
                            assert(self.children(p).contains(x));
                        }
                        if y != n {
                            assert(self.children(p).contains(y));
                        }
                    }
                    if g2.orphaned(m) {
                        assert(self.orphaned(m));
                    }
                } else {
                    assert(g2.children(m) == self.children(m));
                    assert forall|x: NodeRef| #[trigger] g2.children(m).contains(x) implies g2.depth(
                        m,
                    ) < g2.depth(x) by {
                        assert(self.children(m).contains(x));
                    }
                    assert forall|x: NodeRef, y: NodeRef|
                        #[trigger] g2.children(m).contains(x) && #[trigger] g2.children(m).contains(
                            y,
                        ) && x != y implies g2.data(x) != g2.data(y) by {
                        assert(self.children(m).contains(x));
                        assert(self.children(m).contains(y));
                    }
                    if g2.orphaned(m) {
                        assert(self.orphaned(m));
                    }
                }
            }
        }
    }

    /// What the trie asks of the node `n`, but for this: `n` may be
    /// without a parent and still have children.
    pub open spec fn loose_node(self, n: NodeRef) -> bool {
        &&& n != self.root ==> self.data(n) is Some && self.count(n) >= 1
        &&& forall|c: NodeRef| #[trigger]
            self.children(n).contains(c) ==> self.depth(n) < self.depth(c)
        &&& forall|x: NodeRef, y: NodeRef|
            #[trigger] self.children(n).contains(x) && #[trigger] self.children(n).contains(y) && x
                != y ==> self.data(x) != self.data(y)
    }

    /// A trie, but for this: the node `c` may be without a parent and
    /// still have children.
    pub open spec fn almost_trie(self, c: NodeRef) -> bool {
        &&& self.wf()
        &&& self.value(self.root) == (TrieNode { data: None, count: 0, max_depth: 0 })
        &&& forall|n: NodeRef| self.has(n) ==> #[trigger] self.loose_node(n)
        &&& forall|n: NodeRef| #[trigger] self.orphaned(n) && n != c ==> self.children(n).len() == 0
    }

    /// A trie is a trie but for any one node.
    pub proof fn lemma_trie_is_almost(self, c: NodeRef)
        requires
            self.is_trie(),
        ensures
            self.almost_trie(c),
    {
        assert forall|n: NodeRef| self.has(n) implies #[trigger] self.loose_node(n) by {
            assert(self.trie_node(n));
        }
        assert forall|n: NodeRef| #[trigger] self.orphaned(n) && n != c implies self.children(
            n,
        ).len() == 0 by {
            assert(self.trie_node(n));
        }
    }

    /// Recording the depth that a node has changes nothing.
    pub proof fn lemma_with_depth_same(self, n: NodeRef)
        requires
            self.has(n),
        ensures
            self.with_depth(n, self.depth(n)) == self,
    {
        assert(self.with_depth(n, self.depth(n)).nodes =~= self.nodes);
    }

    /// Linking a node without children under one more parent, and
    /// recording a depth for it that is greater than the parent's, keeps
    /// the trie a trie.
    pub proof fn lemma_share_keeps_trie(self, p: NodeRef, n: NodeRef, depth: usize)
        requires
            self.is_trie(),
            self.attached(p),
            self.has(n),
            n != self.root,
            n != p,
            self.children(n).len() == 0,
            self.data(n) is Some,
            self.lacks(p, self.data(n)->0),
            self.depth(p) < depth,
            self.depth(n) <= depth,
        ensures
            self.linked(p, n).with_depth(n, depth).is_trie(),
    {
        let g1 = self.linked(p, n);
        let g2 = g1.with_depth(n, depth);
        self.lemma_linked_wf(p, n);
        self.lemma_linked(p, n);
        assert(self.node_wf(p));
        assert(self.trie_node(p));
        assert(self.trie_node(n));
        assert(g2.wf()) by {
            assert forall|m: NodeRef| g2.has(m) implies #[trigger] g2.node_wf(m) by {
                assert(g1.node_wf(m));
                assert(g2.children(m) == g1.children(m));
                assert(g2.parents(m) == g1.parents(m));
                assert forall|x: NodeRef| #[trigger] g2.children(m).contains(x) implies g2.has(x)
                    && g2.parents(x).contains(m) by {
                    assert(g1.parents(x).contains(m));
                    assert(g2.parents(x) == g1.parents(x));
                }
                assert forall|x: NodeRef| #[trigger] g2.parents(m).contains(x) implies g2.has(x)
                    && g2.children(x).contains(m) by {
                    assert(g1.children(x).contains(m));
                    assert(g2.children(x) == g1.children(x));
                }
            }
        }
        assert forall|m: NodeRef| g2.has(m) implies #[trigger] g2.trie_node(m) by {
            assert(self.trie_node(m));
            assert(self.node_wf(m));
            assert(g2.children(m) == g1.children(m));
            assert(g2.parents(m) == g1.parents(m));
            assert forall|x: NodeRef| #[trigger] g2.children(m).contains(x) implies g2.depth(m)
                < g2.depth(x) by {
                if m == p {
                    lemma_inserted_contains(self.children(p), n, x);
                }
                if x != n || m != p {
                    assert(self.children(m).contains(x));
                }
            }
            assert forall|x: NodeRef, y: NodeRef|
                #[trigger] g2.children(m).contains(x) && #[trigger] g2.children(m).contains(y) && x
                    != y implies g2.data(x) != g2.data(y) by {
                if m == p {
                    lemma_inserted_contains(self.children(p), n, x);
                    lemma_inserted_contains(self.children(p), n, y);
                    if x != n {
                        assert(self.children(p).contains(x));
                    }
                    if y != n {
                        assert(self.children(p).contains(y));
                    }
                } else {
                    assert(self.children(m).contains(x));
                    assert(self.children(m).contains(y));
                }
            }
            if g2.orphaned(m) {
                if m == n {
                    lemma_inserted_contains(self.parents(n), p, p);
                    assert(g2.parents(n).contains(p));
                }
                assert(self.orphaned(m));
            }
        }
    }

    /// Putting the node `c` in the place that `old_child` has under `p`,
    /// and recording for `c` a depth between that of `p` and those of the
    /// children of `c`, makes a trie of what was a trie but for `c`.
    pub proof fn lemma_reroute_keeps_trie(
        self,
        p: NodeRef,
        old_child: NodeRef,
        c: NodeRef,
        depth: usize,
    )
        requires
            self.almost_trie(c),
            self.attached(p),
            self.children(p).contains(old_child),
            self.has(c),
            c != self.root,
            c != old_child,
            c != p,
            self.data(c) == self.data(old_child),
            self.depth(p) < depth,
            forall|q: NodeRef| #[trigger] self.parents(c).contains(q) ==> self.depth(q) < depth,
            forall|y: NodeRef| #[trigger] self.children(c).contains(y) ==> depth < self.depth(y),
        ensures
            self.linked(p, c).removed(p, old_child).with_depth(c, depth).is_trie(),
            self.replaced(p, old_child, c) == self.linked(p, c).removed(p, old_child),
    {
        let g1 = self.linked(p, c);
        let g2 = g1.removed(p, old_child);
        let g3 = g2.with_depth(c, depth);
        assert(self.node_wf(p));
        assert(self.loose_node(p));
        assert(self.loose_node(c));
        assert(self.has(old_child));
        self.lemma_linked_wf(p, c);
        self.lemma_linked(p, c);
        assert(g1.parents(c).contains(p)) by {
            lemma_inserted_contains(self.parents(c), p, p);
        }
        assert(g1.collected()) by {
            assert forall|m: NodeRef| #[trigger] g1.orphaned(m) implies g1.children(m).len()
                == 0 by {
                assert(m != c);
                assert(self.orphaned(m));
                assert(m != p);
            }
        }
        g1.lemma_removed(p, old_child);
        assert(g3.wf()) by {
            assert forall|m: NodeRef| g3.has(m) implies #[trigger] g3.node_wf(m) by {
                assert(g2.node_wf(m));
                assert(g3.children(m) == g2.children(m));
                assert(g3.parents(m) == g2.parents(m));
                assert forall|x: NodeRef| #[trigger] g3.children(m).contains(x) implies g3.has(x)
                    && g3.parents(x).contains(m) by {
                    assert(g2.parents(x).contains(m));
                    assert(g3.parents(x) == g2.parents(x));
                }
                assert forall|x: NodeRef| #[trigger] g3.parents(m).contains(x) implies g3.has(x)
                    && g3.children(x).contains(m) by {
                    assert(g2.children(x).contains(m));
                    assert(g3.children(x) == g2.children(x));
                }
            }
        }
        assert(g3.value(g3.root) == (TrieNode { data: None, count: 0, max_depth: 0 })) by {
            assert(g2.value(self.root) == g1.value(self.root));
            assert(g1.value(self.root) == self.value(self.root));
        }
        assert forall|m: NodeRef| g3.has(m) implies #[trigger] g3.trie_node(m) by {
            assert(self.loose_node(m));
            assert(self.node_wf(m));
            assert(g1.node_wf(m));
            assert(g3.children(m) == g2.children(m));
            assert(g3.parents(m) == g2.parents(m));
            assert(g2.value(m) == g1.value(m));
            assert forall|x: NodeRef| #[trigger] g3.children(m).contains(x) implies g3.depth(m)
                < g3.depth(x) by {
                assert(g1.children(m).contains(x));
                if m == p {
                    lemma_inserted_contains(self.children(p), c, x);
                }
                assert(g2.value(x) == g1.value(x));
                if !(m == p && x == c) {
                    assert(self.children(m).contains(x));
                    if x == c {
                        assert(self.parents(c).contains(m));
                    }
                }
            }
            assert forall|x: NodeRef, y: NodeRef|
                #[trigger] g3.children(m).contains(x) && #[trigger] g3.children(m).contains(y) && x
                    != y implies g3.data(x) != g3.data(y) by {
                assert(g1.children(m).contains(x));
                assert(g1.children(m).contains(y));
                assert(g2.value(x) == g1.value(x));
                assert(g2.value(y) == g1.value(y));
                if m == p {
                    lemma_inserted_contains(self.children(p), c, x);
                    lemma_inserted_contains(self.children(p), c, y);
                    assert(x != old_child && y != old_child);
                    if self.children(p).contains(x) && self.children(p).contains(y) {
                    } else if self.children(p).contains(x) {
                        assert(y == c);
                    } else {
                        assert(x == c);
                    }
                } else {
                    assert(self.children(m).contains(x));
                    assert(self.children(m).contains(y));
                }
            }
            if g3.orphaned(m) {
                assert(g2.orphaned(m));
            }
        }
    }

    /// A copy of a node, with one more occurrence counted, leaves a trie a
    /// trie but for the copy, which has children and no parent yet.
    pub proof fn lemma_copy_almost_trie(self, old_child: NodeRef)
        requires
            self.is_trie(),
            self.has(old_child),
            old_child != self.root,
            self.nodes.len() < usize::MAX,
            self.count(old_child) < usize::MAX,
        ensures
            self.copied(old_child, self.value(old_child)).with_count(
                self.nodes.len() as NodeRef,
                (self.count(old_child) + 1) as usize,
            ).almost_trie(self.nodes.len() as NodeRef),
    {
        let c = self.nodes.len() as NodeRef;
        let g1 = self.copied(old_child, self.value(old_child));
        let g2 = g1.with_count(c, (self.count(old_child) + 1) as usize);
        self.lemma_copied_wf(old_child, self.value(old_child));
        self.lemma_copied(old_child, self.value(old_child));
        assert(self.trie_node(old_child));
        assert(self.node_wf(old_child));
        assert(g2.wf()) by {
            assert forall|m: NodeRef| g2.has(m) implies #[trigger] g2.node_wf(m) by {
                assert(g1.node_wf(m));
                assert(g2.children(m) == g1.children(m));
                assert(g2.parents(m) == g1.parents(m));
                assert forall|x: NodeRef| #[trigger] g2.children(m).contains(x) implies g2.has(x)
                    && g2.parents(x).contains(m) by {
                    assert(g1.parents(x).contains(m));
                    assert(g2.parents(x) == g1.parents(x));
                }
                assert forall|x: NodeRef| #[trigger] g2.parents(m).contains(x) implies g2.has(x)
                    && g2.children(x).contains(m) by {
                    assert(g1.children(x).contains(m));
                    assert(g2.children(x) == g1.children(x));
                }
            }
        }
        assert(g2.value(g2.root) == (TrieNode { data: None, count: 0, max_depth: 0 })) by {
            assert(g1.value(self.root) == self.value(self.root));
        }
        assert forall|m: NodeRef| #[trigger] g2.orphaned(m) && m != c implies g2.children(m).len()
            == 0 by {
            assert(self.trie_node(m));
            assert(g2.children(m) == self.children(m));
            if self.children(old_child).contains(m) {
                assert(g2.parents(m) == self.parents(m).push(c));
            }
            assert(self.orphaned(m));
        }
        assert forall|m: NodeRef| g2.has(m) implies #[trigger] g2.loose_node(m) by {
            let src = if m == c {
                old_child
            } else {
                m
            };
            assert(self.trie_node(src));
            assert(self.node_wf(src));
            assert(g2.children(m) == self.children(src));
            assert forall|x: NodeRef| #[trigger] g2.children(m).contains(x) implies g2.depth(m)
                < g2.depth(x) by {
                assert(self.children(src).contains(x));
            }
            assert forall|x: NodeRef, y: NodeRef|
                #[trigger] g2.children(m).contains(x) && #[trigger] g2.children(m).contains(y) && x
                    != y implies g2.data(x) != g2.data(y) by {
                assert(self.children(src).contains(x));
                assert(self.children(src).contains(y));
            }
        }
    }
}

/// What one move of a scan may do to the graph `g`, seen from every node
/// but `p`: nodes may be added, characters and counts stay, depths do not
/// fall, and no node but `p` gets a child.
pub open spec fn moved(g: Graph<TrieNode>, h: Graph<TrieNode>, p: NodeRef) -> bool {
    &&& g.nodes.len() <= h.nodes.len()
    &&& h.root == g.root
    &&& forall|m: NodeRef|
        g.has(m) ==> (#[trigger] h.value(m)).data == g.value(m).data && h.value(m).count
            == g.value(m).count && g.value(m).max_depth <= h.value(m).max_depth
    &&& forall|m: NodeRef, x: NodeRef|
        g.has(m) && m != p && #[trigger] h.children(m).contains(x) ==> g.children(m).contains(x)
}

impl StepView {
    /// An entry that is still to be consumed stands at a node that the
    /// character has not touched: the node was there before the
    /// character, has the depth that the entry gives, and has no child
    /// that the character created.
    pub open spec fn pending(
        self,
        base: Graph<TrieNode>,
        e: TriePointer,
        steps: nat,
        max_depth: Option<usize>,
    ) -> bool {
        &&& base.has(e.position)
        &&& base.depth(e.position) == e.depth
        &&& e.depth <= steps
        &&& admits(max_depth, e.depth)
        &&& forall|x: NodeRef| #[trigger]
            self.graph.children(e.position).contains(x) ==> base.has(x)
    }

    /// An entry that was collected stands at a node that the character
    /// created, and gives the depth of that node.
    pub open spec fn arrived(self, base: Graph<TrieNode>, e: TriePointer) -> bool {
        &&& self.graph.has(e.position)
        &&& !base.has(e.position)
        &&& self.graph.depth(e.position) == e.depth
    }

    /// The child created for the character is new, stands in the
    /// collected frontier, carries the character and has no children.
    pub open spec fn fresh_ok(self, base: Graph<TrieNode>, character: char) -> bool {
        match self.fresh {
            None => true,
            Some(n) => {
                &&& self.graph.has(n)
                &&& !base.has(n)
                &&& holds(self.next, n)
                &&& self.graph.children(n).len() == 0
                &&& self.graph.data(n) == Some(character)
            },
        }
    }

    /// The copy that took the place of `old_child` is new, stands in the
    /// collected frontier, carries the character, and all its children
    /// lie deeper than `old_child`.
    pub open spec fn copy_ok(self, base: Graph<TrieNode>, old_child: NodeRef, character: char) -> bool {
        let c = self.diverged[old_child];
        &&& base.has(old_child)
        &&& self.graph.has(c)
        &&& !base.has(c)
        &&& holds(self.next, c)
        &&& self.graph.data(c) == Some(character)
        &&& forall|x: NodeRef| #[trigger]
            self.graph.children(c).contains(x) ==> self.graph.depth(old_child) < self.graph.depth(x)
    }

    /// What holds in the middle of the character that follows `steps`
    /// others, where `base` was the graph before it and `rest` are the
    /// entries still to be consumed.
    pub open spec fn inv(
        self,
        base: Graph<TrieNode>,
        rest: Seq<TriePointer>,
        steps: nat,
        max_depth: Option<usize>,
        character: char,
    ) -> bool {
        &&& steps < usize::MAX
        &&& base.bounded(steps)
        &&& self.graph.is_trie()
        &&& self.graph.extends(base)
        &&& self.graph.bounded(steps + 1)
        &&& self.graph.capped(max_depth)
        &&& distinct(self.next)
        &&& forall|i: int| 0 <= i < self.next.len() ==> self.arrived(base, #[trigger] self.next[i])
        &&& distinct(rest)
        &&& forall|i: int|
            0 <= i < rest.len() ==> self.pending(base, #[trigger] rest[i], steps, max_depth)
        &&& self.fresh_ok(base, character)
        &&& forall|old_child: NodeRef| #[trigger]
            self.diverged.contains_key(old_child) ==> self.copy_ok(base, old_child, character)
    }

    /// The part of the invariant that only needs to know that a move was
    /// made, not which.
    pub proof fn lemma_frame(
        self,
        after: StepView,
        base: Graph<TrieNode>,
        rest: Seq<TriePointer>,
        steps: nat,
        max_depth: Option<usize>,
        character: char,
    )
        requires
            self.inv(base, rest, steps, max_depth, character),
            rest.len() > 0,
            moved(self.graph, after.graph, rest[0].position),
            after.graph.extends(base),
            forall|x: NodeRef| holds(self.next, x) ==> holds(after.next, x),
            after.fresh == self.fresh,
            after.diverged == self.diverged,
        ensures
            distinct(rest.drop_first()),
            forall|i: int|
                0 <= i < rest.drop_first().len() ==> after.pending(
                    base,
                    #[trigger] rest.drop_first()[i],
                    steps,
                    max_depth,
                ),
            after.fresh_ok(base, character),
            forall|old_child: NodeRef| #[trigger]
                after.diverged.contains_key(old_child) ==> after.copy_ok(
                    base,
                    old_child,
                    character,
                ),
    {
        let g = self.graph;
        let h = after.graph;
        let p = rest[0].position;
        let tail = rest.drop_first();
        assert(self.pending(base, rest[0], steps, max_depth));
        assert(distinct(tail)) by {
            assert forall|a: int, b: int|
                0 <= a < tail.len() && 0 <= b < tail.len() && a != b implies (
            #[trigger] tail[a]).position != (#[trigger] tail[b]).position by {
                assert(tail[a] == rest[a + 1] && tail[b] == rest[b + 1]);
            }
        }
        assert forall|i: int| 0 <= i < tail.len() implies after.pending(
            base,
            #[trigger] tail[i],
            steps,
            max_depth,
        ) by {
            let e = tail[i];
            assert(e == rest[i + 1]);
            assert(self.pending(base, rest[i + 1], steps, max_depth));
            assert(rest[i + 1].position != rest[0].position);
            assert forall|x: NodeRef| #[trigger] h.children(e.position).contains(x) implies base.has(
                x,
            ) by {
                assert(g.children(e.position).contains(x));
            }
        }
        match self.fresh {
            None => {},
            Some(n) => {
                if h.children(n).len() > 0 {
                    assert(h.children(n).contains(h.children(n)[0]));
                    assert(g.children(n).contains(h.children(n)[0]));
                }
                assert(h.value(n).data == g.value(n).data);
            },
        }
        assert forall|old_child: NodeRef| #[trigger]
            after.diverged.contains_key(old_child) implies after.copy_ok(
            base,
            old_child,
            character,
        ) by {
            assert(self.copy_ok(base, old_child, character));
            let c = self.diverged[old_child];
            assert(h.value(c).data == g.value(c).data);
            assert(h.value(old_child) == base.value(old_child));
            assert(g.value(old_child) == base.value(old_child));
            assert forall|x: NodeRef| #[trigger] h.children(c).contains(x) implies h.depth(old_child)
                < h.depth(x) by {
                assert(g.children(c).contains(x));
                assert(g.node_wf(c));
                assert(g.value(x).max_depth <= h.value(x).max_depth);
            }
        }
    }

    /// The depth that the collected frontier remembers for a node that
    /// stands in it is the depth of the node.
    pub proof fn lemma_known_depth(self, base: Graph<TrieNode>, n: NodeRef)
        requires
            forall|i: int| 0 <= i < self.next.len() ==> self.arrived(base, #[trigger] self.next[i]),
            holds(self.next, n),
        ensures
            depth_at(self.next, n) == Some(self.graph.depth(n)),
    {
        lemma_depth_at(self.next, n);
        match depth_at(self.next, n) {
            Some(d) => {
                let e = TriePointer { position: n, depth: d };
                let i = choose|i: int| 0 <= i < self.next.len() && self.next[i] == e;
                assert(self.arrived(base, self.next[i]));
            },
            None => {},
        }
    }

    /// The entries collected so far, with one more or with one replaced,
    /// still stand at new nodes and give their depths, where the graph
    /// kept the depths of all nodes but the one that the entry is for.
    pub proof fn lemma_collect(
        self,
        after: Graph<TrieNode>,
        base: Graph<TrieNode>,
        pointer: TriePointer,
    )
        requires
            distinct(self.next),
            forall|i: int| 0 <= i < self.next.len() ==> self.arrived(base, #[trigger] self.next[i]),
            self.graph.nodes.len() <= after.nodes.len(),
            forall|m: NodeRef|
                self.graph.has(m) && m != pointer.position ==> (#[trigger] after.value(
                    m,
                )).max_depth == self.graph.value(m).max_depth,
            after.has(pointer.position),
            !base.has(pointer.position),
            after.depth(pointer.position) == pointer.depth,
        ensures
            distinct(put(self.next, pointer)),
            forall|i: int|
                0 <= i < put(self.next, pointer).len() ==> (StepView {
                    graph: after,
                    next: put(self.next, pointer),
                    ..self
                }).arrived(base, #[trigger] put(self.next, pointer)[i]),
            forall|x: NodeRef| holds(self.next, x) ==> holds(put(self.next, pointer), x),
            holds(put(self.next, pointer), pointer.position),
    {
        lemma_put_distinct(self.next, pointer);
        crate::frontier::lemma_put_entries(self.next, pointer);
        let r = put(self.next, pointer);
        let s2 = StepView { graph: after, next: r, ..self };
        assert forall|i: int| 0 <= i < r.len() implies s2.arrived(base, #[trigger] r[i]) by {
            if r[i] != pointer {
                assert(self.arrived(base, self.next[i]));
                assert(after.value(r[i].position).max_depth == self.graph.value(
                    r[i].position,
                ).max_depth);
            }
        }
    }

    /// An entry whose node has been unlinked moves nothing.
    pub proof fn lemma_skipped(
        self,
        base: Graph<TrieNode>,
        rest: Seq<TriePointer>,
        steps: nat,
        max_depth: Option<usize>,
        character: char,
    )
        requires
            self.inv(base, rest, steps, max_depth, character),
            rest.len() > 0,
        ensures
            self.inv(base, rest.drop_first(), steps, max_depth, character),
    {
        self.lemma_frame(self, base, rest, steps, max_depth, character);
    }

    /// Creating the child for the character keeps the invariant.
    pub proof fn lemma_appended(
        self,
        base: Graph<TrieNode>,
        rest: Seq<TriePointer>,
        steps: nat,
        max_depth: Option<usize>,
        character: char,
    )
        requires
            self.inv(base, rest, steps, max_depth, character),
            rest.len() > 0,
            self.graph.child_with(rest[0].position, character) is None,
            self.graph.attached(rest[0].position),
            self.fresh is None,
            self.graph.nodes.len() < usize::MAX,
        ensures
            self.appended(rest[0].position, (rest[0].depth + 1) as usize, character).inv(
                base,
                rest.drop_first(),
                steps,
                max_depth,
                character,
            ),
    {
        let g = self.graph;
        let p = rest[0].position;
        let depth = (rest[0].depth + 1) as usize;
        let n = g.nodes.len() as NodeRef;
        let value = TrieNode { data: Some(character), count: 1, max_depth: depth };
        let after = self.appended(p, depth, character);
        let h = after.graph;
        let g1 = g.with_node(value);
        assert(self.pending(base, rest[0], steps, max_depth));
        assert(g.value(p) == base.value(p));
        g.lemma_child_with(p, character);
        g.lemma_append_keeps_trie(p, value);
        g1.lemma_linked(p, n);
        assert forall|m: NodeRef| g.has(m) implies #[trigger] h.value(m) == g.value(m) by {
            assert(g1.value(m) == g.value(m));
        }
        assert(h.value(n) == value) by {
            assert(g1.value(n) == value);
        }
        assert(moved(g, h, p)) by {
            assert forall|m: NodeRef, x: NodeRef|
                g.has(m) && m != p && #[trigger] h.children(m).contains(x) implies g.children(
                m,
            ).contains(x) by {
                assert(h.children(m) == g1.children(m));
            }
        }
        let pointer = TriePointer { position: n, depth };
        self.lemma_collect(h, base, pointer);
        let mid = StepView { graph: h, next: after.next, ..self };
        self.lemma_frame(mid, base, rest, steps, max_depth, character);
        let tail = rest.drop_first();
        assert forall|i: int| 0 <= i < tail.len() implies after.pending(
            base,
            #[trigger] tail[i],
            steps,
            max_depth,
        ) by {
            assert(mid.pending(base, tail[i], steps, max_depth));
        }
        assert forall|old_child: NodeRef| #[trigger]
            after.diverged.contains_key(old_child) implies after.copy_ok(
            base,
            old_child,
            character,
        ) by {
            assert(mid.copy_ok(base, old_child, character));
        }
        assert forall|i: int| 0 <= i < after.next.len() implies after.arrived(
            base,
            #[trigger] after.next[i],
        ) by {
            assert(mid.arrived(base, after.next[i]));
        }
        assert(h.children(n) =~= Seq::<NodeRef>::empty()) by {
            assert(g1.children(n) =~= Seq::<NodeRef>::empty());
        }
        assert(h.bounded(steps + 1)) by {
            assert forall|m: NodeRef| h.has(m) implies (#[trigger] h.value(m)).count <= steps + 1
                && h.value(m).max_depth <= steps + 1 by {
                if m != n {
                    assert(g.value(m).count <= steps + 1);
                }
            }
        }
        assert(h.capped(max_depth)) by {
            assert forall|m: NodeRef| h.has(m) implies match max_depth {
                Some(bound) => (#[trigger] h.value(m)).max_depth <= bound + 1,
                None => true,
            } by {
                if m != n {
                    assert(g.value(m) == h.value(m));
                }
            }
        }
    }

    /// After a move that ends with `reached`, what is left to show of the
    /// invariant follows from these facts about the graph `h` that the
    /// move gave: it is a trie, and it differs from the graph before only
    /// as a move may.
    proof fn lemma_settled(
        self,
        after: StepView,
        base: Graph<TrieNode>,
        rest: Seq<TriePointer>,
        steps: nat,
        max_depth: Option<usize>,
        character: char,
        touched: NodeRef,
    )
        requires
            self.inv(base, rest, steps, max_depth, character),
            rest.len() > 0,
            after.graph.is_trie(),
            moved(self.graph, after.graph, rest[0].position),
            after.graph.nodes.len() == self.graph.nodes.len(),
            after.graph.has(touched),
            !base.has(touched),
            after.graph.count(touched) <= steps + 1,
            after.graph.depth(touched) <= steps + 1,
            admits(max_depth, (after.graph.depth(touched) - 1) as usize),
            after.graph.depth(touched) >= 1,
            forall|m: NodeRef|
                self.graph.has(m) && m != touched ==> #[trigger] after.graph.value(m)
                    == self.graph.value(m),
            after.next == self.next || after.next == put(
                self.next,
                TriePointer { position: touched, depth: after.graph.depth(touched) },
            ),
            after.next == self.next ==> self.graph.has(touched) && after.graph.depth(touched)
                == self.graph.depth(touched),
            after.fresh == self.fresh,
            after.diverged == self.diverged,
        ensures
            after.inv(base, rest.drop_first(), steps, max_depth, character),
    {
        let g = self.graph;
        let h = after.graph;
        let pointer = TriePointer { position: touched, depth: h.depth(touched) };
        assert(h.extends(base)) by {
            assert forall|n: NodeRef| base.has(n) implies #[trigger] h.value(n) == base.value(
                n,
            ) by {
                assert(g.value(n) == base.value(n));
            }
        }
        if after.next == self.next {
            assert forall|i: int| 0 <= i < after.next.len() implies after.arrived(
                base,
                #[trigger] after.next[i],
            ) by {
                assert(self.arrived(base, self.next[i]));
                let m = self.next[i].position;
                if m != touched {
                    assert(h.value(m) == g.value(m));
                }
            }
        } else {
            self.lemma_collect(h, base, pointer);
            let mid = StepView { graph: h, next: put(self.next, pointer), ..self };
            assert forall|i: int| 0 <= i < after.next.len() implies after.arrived(
                base,
                #[trigger] after.next[i],
            ) by {
                assert(mid.arrived(base, after.next[i]));
            }
        }
        self.lemma_frame(after, base, rest, steps, max_depth, character);
        assert(h.bounded(steps + 1)) by {
            assert forall|m: NodeRef| h.has(m) implies (#[trigger] h.value(m)).count <= steps + 1
                && h.value(m).max_depth <= steps + 1 by {
                if m != touched {
                    assert(g.has(m));
                    assert(g.value(m).count <= steps + 1);
                }
            }
        }
        assert(h.capped(max_depth)) by {
            assert forall|m: NodeRef| h.has(m) implies match max_depth {
                Some(bound) => (#[trigger] h.value(m)).max_depth <= bound + 1,
                None => true,
            } by {
                if m != touched {
                    assert(g.has(m));
                    assert(g.value(m) == h.value(m));
                }
            }
        }
    }

    /// Sharing the child that was created for the character keeps the
    /// invariant.
    pub proof fn lemma_shared(
        self,
        base: Graph<TrieNode>,
        rest: Seq<TriePointer>,
        steps: nat,
        max_depth: Option<usize>,
        character: char,
    )
        requires
            self.inv(base, rest, steps, max_depth, character),
            rest.len() > 0,
            self.graph.child_with(rest[0].position, character) is None,
            self.graph.attached(rest[0].position),
            self.fresh is Some,
        ensures
            (StepView {
                graph: self.graph.linked(rest[0].position, self.fresh->0),
                ..self
            }).reached(self.fresh->0, (rest[0].depth + 1) as usize).inv(
                base,
                rest.drop_first(),
                steps,
                max_depth,
                character,
            ),
    {
        let g = self.graph;
        let p = rest[0].position;
        let n = self.fresh->0;
        let depth = (rest[0].depth + 1) as usize;
        let g1 = g.linked(p, n);
        let linked = StepView { graph: g1, ..self };
        let after = linked.reached(n, depth);
        let h = after.graph;
        assert(self.pending(base, rest[0], steps, max_depth));
        assert(g.value(p) == base.value(p));
        g.lemma_child_with(p, character);
        g.lemma_linked(p, n);
        self.lemma_known_depth(base, n);
        assert(depth_at(linked.next, n) == Some(g.depth(n)));
        assert(g1.value(n) == g.value(n));
        let top = if depth >= g.depth(n) {
            depth
        } else {
            g.depth(n)
        };
        assert(h == g1.with_depth(n, top)) by {
            if depth < g.depth(n) {
                g1.lemma_with_depth_same(n);
            }
        }
        g.lemma_share_keeps_trie(p, n, top);
        assert(g.value(n).max_depth <= steps + 1);
        assert(g.value(n).count <= steps + 1);
        assert(match max_depth {
            Some(bound) => g.value(n).max_depth <= bound + 1,
            None => true,
        });
        assert(moved(g, h, p)) by {
            assert forall|m: NodeRef, x: NodeRef|
                g.has(m) && m != p && #[trigger] h.children(m).contains(x) implies g.children(
                m,
            ).contains(x) by {
                assert(h.children(m) == g1.children(m));
            }
            assert forall|m: NodeRef| g.has(m) implies (#[trigger] h.value(m)).data == g.value(
                m,
            ).data && h.value(m).count == g.value(m).count && g.value(m).max_depth <= h.value(
                m,
            ).max_depth by {
                assert(g1.value(m) == g.value(m));
            }
        }
        assert forall|m: NodeRef| g.has(m) && m != n implies #[trigger] h.value(m) == g.value(
            m,
        ) by {
            assert(g1.value(m) == g.value(m));
        }
        self.lemma_settled(after, base, rest, steps, max_depth, character, n);
    }

    /// Putting a copy in the place of the child that the character leads
    /// to keeps the invariant.
    pub proof fn lemma_split(
        self,
        base: Graph<TrieNode>,
        rest: Seq<TriePointer>,
        steps: nat,
        max_depth: Option<usize>,
        character: char,
    )
        requires
            self.inv(base, rest, steps, max_depth, character),
            rest.len() > 0,
            self.graph.child_with(rest[0].position, character) is Some,
            !self.diverged.contains_key(self.graph.child_with(rest[0].position, character)->0),
            self.graph.nodes.len() < usize::MAX,
        ensures
            self.split(
                rest[0].position,
                self.graph.child_with(rest[0].position, character)->0,
                (rest[0].depth + 1) as usize,
            ).inv(base, rest.drop_first(), steps, max_depth, character),
            self.graph.attached(rest[0].position),
    {
        let g = self.graph;
        let p = rest[0].position;
        let old_child = g.child_with(p, character)->0;
        let depth = (rest[0].depth + 1) as usize;
        let c = g.nodes.len() as NodeRef;
        let g1 = g.copied(old_child, g.value(old_child));
        let g2 = g1.with_count(c, (g.count(old_child) + 1) as usize);
        let g3 = g2.replaced(p, old_child, c);
        let after = self.split(p, old_child, depth);
        let h = after.graph;
        assert(h == g3.with_depth(c, depth));
        assert(self.pending(base, rest[0], steps, max_depth));
        assert(g.value(p) == base.value(p));
        g.lemma_child_with(p, character);
        assert(g.trie_node(p));
        assert(g.node_wf(p));
        assert(g.has(old_child));
        assert(g.trie_node(old_child));
        assert(g.node_wf(old_child));
        assert(g.attached(p)) by {
            if g.orphaned(p) {
                assert(g.children(p).len() == 0);
            }
        }
        assert(base.has(old_child));
        assert(g.value(old_child) == base.value(old_child));
        assert(base.value(old_child).count <= steps);
        g.lemma_copied(old_child, g.value(old_child));
        g.lemma_copy_almost_trie(old_child);
        assert(g2.attached(p)) by {
            if p != g.root {
                assert(g.parents(p).len() > 0);
                if g.children(old_child).contains(p) {
                    assert(g1.parents(p) == g.parents(p).push(c));
                }
            }
        }
        assert(g2.children(p) == g.children(p));
        assert(g2.children(c) == g.children(old_child));
        assert(g2.parents(c) =~= Seq::<NodeRef>::empty());
        assert forall|y: NodeRef| #[trigger] g2.children(c).contains(y) implies depth < g2.depth(
            y,
        ) by {
            assert(g.children(old_child).contains(y));
            assert(g2.value(y) == g.value(y));
        }
        g2.lemma_reroute_keeps_trie(p, old_child, c, depth);
        let g2l = g2.linked(p, c);
        g2.lemma_linked(p, c);
        g2.lemma_linked_wf(p, c);
        g2l.lemma_removed(p, old_child);
        assert forall|m: NodeRef| g.has(m) implies #[trigger] h.value(m) == g.value(m) by {
            assert(g3.value(m) == g2l.value(m));
            assert(g2l.value(m) == g2.value(m));
            assert(g1.value(m) == g.value(m));
        }
        assert(h.value(c) == (TrieNode {
            data: Some(character),
            count: (g.count(old_child) + 1) as usize,
            max_depth: depth,
        })) by {
            assert(g3.value(c) == g2l.value(c));
            assert(g2l.value(c) == g2.value(c));
        }
        assert(moved(g, h, p)) by {
            assert forall|m: NodeRef, x: NodeRef|
                g.has(m) && m != p && #[trigger] h.children(m).contains(x) implies g.children(
                m,
            ).contains(x) by {
                assert(g3.children(m).contains(x));
                assert(g2l.children(m).contains(x));
                assert(g2l.children(m) == g2.children(m));
            }
        }
        let pointer = TriePointer { position: c, depth };
        self.lemma_collect(h, base, pointer);
        let mid = StepView { graph: h, next: after.next, ..self };
        self.lemma_frame(mid, base, rest, steps, max_depth, character);
        let tail = rest.drop_first();
        assert forall|i: int| 0 <= i < tail.len() implies after.pending(
            base,
            #[trigger] tail[i],
            steps,
            max_depth,
        ) by {
            assert(mid.pending(base, tail[i], steps, max_depth));
        }
        assert forall|k: NodeRef| #[trigger] after.diverged.contains_key(k) implies after.copy_ok(
            base,
            k,
            character,
        ) by {
            if k == old_child {
                assert forall|x: NodeRef| #[trigger] h.children(c).contains(x) implies h.depth(
                    old_child,
                ) < h.depth(x) by {
                    assert(g3.children(c).contains(x));
                    assert(g2l.children(c).contains(x));
                    assert(g2l.children(c) == g2.children(c));
                    assert(g.children(old_child).contains(x));
                }
            } else {
                assert(self.diverged.contains_key(k));
                assert(mid.copy_ok(base, k, character));
            }
        }
        assert forall|i: int| 0 <= i < after.next.len() implies after.arrived(
            base,
            #[trigger] after.next[i],
        ) by {
            assert(mid.arrived(base, after.next[i]));
        }
        match self.fresh {
            Some(n) => {
                assert(mid.fresh_ok(base, character));
            },
            None => {},
        }
        assert(h.bounded(steps + 1)) by {
            assert forall|m: NodeRef| h.has(m) implies (#[trigger] h.value(m)).count <= steps + 1
                && h.value(m).max_depth <= steps + 1 by {
                if m != c {
                    assert(g.value(m).count <= steps + 1);
                }
            }
        }
        assert(h.capped(max_depth)) by {
            assert forall|m: NodeRef| h.has(m) implies match max_depth {
                Some(bound) => (#[trigger] h.value(m)).max_depth <= bound + 1,
                None => true,
            } by {
                if m != c {
                    assert(g.value(m) == h.value(m));
                }
            }
        }
    }

    /// Putting the copy that was made before in the place of the child
    /// that the character leads to keeps the invariant.
    pub proof fn lemma_rerouted(
        self,
        base: Graph<TrieNode>,
        rest: Seq<TriePointer>,
        steps: nat,
        max_depth: Option<usize>,
        character: char,
    )
        requires
            self.inv(base, rest, steps, max_depth, character),
            rest.len() > 0,
            self.graph.child_with(rest[0].position, character) is Some,
            self.diverged.contains_key(self.graph.child_with(rest[0].position, character)->0),
        ensures
            (StepView {
                graph: self.graph.replaced(
                    rest[0].position,
                    self.graph.child_with(rest[0].position, character)->0,
                    self.diverged[self.graph.child_with(rest[0].position, character)->0],
                ),
                ..self
            }).reached(
                self.diverged[self.graph.child_with(rest[0].position, character)->0],
                (rest[0].depth + 1) as usize,
            ).inv(base, rest.drop_first(), steps, max_depth, character),
            self.graph.attached(rest[0].position),
    {
        let g = self.graph;
        let p = rest[0].position;
        let old_child = g.child_with(p, character)->0;
        let c = self.diverged[old_child];
        let depth = (rest[0].depth + 1) as usize;
        let g1 = g.linked(p, c);
        let g2 = g.replaced(p, old_child, c);
        let routed = StepView { graph: g2, ..self };
        let after = routed.reached(c, depth);
        let h = after.graph;
        assert(self.pending(base, rest[0], steps, max_depth));
        assert(self.copy_ok(base, old_child, character));
        assert(g.value(p) == base.value(p));
        g.lemma_child_with(p, character);
        assert(g.trie_node(p));
        assert(g.node_wf(p));
        assert(g.trie_node(c));
        assert(g.node_wf(c));
        assert(g.attached(p)) by {
            if g.orphaned(p) {
                assert(g.children(p).len() == 0);
            }
        }
        assert(g2 == g1.removed(p, old_child));
        g.lemma_linked(p, c);
        g.lemma_linked_wf(p, c);
        g1.lemma_removed(p, old_child);
        assert(g2.value(c) == g.value(c)) by {
            assert(g2.value(c) == g1.value(c));
        }
        self.lemma_known_depth(base, c);
        let top = if depth >= g.depth(c) {
            depth
        } else {
            g.depth(c)
        };
        assert(h == g2.with_depth(c, top)) by {
            if depth < g.depth(c) {
                g2.lemma_with_depth_same(c);
            }
        }
        g.lemma_trie_is_almost(c);
        assert forall|q: NodeRef| #[trigger] g.parents(c).contains(q) implies g.depth(q) < top by {
            assert(g.children(q).contains(c));
            assert(g.trie_node(q));
        }
        assert forall|y: NodeRef| #[trigger] g.children(c).contains(y) implies top < g.depth(y) by {
        }
        g.lemma_reroute_keeps_trie(p, old_child, c, top);
        assert(g.value(c).max_depth <= steps + 1);
        assert(g.value(c).count <= steps + 1);
        assert(match max_depth {
            Some(bound) => g.value(c).max_depth <= bound + 1,
            None => true,
        });
        assert forall|m: NodeRef| g.has(m) && m != c implies #[trigger] h.value(m) == g.value(
            m,
        ) by {
            assert(g2.value(m) == g1.value(m));
            assert(g1.value(m) == g.value(m));
        }
        assert(moved(g, h, p)) by {
            assert forall|m: NodeRef, x: NodeRef|
                g.has(m) && m != p && #[trigger] h.children(m).contains(x) implies g.children(
                m,
            ).contains(x) by {
                assert(g2.children(m).contains(x));
                assert(g1.children(m).contains(x));
                assert(g1.children(m) == g.children(m));
            }
            assert forall|m: NodeRef| g.has(m) implies (#[trigger] h.value(m)).data == g.value(
                m,
            ).data && h.value(m).count == g.value(m).count && g.value(m).max_depth <= h.value(
                m,
            ).max_depth by {
                assert(g2.value(m) == g1.value(m));
                assert(g1.value(m) == g.value(m));
            }
        }
        self.lemma_settled(after, base, rest, steps, max_depth, character, c);
    }
}

impl ScanView {
    /// What holds between two characters, after `steps` of them: the
    /// graph is a trie, no count and no depth exceeds the number of
    /// characters read, no depth exceeds the bound by more than one, and
    /// every entry of the frontier stands at a node of the graph, gives
    /// the depth of that node, and is within the bound.
    pub open spec fn inv(self, steps: nat, max_depth: Option<usize>) -> bool {
        &&& self.graph.is_trie()
        &&& self.graph.bounded(steps)
        &&& self.graph.capped(max_depth)
        &&& distinct(self.frontier)
        &&& forall|i: int|
            0 <= i < self.frontier.len() ==> {
                let e = #[trigger] self.frontier[i];
                &&& self.graph.has(e.position)
                &&& self.graph.depth(e.position) == e.depth
                &&& admits(max_depth, e.depth)
            }
    }

    /// The scan before the first character satisfies the invariant.
    pub proof fn lemma_initial(max_depth: Option<usize>)
        ensures
            ScanView::initial().inv(0, max_depth),
    {
        let s = ScanView::initial();
        let g = s.graph;
        assert(g.node_wf(0));
        assert(g.trie_node(0));
        assert(g.wf());
    }

    /// The invariant between characters is the invariant at the start of
    /// the next character.
    pub proof fn lemma_begin(self, steps: nat, max_depth: Option<usize>, character: char)
        requires
            self.inv(steps, max_depth),
            steps < usize::MAX,
        ensures
            StepView::begin(self.graph).inv(self.graph, self.frontier, steps, max_depth, character),
    {
        let step = StepView::begin(self.graph);
        let g = self.graph;
        assert forall|i: int| 0 <= i < self.frontier.len() implies step.pending(
            g,
            #[trigger] self.frontier[i],
            steps,
            max_depth,
        ) by {
            let e = self.frontier[i];
            assert(g.value(e.position).max_depth <= steps);
            assert(g.node_wf(e.position));
        }
        assert(g.bounded(steps + 1)) by {
            assert forall|m: NodeRef| g.has(m) implies (#[trigger] g.value(m)).count <= steps + 1
                && g.value(m).max_depth <= steps + 1 by {
                assert(g.value(m).count <= steps);
            }
        }
    }

    /// The invariant at the end of a character, when every entry has been
    /// consumed, is the invariant between characters.
    pub proof fn lemma_finish(
        step: StepView,
        base: Graph<TrieNode>,
        steps: nat,
        max_depth: Option<usize>,
        character: char,
    )
        requires
            step.inv(base, Seq::<TriePointer>::empty(), steps, max_depth, character),
        ensures
            (ScanView {
                graph: step.graph,
                frontier: put(
                    crate::frontier::within(step.next, max_depth),
                    TriePointer { position: step.graph.root, depth: 0 },
                ),
            }).inv(steps + 1, max_depth),
    {
        let g = step.graph;
        let kept = crate::frontier::within(step.next, max_depth);
        let pointer = TriePointer { position: g.root, depth: 0 };
        let frontier = put(kept, pointer);
        crate::frontier::lemma_within(step.next, max_depth);
        lemma_put_distinct(kept, pointer);
        crate::frontier::lemma_put_entries(kept, pointer);
        assert forall|i: int| 0 <= i < frontier.len() implies {
            let e = #[trigger] frontier[i];
            &&& g.has(e.position)
            &&& g.depth(e.position) == e.depth
            &&& admits(max_depth, e.depth)
        } by {
            let e = frontier[i];
            if e != pointer {
                assert(kept[i] == e);
                assert(step.next.contains(kept[i]));
                let k = choose|k: int| 0 <= k < step.next.len() && step.next[k] == e;
                assert(step.arrived(base, step.next[k]));
            }
        }
    }
}

} // verus!
