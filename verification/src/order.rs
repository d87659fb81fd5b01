//! The order in which a scan consumes its frontier, and what follows from
//! it: longer suffixes come first, so a node is consumed before any of its
//! parents, and a copy never misses a child of the node that it was made from.

use crate::frontier::{holds, put, TriePointer};
use crate::graph::{
    inserted, lemma_inserted_contains, lemma_without_contains, without, Graph, NodeRef,
};
use crate::paths::{keeps, reroutes};
use crate::suffix::StepView;
use crate::trie::TrieNode;
use vstd::prelude::*;

verus! {

/// The depths fall strictly from each entry to the next.
pub open spec fn decreasing(s: Seq<TriePointer>) -> bool {
    forall|i: int, j: int| 0 <= i < j < s.len() ==> (#[trigger] s[i]).depth > (#[trigger] s[j]).depth
}

impl StepView {
    /// The node that serves as the child for `character` under the node
    /// of `entry` once the entry is consumed.
    pub open spec fn successor(self, entry: TriePointer, character: char) -> NodeRef {
        match self.graph.child_with(entry.position, character) {
            None => match self.fresh {
                None => self.graph.nodes.len() as NodeRef,
                Some(child) => child,
            },
            Some(old_child) => if self.diverged.contains_key(old_child) {
                self.diverged[old_child]
            } else {
                self.graph.nodes.len() as NodeRef
            },
        }
    }

    /// The copy of `old_child` has every child that `old_child` has, and
    /// `old_child` is not among the entries that are still to be consumed.
    pub open spec fn mirrored(self, rest: Seq<TriePointer>, old_child: NodeRef) -> bool {
        &&& !holds(rest, old_child)
        &&& forall|z: NodeRef| #[trigger]
            self.graph.children(old_child).contains(z) ==> self.graph.children(
                self.diverged[old_child],
            ).contains(z)
    }

    /// The entries still to be consumed, and those collected, stand in the
    /// order of falling depth; every collected entry is deeper than any
    /// that an entry still to be consumed can lead to; and every copy
    /// mirrors the node that it was made from.
    pub open spec fn ordered(self, rest: Seq<TriePointer>) -> bool {
        &&& decreasing(rest)
        &&& decreasing(self.next)
        &&& forall|i: int| 0 <= i < self.next.len() ==> (#[trigger] self.next[i]).depth >= 1
        &&& forall|i: int, j: int|
            0 <= i < self.next.len() && 0 <= j < rest.len() ==> (#[trigger] self.next[i]).depth > (
            #[trigger] rest[j]).depth + 1
        &&& forall|old_child: NodeRef| #[trigger]
            self.diverged.contains_key(old_child) ==> self.mirrored(rest, old_child)
    }

    /// What remains of the order when the first entry is gone and the
    /// graph has only changed as the conditions say.
    proof fn lemma_order_rest(
        self,
        after: StepView,
        rest: Seq<TriePointer>,
        base: Graph<TrieNode>,
        steps: nat,
        max_depth: Option<usize>,
        character: char,
    )
        requires
            self.inv(base, rest, steps, max_depth, character),
            self.ordered(rest),
            rest.len() > 0,
            after.graph.nodes.len() >= self.graph.nodes.len(),
            after.next == self.next || after.next == self.next.push(
                TriePointer {
                    position: self.graph.nodes.len() as NodeRef,
                    depth: (rest[0].depth + 1) as usize,
                },
            ),
            forall|k: NodeRef| #[trigger]
                self.diverged.contains_key(k) ==> after.diverged.contains_key(k) && after.diverged[k]
                    == self.diverged[k],
            forall|k: NodeRef| #[trigger]
                after.diverged.contains_key(k) ==> self.diverged.contains_key(k) || (k
                    == self.graph.child_with(rest[0].position, character)->0
                    && self.graph.child_with(rest[0].position, character) is Some
                    && after.mirrored(rest.drop_first(), k)),
            forall|m: NodeRef, z: NodeRef|
                self.graph.has(m) && m != rest[0].position && #[trigger] after.graph.children(
                    m,
                ).contains(z) ==> self.graph.children(m).contains(z),
            forall|k: NodeRef, z: NodeRef|
                self.diverged.contains_key(k) && #[trigger] self.graph.children(
                    self.diverged[k],
                ).contains(z) ==> after.graph.children(self.diverged[k]).contains(z),
        ensures
            after.ordered(rest.drop_first()),
    {
        let tail = rest.drop_first();
        assert forall|i: int, j: int| 0 <= i < j < tail.len() implies (#[trigger] tail[i]).depth > (
        #[trigger] tail[j]).depth by {
            assert(tail[i] == rest[i + 1] && tail[j] == rest[j + 1]);
        }
        assert(rest[0].depth + 1 <= usize::MAX) by {
            assert(self.pending(base, rest[0], steps, max_depth));
        }
        assert forall|i: int, j: int| 0 <= i < j < after.next.len() implies (
        #[trigger] after.next[i]).depth > (#[trigger] after.next[j]).depth by {
            if j < self.next.len() {
                assert(after.next[i] == self.next[i] && after.next[j] == self.next[j]);
            } else {
                assert(after.next[i] == self.next[i]);
                assert(self.next[i].depth > rest[0].depth + 1);
            }
        }
        assert forall|i: int| 0 <= i < after.next.len() implies (#[trigger] after.next[i]).depth
            >= 1 by {
            if i < self.next.len() {
                assert(after.next[i] == self.next[i]);
            }
        }
        assert forall|i: int, j: int|
            0 <= i < after.next.len() && 0 <= j < tail.len() implies (
        #[trigger] after.next[i]).depth > (#[trigger] tail[j]).depth + 1 by {
            assert(tail[j] == rest[j + 1]);
            assert(rest[0].depth > rest[j + 1].depth);
            if i < self.next.len() {
                assert(after.next[i] == self.next[i]);
                assert(self.next[i].depth > rest[j + 1].depth + 1);
            }
        }
        assert forall|k: NodeRef| #[trigger] after.diverged.contains_key(k) implies after.mirrored(
            tail,
            k,
        ) by {
            if self.diverged.contains_key(k) {
                assert(self.mirrored(rest, k));
                assert(self.copy_ok(base, k, character));
                if holds(tail, k) {
                    let i = choose|i: int| 0 <= i < tail.len() && (#[trigger] tail[i]).position == k;
                    assert(rest[i + 1].position == k);
                }
                assert(rest[0].position != k);
                assert forall|z: NodeRef| #[trigger] after.graph.children(k).contains(
                    z,
                ) implies after.graph.children(after.diverged[k]).contains(z) by {
                    assert(self.graph.children(k).contains(z));
                    assert(self.graph.children(self.diverged[k]).contains(z));
                }
            }
        }
    }

    /// What consuming `entry` does, as far as paths and the head of the
    /// collected frontier are concerned: every path is kept, or goes
    /// through the successor where it went through the child that the
    /// character led to; the node of the entry, if it is attached, has
    /// the successor as its child for the character; and the first
    /// collected entry stays the first.
    pub open spec fn effect(self, after: StepView, entry: TriePointer, character: char) -> bool {
        let g = self.graph;
        let h = after.graph;
        let p = entry.position;
        let succ = self.successor(entry, character);
        &&& match g.child_with(p, character) {
            None => keeps(g, h),
            Some(old_child) => reroutes(g, h, p, old_child, succ),
        }
        &&& g.attached(p) ==> {
            &&& h.has(succ)
            &&& h.children(p).contains(succ)
            &&& h.data(succ) == Some(character)
            &&& after.next.len() > 0
            &&& self.next.len() == 0 ==> after.next[0] == TriePointer {
                position: succ,
                depth: (entry.depth + 1) as usize,
            }
        }
        &&& self.next.len() > 0 ==> after.next.len() > 0 && after.next[0] == self.next[0]
    }

    /// An entry for a node that was not there before this character
    /// comes in behind all the others.
    proof fn lemma_put_new(self, base: Graph<TrieNode>, depth: usize)
        requires
            forall|i: int| 0 <= i < self.next.len() ==> self.arrived(base, #[trigger] self.next[i]),
            self.graph.nodes.len() <= usize::MAX,
        ensures
            put(self.next, TriePointer { position: self.graph.nodes.len() as NodeRef, depth })
                == self.next.push(
                TriePointer { position: self.graph.nodes.len() as NodeRef, depth },
            ),
    {
        let n = self.graph.nodes.len() as NodeRef;
        if holds(self.next, n) {
            let i = choose|i: int| 0 <= i < self.next.len() && (#[trigger] self.next[i]).position == n;
            assert(self.arrived(base, self.next[i]));
        }
    }

    /// A suffix that arrives at a node that a longer suffix has reached
    /// before it changes nothing.
    proof fn lemma_reached_later(
        self,
        base: Graph<TrieNode>,
        rest: Seq<TriePointer>,
        n: NodeRef,
        graph: Graph<TrieNode>,
    )
        requires
            self.ordered(rest),
            rest.len() > 0,
            rest[0].depth < usize::MAX,
            forall|i: int| 0 <= i < self.next.len() ==> self.arrived(base, #[trigger] self.next[i]),
            holds(self.next, n),
        ensures
            (StepView { graph, ..self }).reached(n, (rest[0].depth + 1) as usize) == (StepView {
                graph,
                ..self
            }),
    {
        self.lemma_known_depth(base, n);
        let i = choose|i: int| 0 <= i < self.next.len() && (#[trigger] self.next[i]).position == n;
        assert(self.arrived(base, self.next[i]));
        assert(self.next[i].depth > rest[0].depth + 1);
    }

    /// What creating the child for the character does to paths and to the
    /// order.
    pub proof fn lemma_effect_appended(
        self,
        base: Graph<TrieNode>,
        rest: Seq<TriePointer>,
        steps: nat,
        max_depth: Option<usize>,
        character: char,
    )
        requires
            self.inv(base, rest, steps, max_depth, character),
            self.ordered(rest),
            rest.len() > 0,
            self.graph.child_with(rest[0].position, character) is None,
            self.graph.attached(rest[0].position),
            self.fresh is None,
            self.graph.nodes.len() < usize::MAX,
        ensures
            self.effect(self.resolved(rest[0], character), rest[0], character),
            self.resolved(rest[0], character).ordered(rest.drop_first()),
    {
        let g = self.graph;
        let p = rest[0].position;
        let depth = (rest[0].depth + 1) as usize;
        let n = g.nodes.len() as NodeRef;
        let value = TrieNode { data: Some(character), count: 1, max_depth: depth };
        let after = self.resolved(rest[0], character);
        assert(after == self.appended(p, depth, character));
        let h = after.graph;
        let g1 = g.with_node(value);
        assert(self.pending(base, rest[0], steps, max_depth));
        g1.lemma_linked(p, n);
        self.lemma_put_new(base, depth);
        assert forall|m: NodeRef| g.has(m) implies (#[trigger] h.value(m)).data == g.value(
            m,
        ).data by {
            assert(g1.value(m) == g.value(m));
        }
        assert forall|m: NodeRef, z: NodeRef|
            g.has(m) && #[trigger] g.children(m).contains(z) implies h.children(m).contains(z) by {
            assert(g1.children(m) == g.children(m));
            lemma_inserted_contains(g.children(p), n, z);
        }
        lemma_inserted_contains(g1.children(p), n, n);
        assert(h.value(n) == value) by {
            assert(g1.value(n) == value);
        }
        assert forall|m: NodeRef, z: NodeRef|
            g.has(m) && m != p && #[trigger] h.children(m).contains(z) implies g.children(
            m,
        ).contains(z) by {
            assert(h.children(m) == g1.children(m));
        }
        assert forall|k: NodeRef, z: NodeRef|
            self.diverged.contains_key(k) && #[trigger] g.children(self.diverged[k]).contains(
                z,
            ) implies h.children(self.diverged[k]).contains(z) by {
            assert(self.copy_ok(base, k, character));
        }
        self.lemma_order_rest(after, rest, base, steps, max_depth, character);
    }

    /// What sharing the child that was created for the character does to
    /// paths and to the order.
    pub proof fn lemma_effect_shared(
        self,
        base: Graph<TrieNode>,
        rest: Seq<TriePointer>,
        steps: nat,
        max_depth: Option<usize>,
        character: char,
    )
        requires
            self.inv(base, rest, steps, max_depth, character),
            self.ordered(rest),
            rest.len() > 0,
            self.graph.child_with(rest[0].position, character) is None,
            self.graph.attached(rest[0].position),
            self.fresh is Some,
        ensures
            self.effect(self.resolved(rest[0], character), rest[0], character),
            self.resolved(rest[0], character).ordered(rest.drop_first()),
            self.resolved(rest[0], character) == (StepView {
                graph: self.graph.linked(rest[0].position, self.fresh->0),
                ..self
            }),
    {
        let g = self.graph;
        let p = rest[0].position;
        let n = self.fresh->0;
        let after = self.resolved(rest[0], character);
        assert(self.pending(base, rest[0], steps, max_depth));
        assert(self.fresh_ok(base, character));
        let h = g.linked(p, n);
        self.lemma_reached_later(base, rest, n, h);
        assert(after == (StepView { graph: h, ..self }));
        g.lemma_linked(p, n);
        assert forall|m: NodeRef, z: NodeRef|
            g.has(m) && #[trigger] g.children(m).contains(z) implies h.children(m).contains(z) by {
            lemma_inserted_contains(g.children(p), n, z);
        }
        lemma_inserted_contains(g.children(p), n, n);
        let i = choose|i: int| 0 <= i < self.next.len() && (#[trigger] self.next[i]).position == n;
        assert forall|k: NodeRef, z: NodeRef|
            self.diverged.contains_key(k) && #[trigger] g.children(self.diverged[k]).contains(
                z,
            ) implies h.children(self.diverged[k]).contains(z) by {
            assert(self.copy_ok(base, k, character));
        }
        self.lemma_order_rest(after, rest, base, steps, max_depth, character);
    }

    /// The child that the character leads to from the first entry is a
    /// node from before the character, differs from the node of the
    /// entry and from the root, and is not itself still to be consumed.
    pub proof fn lemma_old_child(
        self,
        base: Graph<TrieNode>,
        rest: Seq<TriePointer>,
        steps: nat,
        max_depth: Option<usize>,
        character: char,
    )
        requires
            self.inv(base, rest, steps, max_depth, character),
            self.ordered(rest),
            rest.len() > 0,
            self.graph.child_with(rest[0].position, character) is Some,
        ensures
            ({
                let g = self.graph;
                let p = rest[0].position;
                let old_child = g.child_with(p, character)->0;
                &&& g.has(p)
                &&& g.attached(p)
                &&& g.has(old_child)
                &&& base.has(old_child)
                &&& g.children(p).contains(old_child)
                &&& g.data(old_child) == Some(character)
                &&& old_child != p
                &&& old_child != g.root
                &&& g.depth(p) == rest[0].depth
                &&& g.depth(p) < g.depth(old_child)
                &&& !holds(rest.drop_first(), old_child)
                &&& g.value(old_child).count <= steps
            }),
    {
        let g = self.graph;
        let p = rest[0].position;
        let old_child = g.child_with(p, character)->0;
        let tail = rest.drop_first();
        assert(self.pending(base, rest[0], steps, max_depth));
        assert(g.value(p) == base.value(p));
        g.lemma_child_with(p, character);
        assert(g.trie_node(p));
        assert(g.node_wf(p));
        if g.orphaned(p) {
            assert(g.children(p).len() == 0);
        }
        assert(g.value(old_child) == base.value(old_child));
        assert(base.value(old_child).count <= steps);
        if holds(tail, old_child) {
            let i = choose|i: int| 0 <= i < tail.len() && (#[trigger] tail[i]).position == old_child;
            assert(tail[i] == rest[i + 1]);
            assert(self.pending(base, rest[i + 1], steps, max_depth));
            assert(rest[0].depth > rest[i + 1].depth);
        }
    }

    /// What putting a copy in the place of the child that the character
    /// leads to does to paths and to the order.
    pub proof fn lemma_effect_split(
        self,
        base: Graph<TrieNode>,
        rest: Seq<TriePointer>,
        steps: nat,
        max_depth: Option<usize>,
        character: char,
    )
        requires
            self.inv(base, rest, steps, max_depth, character),
            self.ordered(rest),
            rest.len() > 0,
            self.graph.child_with(rest[0].position, character) is Some,
            !self.diverged.contains_key(self.graph.child_with(rest[0].position, character)->0),
            self.graph.nodes.len() < usize::MAX,
        ensures
            self.effect(self.resolved(rest[0], character), rest[0], character),
            self.resolved(rest[0], character).ordered(rest.drop_first()),
    {
        let g = self.graph;
        let p = rest[0].position;
        let old_child = g.child_with(p, character)->0;
        let depth = (rest[0].depth + 1) as usize;
        let c = g.nodes.len() as NodeRef;
        let g1 = g.copied(old_child, g.value(old_child));
        let g2 = g1.with_count(c, (g.count(old_child) + 1) as usize);
        let h3 = g2.replaced(p, old_child, c);
        let after = self.resolved(rest[0], character);
        assert(after == self.split(p, old_child, depth));
        let h = after.graph;
        assert(h == h3.with_depth(c, depth));
        self.lemma_old_child(base, rest, steps, max_depth, character);
        g.lemma_copied(old_child, g.value(old_child));
        g.lemma_copied_wf(old_child, g.value(old_child));
        g1.lemma_with_value_wf(
            c,
            TrieNode { count: (g.count(old_child) + 1) as usize, ..g1.value(c) },
        );
        assert(g2.attached(p)) by {
            if p != g.root {
                assert(g.parents(p).len() > 0);
                if g.children(old_child).contains(p) {
                    assert(g1.parents(p) == g.parents(p).push(c));
                }
            }
        }
        assert(g2.children(c) == g.children(old_child));
        assert(g2.children(old_child) == g.children(old_child));
        g2.lemma_replaced_exact(p, old_child, c);
        self.lemma_put_new(base, depth);
        assert forall|m: NodeRef| g.has(m) implies #[trigger] h.value(m) == g.value(m) by {
            assert(h3.value(m) == g2.value(m));
            assert(g1.value(m) == g.value(m));
        }
        assert(h.value(c).data == g.value(old_child).data) by {
            assert(h3.value(c) == g2.value(c));
        }
        assert forall|m: NodeRef| g.has(m) implies #[trigger] h.children(m) == if m == p {
            without(inserted(g.children(p), c), old_child)
        } else if m == old_child && !g2.held_besides(old_child, p) {
            Seq::<NodeRef>::empty()
        } else {
            g.children(m)
        } by {
            assert(h.children(m) == h3.children(m));
            assert(g2.children(m) == g.children(m));
        }
        assert(h.children(c) == g.children(old_child)) by {
            assert(h.children(c) == h3.children(c));
        }
        lemma_inserted_contains(g.children(p), c, c);
        lemma_without_contains(inserted(g.children(p), c), old_child, c);
        assert(reroutes(g, h, p, old_child, c)) by {
            assert forall|m: NodeRef, z: NodeRef|
                g.has(m) && m != old_child && #[trigger] g.children(m).contains(z) && !(m == p && z
                    == old_child) implies h.children(m).contains(z) by {
                if m == p {
                    lemma_inserted_contains(g.children(p), c, z);
                    lemma_without_contains(inserted(g.children(p), c), old_child, z);
                }
            }
            if g.held_besides(old_child, p) {
                let q = choose|q: NodeRef| q != p && #[trigger] g.parents(old_child).contains(q);
                if g.children(old_child).contains(old_child) {
                    assert(g1.parents(old_child) == g.parents(old_child).push(c));
                    let i = choose|i: int|
                        0 <= i < g.parents(old_child).len() && g.parents(old_child)[i] == q;
                    assert(g1.parents(old_child)[i] == q);
                }
                assert(g2.parents(old_child).contains(q));
                assert(g2.held_besides(old_child, p));
            }
        }
        assert forall|m: NodeRef, z: NodeRef|
            g.has(m) && m != p && #[trigger] h.children(m).contains(z) implies g.children(
            m,
        ).contains(z) by {}
        assert forall|k: NodeRef, z: NodeRef|
            self.diverged.contains_key(k) && #[trigger] g.children(self.diverged[k]).contains(
                z,
            ) implies h.children(self.diverged[k]).contains(z) by {
            assert(self.copy_ok(base, k, character));
        }
        assert(after.mirrored(rest.drop_first(), old_child)) by {
            assert forall|z: NodeRef| #[trigger] h.children(old_child).contains(z) implies h.children(
                c,
            ).contains(z) by {}
        }
        self.lemma_order_rest(after, rest, base, steps, max_depth, character);
    }

    /// What putting the copy that was made before in the place of the child
    /// that the character leads to does to paths and to the order.
    pub proof fn lemma_effect_rerouted(
        self,
        base: Graph<TrieNode>,
        rest: Seq<TriePointer>,
        steps: nat,
        max_depth: Option<usize>,
        character: char,
    )
        requires
            self.inv(base, rest, steps, max_depth, character),
            self.ordered(rest),
            rest.len() > 0,
            self.graph.child_with(rest[0].position, character) is Some,
            self.diverged.contains_key(self.graph.child_with(rest[0].position, character)->0),
        ensures
            self.effect(self.resolved(rest[0], character), rest[0], character),
            self.resolved(rest[0], character).ordered(rest.drop_first()),
            self.resolved(rest[0], character) == (StepView {
                graph: self.graph.replaced(
                    rest[0].position,
                    self.graph.child_with(rest[0].position, character)->0,
                    self.diverged[self.graph.child_with(rest[0].position, character)->0],
                ),
                ..self
            }),
    {
        let g = self.graph;
        let p = rest[0].position;
        let old_child = g.child_with(p, character)->0;
        let c = self.diverged[old_child];
        let h = g.replaced(p, old_child, c);
        let after = self.resolved(rest[0], character);
        self.lemma_old_child(base, rest, steps, max_depth, character);
        assert(self.copy_ok(base, old_child, character));
        assert(self.mirrored(rest, old_child));
        self.lemma_reached_later(base, rest, c, h);
        assert(after == (StepView { graph: h, ..self }));
        g.lemma_replaced_exact(p, old_child, c);
        lemma_inserted_contains(g.children(p), c, c);
        lemma_without_contains(inserted(g.children(p), c), old_child, c);
        assert(reroutes(g, h, p, old_child, c)) by {
            assert forall|m: NodeRef, z: NodeRef|
                g.has(m) && m != old_child && #[trigger] g.children(m).contains(z) && !(m == p && z
                    == old_child) implies h.children(m).contains(z) by {
                if m == p {
                    lemma_inserted_contains(g.children(p), c, z);
                    lemma_without_contains(inserted(g.children(p), c), old_child, z);
                }
            }
        }
        let i = choose|i: int| 0 <= i < self.next.len() && (#[trigger] self.next[i]).position == c;
        assert forall|m: NodeRef, z: NodeRef|
            g.has(m) && m != p && #[trigger] h.children(m).contains(z) implies g.children(
            m,
        ).contains(z) by {}
        assert forall|k: NodeRef, z: NodeRef|
            self.diverged.contains_key(k) && #[trigger] g.children(self.diverged[k]).contains(
                z,
            ) implies h.children(self.diverged[k]).contains(z) by {
            assert(self.copy_ok(base, k, character));
        }
        self.lemma_order_rest(after, rest, base, steps, max_depth, character);
    }

    /// An entry whose node has been unlinked changes no path, and the order
    /// holds of the rest.
    pub proof fn lemma_effect_skipped(
        self,
        base: Graph<TrieNode>,
        rest: Seq<TriePointer>,
        steps: nat,
        max_depth: Option<usize>,
        character: char,
    )
        requires
            self.inv(base, rest, steps, max_depth, character),
            self.ordered(rest),
            rest.len() > 0,
            self.graph.child_with(rest[0].position, character) is None,
            !self.graph.attached(rest[0].position),
        ensures
            self.effect(self, rest[0], character),
            self.ordered(rest.drop_first()),
    {
        assert forall|k: NodeRef, z: NodeRef|
            self.diverged.contains_key(k) && #[trigger] self.graph.children(
                self.diverged[k],
            ).contains(z) implies self.graph.children(self.diverged[k]).contains(z) by {}
        self.lemma_order_rest(self, rest, base, steps, max_depth, character);
    }
}

} // verus!
