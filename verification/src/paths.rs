//! Paths from the root and what the moves of a scan do to them.

use crate::graph::{Graph, NodeRef};
use crate::trie::TrieNode;
use vstd::prelude::*;

verus! {

/// The path with `c` in the place of `old_child` wherever `old_child`
/// follows `p`.
pub open spec fn rerouted(path: Seq<NodeRef>, p: NodeRef, old_child: NodeRef, c: NodeRef) -> Seq<
    NodeRef,
> {
    Seq::new(
        path.len(),
        |i: int|
            if i > 0 && path[i - 1] == p && path[i] == old_child {
                c
            } else {
                path[i]
            },
    )
}

/// `h` has every node of `g` with its character, and every edge of `g`.
pub open spec fn keeps(g: Graph<TrieNode>, h: Graph<TrieNode>) -> bool {
    &&& h.root == g.root
    &&& g.nodes.len() <= h.nodes.len()
    &&& forall|m: NodeRef| g.has(m) ==> (#[trigger] h.value(m)).data == g.value(m).data
    &&& forall|m: NodeRef, z: NodeRef|
        g.has(m) && #[trigger] g.children(m).contains(z) ==> h.children(m).contains(z)
}

/// `h` is `g` with `c` in the place of `old_child` under `p`: `c`
/// carries the character of `old_child` and has every child of it; the
/// edges of `old_child` itself are kept where another parent still holds
/// it; every other edge is kept.
pub open spec fn reroutes(
    g: Graph<TrieNode>,
    h: Graph<TrieNode>,
    p: NodeRef,
    old_child: NodeRef,
    c: NodeRef,
) -> bool {
    &&& h.root == g.root
    &&& g.nodes.len() <= h.nodes.len()
    &&& forall|m: NodeRef| g.has(m) ==> (#[trigger] h.value(m)).data == g.value(m).data
    &&& g.has(p)
    &&& h.has(c)
    &&& p != old_child
    &&& old_child != g.root
    &&& h.data(c) == g.data(old_child)
    &&& h.children(p).contains(c)
    &&& forall|z: NodeRef| #[trigger]
        g.children(old_child).contains(z) ==> h.children(c).contains(z)
    &&& forall|m: NodeRef, z: NodeRef|
        g.has(m) && m != old_child && #[trigger] g.children(m).contains(z) && !(m == p && z
            == old_child) ==> h.children(m).contains(z)
    &&& g.held_besides(old_child, p) ==> forall|z: NodeRef| #[trigger]
        g.children(old_child).contains(z) ==> h.children(old_child).contains(z)
}

impl Graph<TrieNode> {
    /// A move that keeps every edge keeps every path, and what it spells.
    pub proof fn lemma_keep_path(self, h: Graph<TrieNode>, path: Seq<NodeRef>, text: Seq<char>)
        requires
            self.wf(),
            keeps(self, h),
            self.spells(path, text),
        ensures
            h.spells(path, text),
    {
        assert forall|i: int| 0 <= i < path.len() - 1 implies h.edge(#[trigger] path[i], path[i + 1]) by {
            assert(self.edge(path[i], path[i + 1]));
        }
        assert forall|i: int| 0 <= i < text.len() implies h.data(#[trigger] path[i + 1]) == Some(
            text[i],
        ) by {
            self.lemma_path_nodes(path, i + 1);
            assert(h.value(path[i + 1]).data == self.value(path[i + 1]).data);
        }
    }

    /// A move that puts `c` in the place of `old_child` under `p` turns
    /// every path into the path that goes through `c` where it went from
    /// `p` to `old_child`; the new path spells what the old one spelt.
    pub proof fn lemma_reroute_path(
        self,
        h: Graph<TrieNode>,
        p: NodeRef,
        old_child: NodeRef,
        c: NodeRef,
        path: Seq<NodeRef>,
        text: Seq<char>,
    )
        requires
            self.wf(),
            reroutes(self, h, p, old_child, c),
            self.spells(path, text),
        ensures
            h.spells(rerouted(path, p, old_child, c), text),
    {
        let after = rerouted(path, p, old_child, c);
        assert forall|i: int| 0 <= i < after.len() - 1 implies h.edge(
            #[trigger] after[i],
            after[i + 1],
        ) by {
            let a = path[i];
            let b = path[i + 1];
            assert(self.edge(a, b));
            self.lemma_path_nodes(path, i);
            self.lemma_path_nodes(path, i + 1);
            if a == p && b == old_child {
                assert(after[i] == p);
            } else if i > 0 && path[i - 1] == p && a == old_child {
                assert(after[i] == c);
                assert(after[i + 1] == b);
            } else {
                assert(after[i] == a);
                assert(after[i + 1] == b);
                if a == old_child {
                    assert(i > 0);
                    assert(self.parents(a).contains(path[i - 1]));
                    assert(self.held_besides(old_child, p));
                }
            }
        }
        assert forall|i: int| 0 <= i < text.len() implies h.data(#[trigger] after[i + 1]) == Some(
            text[i],
        ) by {
            self.lemma_path_nodes(path, i + 1);
            assert(self.data(path[i + 1]) == Some(text[i]));
            assert(h.value(path[i + 1]).data == self.value(path[i + 1]).data);
        }
    }
}

} // verus!
