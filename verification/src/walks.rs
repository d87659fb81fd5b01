//! Following a text through the trie, character by character.

use crate::graph::{Graph, NodeRef};
use crate::trie::TrieNode;
use vstd::prelude::*;

verus! {

impl Graph<TrieNode> {
    /// The node that `text` leads to from the root, if every character
    /// has its child.
    pub open spec fn walk(self, text: Seq<char>) -> Option<NodeRef>
        decreases text.len(),
    {
        if text.len() == 0 {
            Some(self.root)
        } else {
            match self.walk(text.drop_last()) {
                Some(n) => self.child_with(n, text.last()),
                None => None,
            }
        }
    }

    /// In a trie the child for a character is the one child that carries
    /// it.
    pub proof fn lemma_child_with_iff(self, n: NodeRef, character: char, x: NodeRef)
        requires
            self.has(n),
            self.trie_node(n),
        ensures
            self.child_with(n, character) == Some(x) <==> self.children(n).contains(x) && self.data(
                x,
            ) == Some(character),
    {
        self.lemma_child_with(n, character);
    }

    /// What a walk arrives at is a node of the trie that is attached;
    /// after at least one character it is a child of what the walk
    /// arrived at before, carries the last character, and is not the
    /// root.
    pub proof fn lemma_walk_node(self, text: Seq<char>)
        requires
            self.is_trie(),
            self.walk(text) is Some,
        ensures
            self.has(self.walk(text)->0),
            self.attached(self.walk(text)->0),
            text.len() >= 1 ==> {
                &&& self.walk(text.drop_last()) is Some
                &&& self.has(self.walk(text.drop_last())->0)
                &&& self.children(self.walk(text.drop_last())->0).contains(self.walk(text)->0)
                &&& self.parents(self.walk(text)->0).contains(self.walk(text.drop_last())->0)
                &&& self.data(self.walk(text)->0) == Some(text.last())
                &&& self.walk(text)->0 != self.root
            },
        decreases text.len(),
    {
        if text.len() >= 1 {
            let front = text.drop_last();
            self.lemma_walk_node(front);
            let m = self.walk(front)->0;
            self.lemma_child_with(m, text.last());
            assert(self.node_wf(m));
            let n = self.walk(text)->0;
            assert(self.parents(n).contains(m));
            assert(self.parents(n).len() > 0);
        }
    }

    /// In a trie a path that spells a text is the way that the walk
    /// takes.
    pub proof fn lemma_walk_of_path(self, path: Seq<NodeRef>, text: Seq<char>)
        requires
            self.is_trie(),
            self.spells(path, text),
        ensures
            self.walk(text) == Some(path.last()),
        decreases text.len(),
    {
        if text.len() >= 1 {
            let front = text.drop_last();
            let shorter = path.drop_last();
            assert(self.spells(shorter, front)) by {
                assert forall|i: int| 0 <= i < shorter.len() - 1 implies self.edge(
                    #[trigger] shorter[i],
                    shorter[i + 1],
                ) by {
                    assert(self.edge(path[i], path[i + 1]));
                }
                assert forall|i: int| 0 <= i < front.len() implies self.data(
                    #[trigger] shorter[i + 1],
                ) == Some(front[i]) by {
                    assert(self.data(path[i + 1]) == Some(text[i]));
                }
            }
            self.lemma_walk_of_path(shorter, front);
            let m = shorter.last();
            assert(m == path[path.len() - 2]);
            assert(self.edge(path[path.len() - 2], path[path.len() - 2 + 1]));
            assert(self.data(path[(text.len() - 1) + 1]) == Some(text[text.len() - 1]));
            assert(self.trie_node(m));
            self.lemma_child_with_iff(m, text.last(), path.last());
        }
    }

    /// Where the walk arrives, a path from the root spells the text.
    pub proof fn lemma_path_of_walk(self, text: Seq<char>) -> (path: Seq<NodeRef>)
        requires
            self.is_trie(),
            self.walk(text) is Some,
        ensures
            self.spells(path, text),
            path.last() == self.walk(text)->0,
        decreases text.len(),
    {
        if text.len() == 0 {
            seq![self.root]
        } else {
            let front = text.drop_last();
            self.lemma_walk_node(text);
            let shorter = self.lemma_path_of_walk(front);
            let n = self.walk(text)->0;
            let path = shorter.push(n);
            assert forall|i: int| 0 <= i < path.len() - 1 implies self.edge(
                #[trigger] path[i],
                path[i + 1],
            ) by {
                if i < shorter.len() - 1 {
                    assert(self.edge(shorter[i], shorter[i + 1]));
                }
            }
            assert forall|i: int| 0 <= i < text.len() implies self.data(#[trigger] path[i + 1])
                == Some(text[i]) by {
                if i < front.len() {
                    assert(self.data(shorter[i + 1]) == Some(front[i]));
                }
            }
            path
        }
    }
}

/// `h` is `g` after the node `p` got `succ` as its child for
/// `character`: `succ` carries the character and has the children that
/// the child for the character had before, if there was one; `p` has
/// `succ` and its other children; every other node has the children that
/// it had, unless it was that child and no other parent holds it.
pub open spec fn swapped(
    g: Graph<TrieNode>,
    h: Graph<TrieNode>,
    p: NodeRef,
    character: char,
    succ: NodeRef,
) -> bool {
    &&& g.is_trie()
    &&& h.is_trie()
    &&& h.root == g.root
    &&& g.nodes.len() <= h.nodes.len()
    &&& g.has(p)
    &&& h.has(succ)
    &&& succ != p
    &&& forall|m: NodeRef| g.has(m) ==> (#[trigger] h.value(m)).data == g.value(m).data
    &&& h.data(succ) == Some(character)
    &&& forall|x: NodeRef| #[trigger]
        h.children(p).contains(x) ==> x == succ || (g.children(p).contains(x) && g.data(x) != Some(
            character,
        ))
    &&& h.children(p).contains(succ)
    &&& forall|x: NodeRef|
        #[trigger] g.children(p).contains(x) && g.data(x) != Some(character) ==> h.children(
            p,
        ).contains(x)
    &&& forall|x: NodeRef| #[trigger]
        h.children(succ).contains(x) ==> g.child_with(p, character) is Some && g.children(
            g.child_with(p, character)->0,
        ).contains(x)
    &&& g.child_with(p, character) is Some ==> forall|x: NodeRef| #[trigger]
        g.children(g.child_with(p, character)->0).contains(x) ==> h.children(succ).contains(x)
    &&& forall|m: NodeRef, x: NodeRef|
        g.has(m) && m != p && (Some(m) != g.child_with(p, character) || g.held_besides(m, p))
            && #[trigger] h.children(m).contains(x) ==> g.children(m).contains(x)
    &&& forall|m: NodeRef, x: NodeRef|
        g.has(m) && m != p && (Some(m) != g.child_with(p, character) || g.held_besides(m, p))
            && #[trigger] g.children(m).contains(x) ==> h.children(m).contains(x)
}

/// The walk along `text` comes to `p` before the last character, and the
/// last character is `character`.
pub open spec fn hits(g: Graph<TrieNode>, p: NodeRef, character: char, text: Seq<char>) -> bool {
    text.len() >= 1 && text.last() == character && g.walk(text.drop_last()) == Some(p)
}

impl Graph<TrieNode> {
    /// Two nodes of two tries whose children for a character are the
    /// same have the same child for it.
    pub proof fn lemma_same_child(
        self,
        h: Graph<TrieNode>,
        n: NodeRef,
        m: NodeRef,
        character: char,
    )
        requires
            self.is_trie(),
            h.is_trie(),
            self.has(n),
            h.has(m),
            forall|x: NodeRef|
                #[trigger] h.children(m).contains(x) && h.data(x) == Some(character)
                    ==> self.children(n).contains(x) && self.data(x) == Some(character),
            forall|x: NodeRef|
                #[trigger] self.children(n).contains(x) && self.data(x) == Some(character)
                    ==> h.children(m).contains(x) && h.data(x) == Some(character),
        ensures
            h.child_with(m, character) == self.child_with(n, character),
    {
        self.lemma_child_with(n, character);
        h.lemma_child_with(m, character);
        assert(self.trie_node(n));
        assert(h.trie_node(m));
        match h.child_with(m, character) {
            Some(x) => {
                self.lemma_child_with_iff(n, character, x);
            },
            None => {
                match self.child_with(n, character) {
                    Some(y) => {
                        assert(h.children(m).contains(y));
                    },
                    None => {},
                }
            },
        }
    }

    /// After a swap, a walk that hit the swapped edge arrives at the
    /// successor, and every other walk arrives where it did.
    pub proof fn lemma_walk_swapped(
        self,
        h: Graph<TrieNode>,
        p: NodeRef,
        character: char,
        succ: NodeRef,
        text: Seq<char>,
    )
        requires
            swapped(self, h, p, character, succ),
        ensures
            h.walk(text) == if hits(self, p, character, text) {
                Some(succ)
            } else {
                self.walk(text)
            },
        decreases text.len(),
    {
        let g = self;
        if text.len() >= 1 {
            let front = text.drop_last();
            let a = text.last();
            g.lemma_walk_swapped(h, p, character, succ, front);
            g.lemma_child_with(p, character);
            assert(g.node_wf(p));
            assert(g.trie_node(p));
            if hits(g, p, character, front) {
                assert(h.walk(front) == Some(succ));
                let r = g.child_with(p, character);
                assert(g.walk(front) == r);
                match r {
                    Some(old_child) => {
                        assert(old_child != p);
                        assert(g.node_wf(old_child));
                        assert(h.node_wf(succ));
                        assert forall|x: NodeRef|
                            #[trigger] h.children(succ).contains(x) && h.data(x) == Some(
                                a,
                            ) implies g.children(old_child).contains(x) && g.data(x) == Some(a) by {
                            assert(g.children(old_child).contains(x));
                            assert(h.value(x).data == g.value(x).data);
                        }
                        assert forall|x: NodeRef|
                            #[trigger] g.children(old_child).contains(x) && g.data(x) == Some(
                                a,
                            ) implies h.children(succ).contains(x) && h.data(x) == Some(a) by {
                            assert(h.value(x).data == g.value(x).data);
                        }
                        g.lemma_same_child(h, old_child, succ, a);
                    },
                    None => {
                        h.lemma_child_with(succ, a);
                        match h.child_with(succ, a) {
                            Some(x) => {
                                assert(h.children(succ).contains(x));
                            },
                            None => {},
                        }
                    },
                }
            } else {
                match g.walk(front) {
                    None => {},
                    Some(n) => {
                        g.lemma_walk_node(front);
                        assert(g.node_wf(n));
                        assert(h.node_wf(n));
                        if n == p {
                            if a == character {
                                assert(h.trie_node(p));
                                h.lemma_child_with_iff(p, character, succ);
                            } else {
                                assert forall|x: NodeRef|
                                    #[trigger] h.children(p).contains(x) && h.data(x) == Some(
                                        a,
                                    ) implies g.children(p).contains(x) && g.data(x) == Some(a) by {
                                    assert(h.value(x).data == g.value(x).data);
                                }
                                assert forall|x: NodeRef|
                                    #[trigger] g.children(p).contains(x) && g.data(x) == Some(
                                        a,
                                    ) implies h.children(p).contains(x) && h.data(x) == Some(a) by {
                                    assert(h.value(x).data == g.value(x).data);
                                }
                                g.lemma_same_child(h, p, p, a);
                            }
                        } else {
                            if Some(n) == g.child_with(p, character) {
                                let q = g.walk(front.drop_last())->0;
                                assert(g.parents(n).contains(q));
                                assert(q != p);
                                assert(g.held_besides(n, p));
                            }
                            assert forall|x: NodeRef|
                                #[trigger] h.children(n).contains(x) && h.data(x) == Some(
                                    a,
                                ) implies g.children(n).contains(x) && g.data(x) == Some(a) by {
                                assert(g.children(n).contains(x));
                                assert(h.value(x).data == g.value(x).data);
                            }
                            assert forall|x: NodeRef|
                                #[trigger] g.children(n).contains(x) && g.data(x) == Some(
                                    a,
                                ) implies h.children(n).contains(x) && h.data(x) == Some(a) by {
                                assert(h.value(x).data == g.value(x).data);
                            }
                            g.lemma_same_child(h, n, n, a);
                        }
                    },
                }
            }
        }
    }
}

} // verus!
