//! The count of a node is the number of times that the text spelt on the
//! way to it occurs in the text read, as long as no suffix has grown
//! beyond the bound.

use crate::frontier::{distinct, holds, TriePointer};
use crate::graph::{
    inserted, lemma_inserted_contains, lemma_without_contains, without, Graph, NodeRef,
};
use crate::suffix::{ScanView, StepView};
use crate::text::{
    is_suffix, lemma_occurrences_push, lemma_suffix_occurs, lemma_suffix_push, occurrences,
};
use crate::trie::TrieNode;
use crate::walks::{hits, swapped};
use vstd::prelude::*;

verus! {

/// `text` ends with the character that is being read, and what comes
/// before that character leads, in the graph from before the character,
/// to the node of an entry that has been consumed.
pub open spec fn advanced(
    base: Graph<TrieNode>,
    entries: Seq<TriePointer>,
    rest: Seq<TriePointer>,
    character: char,
    text: Seq<char>,
) -> bool {
    text.len() >= 1 && text.last() == character && match base.walk(text.drop_last()) {
        Some(q) => holds(entries, q) && !holds(rest, q),
        None => false,
    }
}

impl StepView {
    /// Where `text` leads in the middle of a character: a text that has
    /// advanced leads to the copy of the node that it led to, or to the
    /// child created for the character if it led nowhere; every other
    /// text leads where it led.
    pub open spec fn expected(
        self,
        base: Graph<TrieNode>,
        entries: Seq<TriePointer>,
        rest: Seq<TriePointer>,
        character: char,
        text: Seq<char>,
    ) -> Option<NodeRef> {
        if advanced(base, entries, rest, character, text) {
            match base.walk(text) {
                Some(old_child) => if self.diverged.contains_key(old_child) {
                    Some(self.diverged[old_child])
                } else {
                    None
                },
                None => self.fresh,
            }
        } else {
            base.walk(text)
        }
    }

    /// The copy of `old_child` counts one more than `old_child` did, and
    /// has the children of `old_child` unless `old_child` has lost its
    /// parents.
    pub open spec fn copy_counts(self, base: Graph<TrieNode>, old_child: NodeRef) -> bool {
        let c = self.diverged[old_child];
        &&& self.graph.count(c) == base.count(old_child) + 1
        &&& self.graph.parents(old_child).len() == 0 || ((forall|x: NodeRef| #[trigger]
            self.graph.children(c).contains(x) ==> self.graph.children(old_child).contains(x))
            && (forall|x: NodeRef| #[trigger]
            self.graph.children(old_child).contains(x) ==> self.graph.children(c).contains(x)))
    }

    /// The node of an entry that is still to be consumed has the
    /// children that it had before the character.
    pub open spec fn untouched(self, base: Graph<TrieNode>, n: NodeRef) -> bool {
        &&& forall|x: NodeRef| #[trigger]
            self.graph.children(n).contains(x) ==> base.children(n).contains(x)
        &&& forall|x: NodeRef| #[trigger]
            base.children(n).contains(x) ==> self.graph.children(n).contains(x)
    }

    /// What holds of the walks in the middle of a character, where
    /// `entries` was the frontier before it and `rest` is what is left of
    /// that frontier.
    pub open spec fn counted(
        self,
        base: Graph<TrieNode>,
        entries: Seq<TriePointer>,
        rest: Seq<TriePointer>,
        character: char,
    ) -> bool {
        &&& base.is_trie()
        &&& forall|text: Seq<char>| #[trigger]
            self.graph.walk(text) == self.expected(base, entries, rest, character, text)
        &&& forall|text: Seq<char>| #[trigger]
            advanced(base, entries, rest, character, text) ==> match base.walk(text) {
                Some(old_child) => self.diverged.contains_key(old_child),
                None => self.fresh is Some,
            }
        &&& forall|old_child: NodeRef| #[trigger]
            self.diverged.contains_key(old_child) ==> self.copy_counts(base, old_child)
        &&& match self.fresh {
            Some(n) => self.graph.count(n) == 1,
            None => true,
        }
        &&& forall|i: int|
            0 <= i < rest.len() ==> holds(entries, (#[trigger] rest[i]).position) && self.untouched(
                base,
                rest[i].position,
            )
    }

    /// The general step: whatever the move, if it swapped the child for
    /// the character under the node of the first entry for the successor
    /// and kept the books as the conditions say, the walks are as
    /// expected afterwards.
    pub proof fn lemma_counted_step(
        self,
        after: StepView,
        base: Graph<TrieNode>,
        entries: Seq<TriePointer>,
        rest: Seq<TriePointer>,
        steps: nat,
        max_depth: Option<usize>,
        character: char,
    )
        requires
            self.inv(base, rest, steps, max_depth, character),
            self.ordered(rest),
            self.counted(base, entries, rest, character),
            rest.len() > 0,
            swapped(
                self.graph,
                after.graph,
                rest[0].position,
                character,
                self.successor(rest[0], character),
            ),
            after.graph.extends(base),
            !base.has(self.successor(rest[0], character)),
            after.fresh == match self.graph.child_with(rest[0].position, character) {
                Some(old_child) => self.fresh,
                None => Some(self.successor(rest[0], character)),
            },
            forall|k: NodeRef|
                after.diverged.contains_key(k) <==> self.diverged.contains_key(k) || Some(k)
                    == self.graph.child_with(rest[0].position, character),
            forall|k: NodeRef|
                self.diverged.contains_key(k) ==> #[trigger] after.diverged[k] == self.diverged[k],
            self.graph.child_with(rest[0].position, character) is Some
                ==> after.diverged[self.graph.child_with(rest[0].position, character)->0]
                == self.successor(rest[0], character),
            after.graph.count(self.successor(rest[0], character)) == match self.graph.child_with(
                rest[0].position,
                character,
            ) {
                Some(old_child) => base.count(old_child) + 1,
                None => 1,
            },
            forall|m: NodeRef|
                self.graph.has(m) ==> (#[trigger] after.graph.value(m)).count == self.graph.value(
                    m,
                ).count,
            forall|m: NodeRef|
                self.graph.has(m) && m != self.successor(rest[0], character) && self.graph.parents(
                    m,
                ).len() == 0 ==> (#[trigger] after.graph.parents(m)).len() == 0,
            self.graph.child_with(rest[0].position, character) is Some && !self.graph.held_besides(
                self.graph.child_with(rest[0].position, character)->0,
                rest[0].position,
            ) ==> after.graph.parents(
                self.graph.child_with(rest[0].position, character)->0,
            ).len() == 0,
        ensures
            after.counted(base, entries, rest.drop_first(), character),
    {
        let g = self.graph;
        let h = after.graph;
        let p = rest[0].position;
        let succ = self.successor(rest[0], character);
        let tail = rest.drop_first();
        let found = g.child_with(p, character);
        assert(self.pending(base, rest[0], steps, max_depth));
        assert(holds(entries, p));
        assert(self.untouched(base, p));
        if found is Some {
            self.lemma_old_child(base, rest, steps, max_depth, character);
        }
        assert(!holds(tail, p)) by {
            if holds(tail, p) {
                let i = choose|i: int| 0 <= i < tail.len() && (#[trigger] tail[i]).position == p;
                assert(tail[i] == rest[i + 1]);
            }
        }
        assert forall|q: NodeRef| holds(tail, q) implies holds(rest, q) by {
            let i = choose|i: int| 0 <= i < tail.len() && (#[trigger] tail[i]).position == q;
            assert(rest[i + 1].position == q);
        }
        assert forall|q: NodeRef| holds(rest, q) && q != p implies holds(tail, q) by {
            let i = choose|i: int| 0 <= i < rest.len() && (#[trigger] rest[i]).position == q;
            assert(tail[i - 1].position == q);
        }
        // the child for the character is the same in the graph before the
        // character as now
        assert(base.child_with(p, character) == found) by {
            assert forall|x: NodeRef|
                #[trigger] base.children(p).contains(x) && base.data(x) == Some(
                    character,
                ) implies g.children(p).contains(x) && g.data(x) == Some(character) by {
                assert(g.children(p).contains(x));
                assert(g.value(x) == base.value(x));
            }
            assert forall|x: NodeRef|
                #[trigger] g.children(p).contains(x) && g.data(x) == Some(
                    character,
                ) implies base.children(p).contains(x) && base.data(x) == Some(character) by {
                assert(base.children(p).contains(x));
                assert(base.node_wf(p));
                assert(g.value(x) == base.value(x));
            }
            g.lemma_same_child(base, p, p, character);
        }
        // a text leads to the node of the entry now exactly if it led there
        assert forall|front: Seq<char>| (#[trigger] g.walk(front) == Some(p)) <==> base.walk(front)
            == Some(p) by {
            assert(g.walk(front) == self.expected(base, entries, rest, character, front));
            if advanced(base, entries, rest, character, front) {
                match base.walk(front) {
                    Some(old_child) => {
                        assert(self.diverged.contains_key(old_child));
                        assert(self.copy_ok(base, old_child, character));
                        if old_child == p {
                            assert(self.mirrored(rest, p));
                        }
                    },
                    None => {
                        assert(self.fresh_ok(base, character));
                    },
                }
            }
        }
        assert forall|text: Seq<char>| #[trigger]
            h.walk(text) == after.expected(base, entries, tail, character, text) by {
            g.lemma_walk_swapped(h, p, character, succ, text);
            assert(g.walk(text) == self.expected(base, entries, rest, character, text));
            if text.len() >= 1 {
                let front = text.drop_last();
                assert((g.walk(front) == Some(p)) <==> base.walk(front) == Some(p));
                if hits(g, p, character, text) {
                    assert(advanced(base, entries, tail, character, text));
                    assert(base.walk(text) == found);
                } else {
                    assert(advanced(base, entries, tail, character, text) == advanced(
                        base,
                        entries,
                        rest,
                        character,
                        text,
                    ));
                    if advanced(base, entries, rest, character, text) {
                        match base.walk(text) {
                            Some(old_child) => {
                                assert(self.diverged.contains_key(old_child));
                            },
                            None => {
                                assert(self.fresh is Some);
                                assert(after.fresh == self.fresh);
                            },
                        }
                    }
                }
            }
        }
        assert forall|text: Seq<char>| #[trigger]
            advanced(base, entries, tail, character, text) implies match base.walk(text) {
            Some(old_child) => after.diverged.contains_key(old_child),
            None => after.fresh is Some,
        } by {
            let front = text.drop_last();
            if advanced(base, entries, rest, character, text) {
                match base.walk(text) {
                    Some(old_child) => {
                        assert(self.diverged.contains_key(old_child));
                    },
                    None => {
                        assert(self.fresh is Some);
                    },
                }
            } else {
                assert(base.walk(front) == Some(p));
                assert(base.walk(text) == found);
            }
        }
        assert forall|old_child: NodeRef| #[trigger]
            after.diverged.contains_key(old_child) implies after.copy_counts(base, old_child) by {
            let c = after.diverged[old_child];
            if self.diverged.contains_key(old_child) {
                assert(self.copy_counts(base, old_child));
                assert(self.copy_ok(base, old_child, character));
                assert(self.mirrored(rest, old_child));
                assert(c == self.diverged[old_child]);
                assert(h.value(c).count == g.value(c).count);
                assert(old_child != p);
                assert(c != p);
                if g.parents(old_child).len() == 0 {
                    assert(h.parents(old_child).len() == 0);
                } else if Some(old_child) == found && !g.held_besides(old_child, p) {
                    assert(h.parents(old_child).len() == 0);
                } else {
                    assert forall|x: NodeRef| #[trigger] h.children(c).contains(x) implies h.children(
                        old_child,
                    ).contains(x) by {
                        assert(g.children(c).contains(x));
                        assert(g.children(old_child).contains(x));
                    }
                    assert forall|x: NodeRef| #[trigger] h.children(old_child).contains(
                        x,
                    ) implies h.children(c).contains(x) by {
                        assert(g.children(old_child).contains(x));
                        assert(g.children(c).contains(x));
                    }
                }
            } else {
                assert(Some(old_child) == found);
                assert(c == succ);
                self.lemma_old_child(base, rest, steps, max_depth, character);
                if !g.held_besides(old_child, p) {
                    assert(h.parents(old_child).len() == 0);
                } else {
                    assert forall|x: NodeRef| #[trigger] h.children(c).contains(x) implies h.children(
                        old_child,
                    ).contains(x) by {
                        assert(g.children(old_child).contains(x));
                    }
                    assert forall|x: NodeRef| #[trigger] h.children(old_child).contains(
                        x,
                    ) implies h.children(c).contains(x) by {
                        assert(g.children(old_child).contains(x));
                    }
                }
            }
        }
        assert forall|i: int| 0 <= i < tail.len() implies holds(
            entries,
            (#[trigger] tail[i]).position,
        ) && after.untouched(base, tail[i].position) by {
            let m = tail[i].position;
            assert(tail[i] == rest[i + 1]);
            assert(self.untouched(base, m));
            assert(self.pending(base, rest[i + 1], steps, max_depth));
            assert(m != p);
            if found is Some {
                self.lemma_old_child(base, rest, steps, max_depth, character);
                assert(holds(tail, m));
                assert(Some(m) != found);
            }
        }
        match after.fresh {
            Some(n) => {
                if found is Some {
                    assert(self.fresh_ok(base, character));
                    assert(h.value(n).count == g.value(n).count);
                }
            },
            None => {},
        }
    }

    /// An entry whose node has been unlinked leads no text anywhere, so
    /// that consuming it changes no walk.
    pub proof fn lemma_counted_skipped(
        self,
        base: Graph<TrieNode>,
        entries: Seq<TriePointer>,
        rest: Seq<TriePointer>,
        steps: nat,
        max_depth: Option<usize>,
        character: char,
    )
        requires
            self.inv(base, rest, steps, max_depth, character),
            self.ordered(rest),
            self.counted(base, entries, rest, character),
            rest.len() > 0,
            !self.graph.attached(rest[0].position),
        ensures
            self.counted(base, entries, rest.drop_first(), character),
    {
        let g = self.graph;
        let p = rest[0].position;
        let tail = rest.drop_first();
        assert forall|q: NodeRef| holds(tail, q) implies holds(rest, q) by {
            let i = choose|i: int| 0 <= i < tail.len() && (#[trigger] tail[i]).position == q;
            assert(rest[i + 1].position == q);
        }
        assert forall|q: NodeRef| holds(rest, q) && q != p implies holds(tail, q) by {
            let i = choose|i: int| 0 <= i < rest.len() && (#[trigger] rest[i]).position == q;
            assert(tail[i - 1].position == q);
        }
        assert forall|front: Seq<char>| base.walk(front) != Some(p) by {
            if base.walk(front) == Some(p) {
                assert(g.walk(front) == self.expected(base, entries, rest, character, front));
                if advanced(base, entries, rest, character, front) {
                    assert(self.diverged.contains_key(p));
                    assert(self.mirrored(rest, p));
                }
                g.lemma_walk_node(front);
            }
        }
        assert forall|text: Seq<char>|
            advanced(base, entries, tail, character, text) == advanced(
                base,
                entries,
                rest,
                character,
                text,
            ) by {
            if text.len() >= 1 {
                assert(base.walk(text.drop_last()) != Some(p));
            }
        }
        assert forall|text: Seq<char>| #[trigger]
            g.walk(text) == self.expected(base, entries, tail, character, text) by {
            assert(g.walk(text) == self.expected(base, entries, rest, character, text));
        }
        assert forall|text: Seq<char>| #[trigger]
            advanced(base, entries, tail, character, text) implies match base.walk(text) {
            Some(old_child) => self.diverged.contains_key(old_child),
            None => self.fresh is Some,
        } by {
            assert(advanced(base, entries, rest, character, text));
        }
        assert forall|i: int| 0 <= i < tail.len() implies holds(
            entries,
            (#[trigger] tail[i]).position,
        ) && self.untouched(base, tail[i].position) by {
            assert(tail[i] == rest[i + 1]);
        }
    }

    /// Creating the child for the character keeps the walks as expected.
    pub proof fn lemma_counted_appended(
        self,
        base: Graph<TrieNode>,
        entries: Seq<TriePointer>,
        rest: Seq<TriePointer>,
        steps: nat,
        max_depth: Option<usize>,
        character: char,
    )
        requires
            self.inv(base, rest, steps, max_depth, character),
            self.ordered(rest),
            self.counted(base, entries, rest, character),
            rest.len() > 0,
            self.graph.child_with(rest[0].position, character) is None,
            self.graph.attached(rest[0].position),
            self.fresh is None,
            self.graph.nodes.len() < usize::MAX,
        ensures
            self.resolved(rest[0], character).counted(base, entries, rest.drop_first(), character),
    {
        let g = self.graph;
        let p = rest[0].position;
        let depth = (rest[0].depth + 1) as usize;
        let n = g.nodes.len() as NodeRef;
        let value = TrieNode { data: Some(character), count: 1, max_depth: depth };
        let after = self.resolved(rest[0], character);
        assert(after == self.appended(p, depth, character));
        let h = after.graph;
        let g1 = g.with_node(value);
        self.lemma_appended(base, rest, steps, max_depth, character);
        assert(self.pending(base, rest[0], steps, max_depth));
        g.lemma_child_with(p, character);
        g1.lemma_linked(p, n);
        assert forall|m: NodeRef| g.has(m) implies #[trigger] h.value(m) == g.value(m) by {
            assert(g1.value(m) == g.value(m));
        }
        assert(h.value(n) == value) by {
            assert(g1.value(n) == value);
        }
        assert(h.children(p) == inserted(g.children(p), n));
        assert(h.children(n) =~= Seq::<NodeRef>::empty()) by {
            assert(g1.children(n) =~= Seq::<NodeRef>::empty());
        }
        lemma_inserted_contains(g.children(p), n, n);
        assert(swapped(g, h, p, character, n)) by {
            assert forall|x: NodeRef| #[trigger] h.children(p).contains(x) implies x == n || (
            g.children(p).contains(x) && g.data(x) != Some(character)) by {
                lemma_inserted_contains(g.children(p), n, x);
            }
            assert forall|x: NodeRef|
                #[trigger] g.children(p).contains(x) && g.data(x) != Some(
                    character,
                ) implies h.children(p).contains(x) by {
                lemma_inserted_contains(g.children(p), n, x);
            }
            assert forall|m: NodeRef, x: NodeRef|
                g.has(m) && m != p && #[trigger] h.children(m).contains(x) implies g.children(
                m,
            ).contains(x) by {
                assert(h.children(m) == g1.children(m));
            }
            assert forall|m: NodeRef, x: NodeRef|
                g.has(m) && m != p && #[trigger] g.children(m).contains(x) implies h.children(
                m,
            ).contains(x) by {
                assert(h.children(m) == g1.children(m));
            }
        }
        assert forall|m: NodeRef|
            g.has(m) && m != n && g.parents(m).len() == 0 implies (#[trigger] h.parents(m)).len()
            == 0 by {
            assert(h.parents(m) == g1.parents(m));
        }
        self.lemma_counted_step(after, base, entries, rest, steps, max_depth, character);
    }

    /// Sharing the child that was created for the character keeps the walks as
    /// expected.
    pub proof fn lemma_counted_shared(
        self,
        base: Graph<TrieNode>,
        entries: Seq<TriePointer>,
        rest: Seq<TriePointer>,
        steps: nat,
        max_depth: Option<usize>,
        character: char,
    )
        requires
            self.inv(base, rest, steps, max_depth, character),
            self.ordered(rest),
            self.counted(base, entries, rest, character),
            rest.len() > 0,
            self.graph.child_with(rest[0].position, character) is None,
            self.graph.attached(rest[0].position),
            self.fresh is Some,
        ensures
            self.resolved(rest[0], character).counted(base, entries, rest.drop_first(), character),
    {
        let g = self.graph;
        let p = rest[0].position;
        let n = self.fresh->0;
        let after = self.resolved(rest[0], character);
        let h = g.linked(p, n);
        self.lemma_shared(base, rest, steps, max_depth, character);
        self.lemma_effect_shared(base, rest, steps, max_depth, character);
        assert(after == (StepView { graph: h, ..self }));
        assert(self.pending(base, rest[0], steps, max_depth));
        assert(self.fresh_ok(base, character));
        g.lemma_child_with(p, character);
        g.lemma_linked(p, n);
        lemma_inserted_contains(g.children(p), n, n);
        assert(g.children(n) =~= Seq::<NodeRef>::empty());
        assert(swapped(g, h, p, character, n)) by {
            assert forall|x: NodeRef| #[trigger] h.children(p).contains(x) implies x == n || (
            g.children(p).contains(x) && g.data(x) != Some(character)) by {
                lemma_inserted_contains(g.children(p), n, x);
            }
            assert forall|x: NodeRef|
                #[trigger] g.children(p).contains(x) && g.data(x) != Some(
                    character,
                ) implies h.children(p).contains(x) by {
                lemma_inserted_contains(g.children(p), n, x);
            }
        }
        self.lemma_counted_step(after, base, entries, rest, steps, max_depth, character);
    }

    /// Putting a copy in the place of the child that the character leads to
    /// keeps the walks as expected.
    pub proof fn lemma_counted_split(
        self,
        base: Graph<TrieNode>,
        entries: Seq<TriePointer>,
        rest: Seq<TriePointer>,
        steps: nat,
        max_depth: Option<usize>,
        character: char,
    )
        requires
            self.inv(base, rest, steps, max_depth, character),
            self.ordered(rest),
            self.counted(base, entries, rest, character),
            rest.len() > 0,
            self.graph.child_with(rest[0].position, character) is Some,
            !self.diverged.contains_key(self.graph.child_with(rest[0].position, character)->0),
            self.graph.nodes.len() < usize::MAX,
        ensures
            self.resolved(rest[0], character).counted(base, entries, rest.drop_first(), character),
    {
        let g = self.graph;
        let p = rest[0].position;
        let old_child = g.child_with(p, character)->0;
        let depth = (rest[0].depth + 1) as usize;
        let c = g.nodes.len() as NodeRef;
        let g1 = g.copied(old_child, g.value(old_child));
        let g2 = g1.with_count(c, (g.count(old_child) + 1) as usize);
        let h3 = g2.replaced(p, old_child, c);
        let after = self.resolved(rest[0], character);
        assert(after == self.split(p, old_child, depth));
        let h = after.graph;
        assert(h == h3.with_depth(c, depth));
        self.lemma_split(base, rest, steps, max_depth, character);
        self.lemma_old_child(base, rest, steps, max_depth, character);
        assert(g.trie_node(p));
        assert(g.node_wf(old_child));
        g.lemma_copied(old_child, g.value(old_child));
        g.lemma_copied_wf(old_child, g.value(old_child));
        g1.lemma_with_value_wf(
            c,
            TrieNode { count: (g.count(old_child) + 1) as usize, ..g1.value(c) },
        );
        assert(g2.attached(p)) by {
            if p != g.root {
                assert(g.parents(p).len() > 0);
                if g.children(old_child).contains(p) {
                    assert(g1.parents(p) == g.parents(p).push(c));
                }
            }
        }
        assert(g2.children(c) == g.children(old_child));
        assert(g2.children(old_child) == g.children(old_child));
        g2.lemma_replaced_exact(p, old_child, c);
        assert forall|m: NodeRef| g.has(m) implies #[trigger] h.value(m) == g.value(m) by {
            assert(h3.value(m) == g2.value(m));
            assert(g1.value(m) == g.value(m));
        }
        assert(h.value(c).data == g.value(old_child).data && h.value(c).count == g.value(
            old_child,
        ).count + 1) by {
            assert(h3.value(c) == g2.value(c));
        }
        assert(g2.parents(old_child) == g.parents(old_child)) by {
            if g.children(old_child).contains(old_child) {
                assert(g.trie_node(old_child));
            }
        }
        assert(g2.held_besides(old_child, p) == g.held_besides(old_child, p));
        assert forall|m: NodeRef| g.has(m) implies #[trigger] h.children(m) == if m == p {
            without(inserted(g.children(p), c), old_child)
        } else if m == old_child && !g.held_besides(old_child, p) {
            Seq::<NodeRef>::empty()
        } else {
            g.children(m)
        } by {
            assert(h.children(m) == h3.children(m));
            assert(g2.children(m) == g.children(m));
        }
        assert(h.children(c) == g.children(old_child)) by {
            assert(h.children(c) == h3.children(c));
        }
        lemma_inserted_contains(g.children(p), c, c);
        lemma_without_contains(inserted(g.children(p), c), old_child, c);
        assert(swapped(g, h, p, character, c)) by {
            assert forall|x: NodeRef| #[trigger] h.children(p).contains(x) implies x == c || (
            g.children(p).contains(x) && g.data(x) != Some(character)) by {
                lemma_without_contains(inserted(g.children(p), c), old_child, x);
                lemma_inserted_contains(g.children(p), c, x);
            }
            assert forall|x: NodeRef|
                #[trigger] g.children(p).contains(x) && g.data(x) != Some(
                    character,
                ) implies h.children(p).contains(x) by {
                lemma_without_contains(inserted(g.children(p), c), old_child, x);
                lemma_inserted_contains(g.children(p), c, x);
            }
        }
        assert forall|m: NodeRef|
            g.has(m) && m != c && g.parents(m).len() == 0 implies (#[trigger] h.parents(m)).len()
            == 0 by {
            assert(h.parents(m) == h3.parents(m));
            if g.children(old_child).contains(m) {
                assert(g.parents(m).contains(old_child));
            }
            assert(g2.parents(m) == g.parents(m));
        }
        if !g.held_besides(old_child, p) {
            assert(h.parents(old_child) == h3.parents(old_child));
        }
        assert(g.value(old_child) == base.value(old_child));
        assert(after.diverged == self.diverged.insert(old_child, c));
        self.lemma_counted_step(after, base, entries, rest, steps, max_depth, character);
    }

    /// Putting the copy that was made before in the place of the child that
    /// the character leads to keeps the walks as expected.
    pub proof fn lemma_counted_rerouted(
        self,
        base: Graph<TrieNode>,
        entries: Seq<TriePointer>,
        rest: Seq<TriePointer>,
        steps: nat,
        max_depth: Option<usize>,
        character: char,
    )
        requires
            self.inv(base, rest, steps, max_depth, character),
            self.ordered(rest),
            self.counted(base, entries, rest, character),
            rest.len() > 0,
            self.graph.child_with(rest[0].position, character) is Some,
            self.diverged.contains_key(self.graph.child_with(rest[0].position, character)->0),
        ensures
            self.resolved(rest[0], character).counted(base, entries, rest.drop_first(), character),
    {
        let g = self.graph;
        let p = rest[0].position;
        let old_child = g.child_with(p, character)->0;
        let c = self.diverged[old_child];
        let h = g.replaced(p, old_child, c);
        let after = self.resolved(rest[0], character);
        self.lemma_rerouted(base, rest, steps, max_depth, character);
        self.lemma_effect_rerouted(base, rest, steps, max_depth, character);
        assert(after == (StepView { graph: h, ..self }));
        self.lemma_old_child(base, rest, steps, max_depth, character);
        assert(self.copy_ok(base, old_child, character));
        assert(self.mirrored(rest, old_child));
        assert(self.copy_counts(base, old_child));
        assert(g.trie_node(p));
        assert(g.node_wf(p));
        assert(g.parents(old_child).contains(p));
        g.lemma_replaced_exact(p, old_child, c);
        lemma_inserted_contains(g.children(p), c, c);
        lemma_without_contains(inserted(g.children(p), c), old_child, c);
        assert(swapped(g, h, p, character, c)) by {
            assert forall|x: NodeRef| #[trigger] h.children(p).contains(x) implies x == c || (
            g.children(p).contains(x) && g.data(x) != Some(character)) by {
                lemma_without_contains(inserted(g.children(p), c), old_child, x);
                lemma_inserted_contains(g.children(p), c, x);
            }
            assert forall|x: NodeRef|
                #[trigger] g.children(p).contains(x) && g.data(x) != Some(
                    character,
                ) implies h.children(p).contains(x) by {
                lemma_without_contains(inserted(g.children(p), c), old_child, x);
                lemma_inserted_contains(g.children(p), c, x);
            }
        }
        assert(after.diverged =~= self.diverged.insert(old_child, c));
        assert(g.value(old_child) == base.value(old_child));
        self.lemma_counted_step(after, base, entries, rest, steps, max_depth, character);
    }
}

impl ScanView {
    /// What holds of the walks between two characters, as long as no
    /// suffix has grown beyond the bound: a part that is not empty leads
    /// to a node exactly if it occurs in the text, and the count of that
    /// node is the number of its occurrences; and a walk ends at a node
    /// of the frontier exactly if the text ends with the part that was
    /// walked.
    pub open spec fn counted(self, text: Seq<char>) -> bool {
        &&& forall|part: Seq<char>|
            part.len() >= 1 ==> match #[trigger] self.graph.walk(part) {
                Some(n) => self.graph.count(n) == occurrences(text, part),
                None => occurrences(text, part) == 0,
            }
        &&& forall|part: Seq<char>|
            match #[trigger] self.graph.walk(part) {
                Some(n) => is_suffix(part, text) <==> holds(self.frontier, n),
                None => true,
            }
    }

    /// Before the first character nothing occurs and no part has a path.
    pub proof fn lemma_counted_initial()
        ensures
            ScanView::initial().counted(Seq::<char>::empty()),
    {
        let s = ScanView::initial();
        let g = s.graph;
        let none = Seq::<char>::empty();
        assert forall|part: Seq<char>| part.len() >= 1 implies g.walk(part) is None by {
            ScanView::lemma_initial_walk(part);
        }
        assert forall|part: Seq<char>| part.len() >= 1 implies occurrences(none, part) == 0 by {
            crate::text::lemma_occurrences_positive(none, part);
        }
        assert forall|part: Seq<char>|
            match #[trigger] g.walk(part) {
                Some(n) => is_suffix(part, none) <==> holds(s.frontier, n),
                None => true,
            } by {
            if part.len() == 0 {
                assert(s.frontier[0].position == 0);
                assert(none.subrange(0, 0) =~= part);
            } else {
                ScanView::lemma_initial_walk(part);
            }
        }
    }

    proof fn lemma_initial_walk(part: Seq<char>)
        requires
            part.len() >= 1,
        ensures
            ScanView::initial().graph.walk(part) is None,
        decreases part.len(),
    {
        let g = ScanView::initial().graph;
        if part.len() > 1 {
            ScanView::lemma_initial_walk(part.drop_last());
        } else {
            assert(part.drop_last().len() == 0);
            assert(g.walk(part.drop_last()) == Some(0usize));
            assert(g.children(0).len() == 0);
            assert(g.child_among(g.children(0), part.last()) is None);
        }
    }

    /// What holds of the walks between two characters holds at the start of
    /// the next character.
    pub proof fn lemma_counted_begin(
        self,
        text: Seq<char>,
        steps: nat,
        max_depth: Option<usize>,
        character: char,
    )
        requires
            self.inv(steps, max_depth),
            self.counted(text),
        ensures
            StepView::begin(self.graph).counted(self.graph, self.frontier, self.frontier, character),
    {
    }

    /// What holds of the walks when every entry has been consumed gives what
    /// holds of them between two characters, for the text with one more
    /// character.
    pub proof fn lemma_counted_finish(
        step: StepView,
        base: Graph<TrieNode>,
        entries: Seq<TriePointer>,
        steps: nat,
        text: Seq<char>,
        max_depth: Option<usize>,
        character: char,
    )
        requires
            step.inv(base, Seq::<TriePointer>::empty(), steps, max_depth, character),
            step.counted(base, entries, Seq::<TriePointer>::empty(), character),
            (ScanView { graph: base, frontier: entries }).counted(text),
            text.len() == steps,
            crate::prefixes::fits(max_depth, steps + 1),
        ensures
            (ScanView {
                graph: step.graph,
                frontier: crate::frontier::put(
                    crate::frontier::within(step.next, max_depth),
                    TriePointer { position: step.graph.root, depth: 0 },
                ),
            }).counted(text.push(character)),
    {
        let g = step.graph;
        let none = Seq::<TriePointer>::empty();
        let pointer = TriePointer { position: g.root, depth: 0 };
        let longer = text.push(character);
        let before = ScanView { graph: base, frontier: entries };
        assert forall|i: int| 0 <= i < step.next.len() implies crate::frontier::admits(
            max_depth,
            (#[trigger] step.next[i]).depth,
        ) by {
            assert(step.arrived(base, step.next[i]));
            assert(g.value(step.next[i].position).max_depth <= steps + 1);
        }
        crate::frontier::lemma_within_all(step.next, max_depth);
        crate::frontier::lemma_put_entries(step.next, pointer);
        let frontier = crate::frontier::put(step.next, pointer);
        assert forall|n: NodeRef| holds(frontier, n) implies holds(step.next, n) || n == g.root by {
            let i = choose|i: int| 0 <= i < frontier.len() && (#[trigger] frontier[i]).position == n;
            if frontier[i] != pointer {
                assert(step.next[i].position == n);
            }
        }
        assert forall|part: Seq<char>| part.len() >= 1 implies (advanced(
            base,
            entries,
            none,
            character,
            part,
        ) <==> is_suffix(part, longer)) by {
            let front = part.drop_last();
            lemma_suffix_push(text, character, part);
            assert(base.walk(front) == before.graph.walk(front));
            if is_suffix(front, text) {
                if front.len() >= 1 {
                    lemma_suffix_occurs(text, front);
                }
            }
        }
        assert forall|part: Seq<char>| part.len() >= 1 implies match #[trigger] g.walk(part) {
            Some(n) => g.count(n) == occurrences(longer, part),
            None => occurrences(longer, part) == 0,
        } by {
            lemma_occurrences_push(text, character, part);
            assert(g.walk(part) == step.expected(base, entries, none, character, part));
            assert(base.walk(part) == before.graph.walk(part));
            if advanced(base, entries, none, character, part) {
                match base.walk(part) {
                    Some(old_child) => {
                        assert(step.diverged.contains_key(old_child));
                        assert(step.copy_counts(base, old_child));
                    },
                    None => {},
                }
            } else {
                match base.walk(part) {
                    Some(n) => {
                        base.lemma_walk_node(part);
                        assert(g.value(n) == base.value(n));
                    },
                    None => {},
                }
            }
        }
        assert forall|part: Seq<char>|
            match #[trigger] g.walk(part) {
                Some(n) => is_suffix(part, longer) <==> holds(frontier, n),
                None => true,
            } by {
            assert(g.walk(part) == step.expected(base, entries, none, character, part));
            if part.len() == 0 {
                assert(longer.subrange(longer.len() as int, longer.len() as int) =~= part);
            } else {
                match g.walk(part) {
                    Some(n) => {
                        if advanced(base, entries, none, character, part) {
                            match base.walk(part) {
                                Some(old_child) => {
                                    assert(step.diverged.contains_key(old_child));
                                    assert(step.copy_ok(base, old_child, character));
                                },
                                None => {
                                    assert(step.fresh_ok(base, character));
                                },
                            }
                        } else {
                            base.lemma_walk_node(part);
                            if holds(step.next, n) {
                                let i = choose|i: int|
                                    0 <= i < step.next.len() && (#[trigger] step.next[i]).position
                                        == n;
                                assert(step.arrived(base, step.next[i]));
                            }
                        }
                    },
                    None => {},
                }
            }
        }
    }
}

} // verus!
