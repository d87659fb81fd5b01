//! Every prefix of the text keeps a path in the trie, as far as the bound
//! lets suffixes grow.

use crate::frontier::{
    admits, holds, lemma_put_entries, lemma_within, put, within, TriePointer,
};
use crate::graph::{Graph, NodeRef};
use crate::order::decreasing;
use crate::paths::rerouted;
use crate::suffix::{ScanView, StepView};
use crate::trie::TrieNode;
use vstd::prelude::*;

verus! {

/// A text of this length is within the bound, if there is one.
pub open spec fn fits(max_depth: Option<usize>, length: nat) -> bool {
    match max_depth {
        Some(bound) => length <= bound,
        None => true,
    }
}

/// A text of this length is at most one longer than the bound allows.
pub open spec fn nearly_fits(max_depth: Option<usize>, length: int) -> bool {
    match max_depth {
        Some(bound) => length <= bound + 1,
        None => true,
    }
}

impl Graph<TrieNode> {
    /// Some path from the root spells `text`.
    pub open spec fn has_text(self, text: Seq<char>) -> bool {
        exists|path: Seq<NodeRef>| self.spells(path, text)
    }

    /// Some path from the root spells `text` and ends at `n`.
    pub open spec fn spells_to(self, text: Seq<char>, n: NodeRef) -> bool {
        exists|path: Seq<NodeRef>| self.spells(path, text) && path.last() == n
    }

    /// Every prefix of `text` that is not empty, and at most one longer
    /// than the bound, is spelt by a path from the root.
    pub open spec fn has_prefixes(self, text: Seq<char>, max_depth: Option<usize>) -> bool {
        forall|j: int|
            1 <= j <= text.len() && nearly_fits(max_depth, j) ==> #[trigger] self.has_text(
                text.take(j),
            )
    }

    /// In a trie, the node at the end of a path that spells a text that
    /// is not empty has a count of at least 1.
    pub proof fn lemma_text_is_counted(self, text: Seq<char>)
        requires
            self.is_trie(),
            self.has_text(text),
            text.len() > 0,
        ensures
            self.contains_text(text),
    {
        let path = choose|path: Seq<NodeRef>| self.spells(path, text);
        let n = path.last();
        self.lemma_path_nodes(path, path.len() - 1);
        assert(self.data(path[(text.len() - 1) + 1]) == Some(text[text.len() - 1]));
        assert(self.trie_node(n));
    }
}

impl StepView {
    /// Where the paths of the prefixes stand in the middle of a
    /// character: every prefix of the text read before it has its path;
    /// and, if the whole of that text is within the bound, either its
    /// path ends at the first entry still to be consumed and nothing has
    /// been collected, or the path of that text with the character ends
    /// at the first collected entry.
    pub open spec fn tracks(
        self,
        rest: Seq<TriePointer>,
        text: Seq<char>,
        character: char,
        max_depth: Option<usize>,
    ) -> bool {
        &&& self.graph.has_prefixes(text, max_depth)
        &&& fits(max_depth, text.len()) ==> if rest.len() > 0 && rest[0].depth == text.len() {
            self.next.len() == 0 && self.graph.spells_to(text, rest[0].position)
        } else {
            self.next.len() > 0 && self.next[0].depth == text.len() + 1 && self.graph.spells_to(
                text.push(character),
                self.next[0].position,
            )
        }
    }

    /// A path of the graph before an entry is consumed gives a path of
    /// the graph after it that spells the same; it ends at the same node
    /// unless that node was the child that the character led to.
    pub proof fn lemma_path_moves(
        self,
        after: StepView,
        entry: TriePointer,
        character: char,
        path: Seq<NodeRef>,
        text: Seq<char>,
    ) -> (moved: Seq<NodeRef>)
        requires
            self.graph.wf(),
            self.effect(after, entry, character),
            self.graph.spells(path, text),
        ensures
            after.graph.spells(moved, text),
            moved.len() == path.len(),
            self.graph.child_with(entry.position, character) != Some(path.last())
                ==> moved.last() == path.last(),
    {
        let g = self.graph;
        let h = after.graph;
        match g.child_with(entry.position, character) {
            None => {
                g.lemma_keep_path(h, path, text);
                path
            },
            Some(old_child) => {
                let c = self.successor(entry, character);
                g.lemma_reroute_path(h, entry.position, old_child, c, path, text);
                rerouted(path, entry.position, old_child, c)
            },
        }
    }

    /// Consuming an entry keeps the paths of the prefixes on track.
    pub proof fn lemma_tracks_step(
        self,
        after: StepView,
        base: Graph<TrieNode>,
        rest: Seq<TriePointer>,
        steps: nat,
        text: Seq<char>,
        max_depth: Option<usize>,
        character: char,
    )
        requires
            self.inv(base, rest, steps, max_depth, character),
            self.ordered(rest),
            rest.len() > 0,
            text.len() == steps,
            self.tracks(rest, text, character, max_depth),
            self.effect(after, rest[0], character),
        ensures
            after.tracks(rest.drop_first(), text, character, max_depth),
    {
        let g = self.graph;
        let h = after.graph;
        let p = rest[0].position;
        let tail = rest.drop_first();
        assert(self.pending(base, rest[0], steps, max_depth));
        assert forall|j: int| 1 <= j <= text.len() && nearly_fits(max_depth, j) implies #[trigger] h.has_text(
            text.take(j),
        ) by {
            assert(g.has_text(text.take(j)));
            let path = choose|path: Seq<NodeRef>| g.spells(path, text.take(j));
            let moved = self.lemma_path_moves(after, rest[0], character, path, text.take(j));
        }
        if fits(max_depth, text.len()) {
            if tail.len() > 0 {
                assert(tail[0] == rest[1]);
                assert(rest[0].depth > rest[1].depth);
            }
            if rest[0].depth == text.len() {
                let path = choose|path: Seq<NodeRef>| g.spells(path, text) && path.last() == p;
                g.lemma_path_nodes(path, path.len() - 1);
                assert(g.attached(p));
                if g.child_with(p, character) is Some {
                    self.lemma_old_child(base, rest, steps, max_depth, character);
                }
                let moved = self.lemma_path_moves(after, rest[0], character, path, text);
                let succ = self.successor(rest[0], character);
                let longer = moved.push(succ);
                let spelt = text.push(character);
                assert(h.spells(longer, spelt)) by {
                    assert forall|i: int| 0 <= i < longer.len() - 1 implies h.edge(
                        #[trigger] longer[i],
                        longer[i + 1],
                    ) by {
                        if i < moved.len() - 1 {
                            assert(h.edge(moved[i], moved[i + 1]));
                        }
                    }
                    assert forall|i: int| 0 <= i < spelt.len() implies h.data(
                        #[trigger] longer[i + 1],
                    ) == Some(spelt[i]) by {
                        if i < text.len() {
                            assert(h.data(moved[i + 1]) == Some(text[i]));
                        }
                    }
                }
                assert(longer.last() == after.next[0].position);
            } else {
                let spelt = text.push(character);
                let x = self.next[0].position;
                let path = choose|path: Seq<NodeRef>| g.spells(path, spelt) && path.last() == x;
                assert(self.arrived(base, self.next[0]));
                if g.child_with(p, character) is Some {
                    self.lemma_old_child(base, rest, steps, max_depth, character);
                }
                let moved = self.lemma_path_moves(after, rest[0], character, path, spelt);
                assert(moved.last() == x);
            }
        }
    }
}

impl ScanView {
    /// Where the paths of the prefixes stand between two characters: the
    /// frontier is in the order of falling depth, every prefix has its
    /// path, and the path of the whole text, if the text is within the
    /// bound, ends at the first entry.
    pub open spec fn tracks(self, text: Seq<char>, max_depth: Option<usize>) -> bool {
        &&& decreasing(self.frontier)
        &&& self.graph.has_prefixes(text, max_depth)
        &&& fits(max_depth, text.len()) ==> self.frontier.len() > 0 && self.frontier[0].depth
            == text.len() && self.graph.spells_to(text, self.frontier[0].position)
    }

    /// Before the first character the path of the empty text ends at the
    /// first entry, the root.
    pub proof fn lemma_tracks_initial(max_depth: Option<usize>)
        ensures
            ScanView::initial().tracks(Seq::<char>::empty(), max_depth),
    {
        let s = ScanView::initial();
        let path = seq![0usize];
        assert(s.graph.spells(path, Seq::<char>::empty()));
        assert(path.last() == s.frontier[0].position);
    }

    /// Where the paths of the prefixes stand between two characters is where
    /// they stand at the start of the next character.
    pub proof fn lemma_tracks_begin(
        self,
        text: Seq<char>,
        max_depth: Option<usize>,
        character: char,
    )
        requires
            self.tracks(text, max_depth),
        ensures
            StepView::begin(self.graph).ordered(self.frontier),
            StepView::begin(self.graph).tracks(self.frontier, text, character, max_depth),
    {
    }
}

/// Pruning keeps the order of falling depth.
pub proof fn lemma_within_decreasing(s: Seq<TriePointer>, max_depth: Option<usize>)
    requires
        decreasing(s),
    ensures
        decreasing(within(s, max_depth)),
    decreases s.len(),
{
    if s.len() > 0 {
        let front = s.drop_last();
        assert forall|i: int, j: int| 0 <= i < j < front.len() implies (#[trigger] front[i]).depth > (
        #[trigger] front[j]).depth by {
            assert(front[i] == s[i] && front[j] == s[j]);
        }
        lemma_within_decreasing(front, max_depth);
        lemma_within(front, max_depth);
        let w = within(front, max_depth);
        let r = within(s, max_depth);
        assert forall|i: int, j: int| 0 <= i < j < r.len() implies (#[trigger] r[i]).depth > (
        #[trigger] r[j]).depth by {
            if j < w.len() {
                assert(r[i] == w[i] && r[j] == w[j]);
            } else {
                assert(r[i] == w[i]);
                assert(front.contains(w[i]));
                let k = choose|k: int| 0 <= k < front.len() && front[k] == w[i];
                assert(s[k] == w[i]);
                assert(s[k].depth > s[s.len() - 1].depth);
            }
        }
    }
}

impl ScanView {
    /// Where the paths of the prefixes stand when every entry has been
    /// consumed gives where they stand between two characters, for the
    /// text with one more character.
    pub proof fn lemma_tracks_finish(
        step: StepView,
        base: Graph<TrieNode>,
        steps: nat,
        text: Seq<char>,
        max_depth: Option<usize>,
        character: char,
    )
        requires
            step.inv(base, Seq::<TriePointer>::empty(), steps, max_depth, character),
            step.ordered(Seq::<TriePointer>::empty()),
            step.tracks(Seq::<TriePointer>::empty(), text, character, max_depth),
            text.len() == steps,
        ensures
            (ScanView {
                graph: step.graph,
                frontier: put(
                    within(step.next, max_depth),
                    TriePointer { position: step.graph.root, depth: 0 },
                ),
            }).tracks(text.push(character), max_depth),
    {
        let g = step.graph;
        let kept = within(step.next, max_depth);
        let pointer = TriePointer { position: g.root, depth: 0 };
        let frontier = put(kept, pointer);
        let longer = text.push(character);
        lemma_within(step.next, max_depth);
        lemma_within_decreasing(step.next, max_depth);
        lemma_put_entries(kept, pointer);
        assert(!holds(kept, g.root)) by {
            if holds(kept, g.root) {
                let i = choose|i: int| 0 <= i < kept.len() && (#[trigger] kept[i]).position == g.root;
                assert(step.next.contains(kept[i]));
                let k = choose|k: int| 0 <= k < step.next.len() && step.next[k] == kept[i];
                assert(step.arrived(base, step.next[k]));
            }
        }
        assert(frontier == kept.push(pointer));
        assert forall|i: int, j: int| 0 <= i < j < frontier.len() implies (
        #[trigger] frontier[i]).depth > (#[trigger] frontier[j]).depth by {
            if j < kept.len() {
                assert(frontier[i] == kept[i] && frontier[j] == kept[j]);
            } else {
                assert(frontier[i] == kept[i]);
                assert(step.next.contains(kept[i]));
                let k = choose|k: int| 0 <= k < step.next.len() && step.next[k] == kept[i];
                assert(step.next[k].depth >= 1);
            }
        }
        assert forall|j: int| 1 <= j <= longer.len() && nearly_fits(max_depth, j) implies #[trigger] g.has_text(
            longer.take(j),
        ) by {
            if j <= text.len() {
                assert(longer.take(j) =~= text.take(j));
                assert(g.has_text(text.take(j)));
            } else {
                assert(longer.take(j) =~= longer);
                assert(fits(max_depth, text.len()));
                let path = choose|path: Seq<NodeRef>|
                    g.spells(path, longer) && path.last() == step.next[0].position;
            }
        }
        if fits(max_depth, longer.len()) {
            assert(fits(max_depth, text.len()));
            assert(admits(max_depth, step.next[0].depth));
            assert(kept[0] == step.next[0]);
            assert(frontier[0] == kept[0]);
        }
    }
}

} // verus!
