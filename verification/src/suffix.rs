//! The online construction of the merged suffix trie: the text is taken
//! one character at a time, and each character moves every suffix that is
//! being grown one node further.
//!
//! The frontier holds, for every suffix that is being grown, the node at
//! which it stands. Its entries are consumed in the order in which they
//! came in, which is the order of falling depth: the longest suffix
//! first, the empty suffix at the root last. So a node is consumed before
//! any of its parents, and when a parent puts a copy in the place of a
//! child, the child has its new children already and the copy shares
//! them.
//!
//! When an entry is consumed, the node either has no child for the
//! character or has one. Without one it gets the child that was created
//! for this character, which all such nodes share. With one, a copy of
//! that child with one more occurrence takes its place under the node;
//! all nodes that lead to the same child share the copy. The child that
//! was replaced, if no other parent holds it, is unlinked from its
//! children.

use crate::frontier::{
    admits, depth_at, distinct, holds, lemma_depth_at, lemma_put_distinct, lemma_within, put,
    within, Frontier, TriePointer,
};
use crate::graph::{Graph, NodeRef};
use crate::prefixes::fits;
use crate::tree::EditNodeError;
use crate::trie::{Trie, TrieNode};
use std::collections::HashMap;
use vstd::prelude::*;
use vstd::std_specs::hash::*;

verus! {

broadcast use vstd::std_specs::hash::group_hash_axioms;

/// The model of a scan in the middle of one character: the graph, the
/// frontier for the next character as far as it has been collected, the
/// child that was created for this character where a node had none, and,
/// for every child that this character led to, the copy that took its
/// place.
pub struct StepView {
    pub graph: Graph<TrieNode>,
    pub next: Seq<TriePointer>,
    pub fresh: Option<NodeRef>,
    pub diverged: Map<NodeRef, NodeRef>,
}

/// The model of a scan between two characters.
pub struct ScanView {
    pub graph: Graph<TrieNode>,
    pub frontier: Seq<TriePointer>,
}

impl Graph<TrieNode> {
    /// The graph with another count at the node `n`.
    pub open spec fn with_count(self, n: NodeRef, count: usize) -> Graph<TrieNode> {
        self.with_value(n, TrieNode { count, ..self.value(n) })
    }

    /// The graph with another depth at the node `n`.
    pub open spec fn with_depth(self, n: NodeRef, max_depth: usize) -> Graph<TrieNode> {
        self.with_value(n, TrieNode { max_depth, ..self.value(n) })
    }
}

impl StepView {
    /// The start of a character: nothing collected, nothing created.
    pub open spec fn begin(graph: Graph<TrieNode>) -> StepView {
        StepView { graph, next: Seq::empty(), fresh: None, diverged: Map::empty() }
    }

    /// A suffix of length `depth` has arrived at `child`, which already
    /// stands in the collected frontier. Unless a longer suffix arrived
    /// there before, `depth` is recorded for it, in the frontier and at
    /// the node.
    pub open spec fn reached(self, child: NodeRef, depth: usize) -> StepView {
        let known = match depth_at(self.next, child) {
            Some(d) => d,
            None => 0,
        };
        if depth >= known {
            StepView {
                graph: self.graph.with_depth(child, depth),
                next: put(self.next, TriePointer { position: child, depth }),
                ..self
            }
        } else {
            self
        }
    }

    /// `parent` has no child for the character and none was created yet:
    /// a new node becomes its child, with count 1.
    pub open spec fn appended(self, parent: NodeRef, depth: usize, character: char) -> StepView {
        let child = self.graph.nodes.len() as NodeRef;
        StepView {
            graph: self.graph.with_node(
                TrieNode { data: Some(character), count: 1, max_depth: depth },
            ).linked(parent, child),
            next: put(self.next, TriePointer { position: child, depth }),
            fresh: Some(child),
            ..self
        }
    }

    /// `parent` has the child `old_child` for the character, and no copy
    /// of it was made yet: a copy with one more occurrence takes its place
    /// under `parent`.
    pub open spec fn split(self, parent: NodeRef, old_child: NodeRef, depth: usize) -> StepView {
        let g = self.graph;
        let copy = g.nodes.len() as NodeRef;
        let g1 = g.copied(old_child, g.value(old_child));
        let g2 = g1.with_count(copy, (g.count(old_child) + 1) as usize);
        let g3 = g2.replaced(parent, old_child, copy);
        StepView {
            graph: g3.with_depth(copy, depth),
            next: put(self.next, TriePointer { position: copy, depth }),
            diverged: self.diverged.insert(old_child, copy),
            ..self
        }
    }

    /// What one entry of the frontier does to the scan when `character`
    /// is read.
    pub open spec fn resolved(self, entry: TriePointer, character: char) -> StepView {
        let g = self.graph;
        let parent = entry.position;
        let depth = (entry.depth + 1) as usize;
        match g.child_with(parent, character) {
            None => if !g.attached(parent) {
                self
            } else {
                match self.fresh {
                    None => self.appended(parent, depth, character),
                    Some(child) => (StepView { graph: g.linked(parent, child), ..self }).reached(
                        child,
                        depth,
                    ),
                }
            },
            Some(old_child) => if self.diverged.contains_key(old_child) {
                let copy = self.diverged[old_child];
                (StepView { graph: g.replaced(parent, old_child, copy), ..self }).reached(
                    copy,
                    depth,
                )
            } else {
                self.split(parent, old_child, depth)
            },
        }
    }

    /// The scan after the listed entries, first to last.
    pub open spec fn consumed(self, entries: Seq<TriePointer>, character: char) -> StepView
        decreases entries.len(),
    {
        if entries.len() == 0 {
            self
        } else {
            self.resolved(entries[0], character).consumed(entries.drop_first(), character)
        }
    }
}

impl ScanView {
    /// The scan before the first character: the root alone, with the
    /// empty suffix standing at it.
    pub open spec fn initial() -> ScanView {
        ScanView {
            graph: Graph {
                nodes: seq![
                    crate::graph::NodeView {
                        value: TrieNode { data: None, count: 0, max_depth: 0 },
                        parents: Seq::<NodeRef>::empty(),
                        children: Seq::<NodeRef>::empty(),
                    },
                ],
                root: 0,
            },
            frontier: seq![TriePointer { position: 0, depth: 0 }],
        }
    }

    /// The scan after one more character: every entry of the frontier is
    /// consumed in turn, the entries that have grown beyond the bound are
    /// dropped, and the empty suffix stands at the root again.
    pub open spec fn advanced(self, character: char, max_depth: Option<usize>) -> ScanView {
        let step = StepView::begin(self.graph).consumed(self.frontier, character);
        ScanView {
            graph: step.graph,
            frontier: put(
                within(step.next, max_depth),
                TriePointer { position: step.graph.root, depth: 0 },
            ),
        }
    }

    /// The scan after the whole of `text`.
    pub open spec fn scanned(text: Seq<char>, max_depth: Option<usize>) -> ScanView
        decreases text.len(),
    {
        if text.len() == 0 {
            ScanView::initial()
        } else {
            ScanView::scanned(text.drop_last(), max_depth).advanced(text.last(), max_depth)
        }
    }
}

/// What a scan keeps while it reads one character.
pub struct Step {
    /// The frontier for the next character, as far as it is collected.
    pub next: Frontier,
    /// The child that was created for this character, once there is one.
    pub fresh: Option<NodeRef>,
    /// For each child that this character led to, the copy that took its
    /// place.
    pub diverged: HashMap<NodeRef, NodeRef>,
}

impl Step {
    /// The model of the step, for a scan whose graph is `graph`.
    pub open spec fn over(&self, graph: Graph<TrieNode>) -> StepView {
        StepView { graph, next: self.next@, fresh: self.fresh, diverged: self.diverged@ }
    }
}

/// Records that a suffix of length `depth` has arrived at `child`.
fn reach(trie: &mut Trie, step: &mut Step, child: NodeRef, depth: usize)
    requires
        old(trie).wf(),
        old(trie)@.has(child),
        old(step).next.wf(),
    ensures
        final(trie).wf(),
        final(step).next.wf(),
        final(step).over(final(trie)@) == old(step).over(old(trie)@).reached(child, depth),
{
    let known = match step.next.get(child) {
        Some(d) => d,
        None => 0,
    };
    if depth >= known {
        trie.set_max_depth(child, depth);
        step.next.put(child, depth);
    }
}

/// Consumes one entry of the frontier for `character`.
fn resolve(
    trie: &mut Trie,
    step: &mut Step,
    entry: TriePointer,
    character: char,
    Ghost(base): Ghost<Graph<TrieNode>>,
    Ghost(entries): Ghost<Seq<TriePointer>>,
    Ghost(rest): Ghost<Seq<TriePointer>>,
    Ghost(steps): Ghost<nat>,
    Ghost(max_depth): Ghost<Option<usize>>,
)
    requires
        old(trie).wf(),
        old(step).next.wf(),
        old(step).over(old(trie)@).inv(base, rest, steps, max_depth, character),
        old(step).over(old(trie)@).ordered(rest),
        rest.len() > 0,
        rest[0] == entry,
    ensures
        final(trie).wf(),
        final(step).next.wf(),
        final(step).over(final(trie)@) == old(step).over(old(trie)@).resolved(entry, character),
        final(step).over(final(trie)@).inv(base, rest.drop_first(), steps, max_depth, character),
        final(step).over(final(trie)@).ordered(rest.drop_first()),
        old(step).over(old(trie)@).effect(final(step).over(final(trie)@), entry, character),
        old(step).over(old(trie)@).counted(base, entries, rest, character) ==> final(step).over(
            final(trie)@,
        ).counted(base, entries, rest.drop_first(), character),
{
    let ghost before = step.over(trie@);
    let ghost g = trie@;
    let parent = entry.position;
    proof {
        assert(before.pending(base, rest[0], steps, max_depth));
        assert(g.value(parent) == base.value(parent));
        assert(g.value(parent).max_depth <= steps + 1);
    }
    let depth = entry.depth + 1;
    match trie.find_child(parent, character) {
        None => {
            match step.fresh {
                None => {
                    match trie.append_character(parent, character) {
                        Ok(child) => {
                            step.next.put(child, depth);
                            step.fresh = Some(child);
                            proof {
                                before.lemma_appended(base, rest, steps, max_depth, character);
                                before.lemma_effect_appended(
                                    base,
                                    rest,
                                    steps,
                                    max_depth,
                                    character,
                                );
                                if before.counted(base, entries, rest, character) {
                                    before.lemma_counted_appended(
                                        base,
                                        entries,
                                        rest,
                                        steps,
                                        max_depth,
                                        character,
                                    );
                                }
                            }
                        },
                        Err(_) => {
                            proof {
                                before.lemma_skipped(base, rest, steps, max_depth, character);
                                before.lemma_effect_skipped(
                                    base,
                                    rest,
                                    steps,
                                    max_depth,
                                    character,
                                );
                                if before.counted(base, entries, rest, character) {
                                    before.lemma_counted_skipped(
                                        base,
                                        entries,
                                        rest,
                                        steps,
                                        max_depth,
                                        character,
                                    );
                                }
                            }
                        },
                    }
                },
                Some(child) => {
                    proof {
                        assert(before.fresh_ok(base, character));
                    }
                    match trie.add_child_ref(parent, child) {
                        Ok(child) => {
                            reach(trie, step, child, depth);
                            proof {
                                before.lemma_shared(base, rest, steps, max_depth, character);
                                before.lemma_effect_shared(
                                    base,
                                    rest,
                                    steps,
                                    max_depth,
                                    character,
                                );
                                if before.counted(base, entries, rest, character) {
                                    before.lemma_counted_shared(
                                        base,
                                        entries,
                                        rest,
                                        steps,
                                        max_depth,
                                        character,
                                    );
                                }
                            }
                        },
                        Err(_) => {
                            proof {
                                before.lemma_skipped(base, rest, steps, max_depth, character);
                                before.lemma_effect_skipped(
                                    base,
                                    rest,
                                    steps,
                                    max_depth,
                                    character,
                                );
                                if before.counted(base, entries, rest, character) {
                                    before.lemma_counted_skipped(
                                        base,
                                        entries,
                                        rest,
                                        steps,
                                        max_depth,
                                        character,
                                    );
                                }
                            }
                        },
                    }
                },
            }
        },
        Some(old_child) => {
            proof {
                assert(g.node_wf(parent));
                assert(g.has(old_child));
                assert(g.trie_node(parent));
                assert(g.attached(parent)) by {
                    if g.orphaned(parent) {
                        assert(g.children(parent).len() == 0);
                    }
                }
            }
            let cached = match step.diverged.get(&old_child) {
                Some(copy) => Some(*copy),
                None => None,
            };
            match cached {
                None => {
                    proof {
                        assert(base.has(old_child));
                        assert(g.value(old_child) == base.value(old_child));
                        assert(base.value(old_child).count <= steps);
                    }
                    let copy = trie.clone(old_child);
                    trie.increment_count(copy);
                    proof {
                        g.lemma_copied(old_child, g.value(old_child));
                        assert(trie@.attached(parent)) by {
                            if parent != g.root {
                                assert(g.parents(parent).len() > 0);
                                if g.children(old_child).contains(parent) {
                                    assert(trie@.parents(parent) == g.parents(parent).push(copy));
                                }
                            }
                        }
                        before.lemma_split(base, rest, steps, max_depth, character);
                        before.lemma_effect_split(base, rest, steps, max_depth, character);
                        if before.counted(base, entries, rest, character) {
                            before.lemma_counted_split(
                                base,
                                entries,
                                rest,
                                steps,
                                max_depth,
                                character,
                            );
                        }
                    }
                    let ghost copied = trie@;
                    proof {
                        copied.lemma_linked(parent, copy);
                        copied.lemma_linked_wf(parent, copy);
                        copied.linked(parent, copy).lemma_removed(parent, old_child);
                    }
                    match trie.replace_child_ref(parent, old_child, copy) {
                        Ok(copy) => {
                            trie.set_max_depth(copy, depth);
                            step.next.put(copy, depth);
                            step.diverged.insert(old_child, copy);
                        },
                        Err(_) => {
                            unreached::<()>();
                        },
                    }
                },
                Some(copy) => {
                    proof {
                        assert(before.copy_ok(base, old_child, character));
                        before.lemma_rerouted(base, rest, steps, max_depth, character);
                        before.lemma_effect_rerouted(base, rest, steps, max_depth, character);
                        if before.counted(base, entries, rest, character) {
                            before.lemma_counted_rerouted(
                                base,
                                entries,
                                rest,
                                steps,
                                max_depth,
                                character,
                            );
                        }
                    }
                    proof {
                        g.lemma_linked(parent, copy);
                        g.lemma_linked_wf(parent, copy);
                        g.linked(parent, copy).lemma_removed(parent, old_child);
                    }
                    match trie.replace_child_ref(parent, old_child, copy) {
                        Ok(copy) => {
                            reach(trie, step, copy, depth);
                        },
                        Err(_) => {
                            unreached::<()>();
                        },
                    }
                },
            }
        },
    }
}

/// A scan: a trie under construction, with the frontier of the suffixes
/// that are still being grown.
pub struct Scan {
    pub trie: Trie,
    pub frontier: Frontier,
    /// The bound on the depth to which a suffix is followed, if any.
    pub max_depth: Option<usize>,
    /// The number of characters read so far.
    pub fed: usize,
    /// The characters read so far.
    pub history: Ghost<Seq<char>>,
}

impl View for Scan {
    type V = ScanView;

    open spec fn view(&self) -> ScanView {
        ScanView { graph: self.trie@, frontier: self.frontier@ }
    }
}

impl Scan {
    /// The characters read so far.
    pub open spec fn text(&self) -> Seq<char> {
        self.history@
    }

    /// The invariant of a scan: see `ScanView::inv` and
    /// `ScanView::tracks`.
    pub open spec fn inv(&self) -> bool {
        &&& self.text().len() == self.fed
        &&& self@.inv(self.fed as nat, self.max_depth)
        &&& self@.tracks(self.text(), self.max_depth)
        &&& fits(self.max_depth, self.fed as nat) ==> self@.counted(self.text())
    }

    /// A scan that has read nothing.
    pub fn new(max_depth: Option<usize>) -> (scan: Scan)
        ensures
            scan.inv(),
            scan@ == ScanView::initial(),
            scan.max_depth == max_depth,
            scan.fed == 0,
            scan.text() == Seq::<char>::empty(),
    {
        let trie = Trie::new(TrieNode { data: None, count: 0, max_depth: 0 });
        let mut frontier = Frontier::new();
        frontier.put(trie.root, 0);
        proof {
            ScanView::lemma_initial(max_depth);
            ScanView::lemma_tracks_initial(max_depth);
            ScanView::lemma_counted_initial();
            assert(frontier@ =~= ScanView::initial().frontier);
            assert(trie@.nodes =~= ScanView::initial().graph.nodes);
        }
        Scan { trie, frontier, max_depth, fed: 0, history: Ghost(Seq::empty()) }
    }

    /// Reads one character: every entry of the frontier is consumed,
    /// first to last; what has grown beyond the bound leaves the new
    /// frontier; the root joins it as its last entry.
    pub fn feed(&mut self, character: char)
        requires
            old(self).inv(),
            old(self).fed < usize::MAX,
        ensures
            final(self).inv(),
            final(self)@ == old(self)@.advanced(character, old(self).max_depth),
            final(self).max_depth == old(self).max_depth,
            final(self).fed == old(self).fed + 1,
            final(self).text() == old(self).text().push(character),
    {
        let mut step = Step { next: Frontier::new(), fresh: None, diverged: HashMap::new() };
        let ghost base = self.trie@;
        let ghost entries = self.frontier@;
        let ghost steps = self.fed as nat;
        let ghost text = self.history@;
        proof {
            self@.lemma_begin(steps, self.max_depth, character);
            self@.lemma_tracks_begin(text, self.max_depth, character);
            if fits(self.max_depth, steps + 1) {
                self@.lemma_counted_begin(text, steps, self.max_depth, character);
            }
            assert(step.over(self.trie@) == StepView::begin(base));
            assert(entries.subrange(0, entries.len() as int) =~= entries);
        }
        let mut i: usize = 0;
        while i < self.frontier.len()
            invariant
                self.frontier@ == entries,
                self.max_depth == old(self).max_depth,
                self.fed == old(self).fed,
                self.history@ == text,
                text.len() == steps,
                steps == self.fed as nat,
                step.over(self.trie@).ordered(entries.subrange(i as int, entries.len() as int)),
                step.over(self.trie@).tracks(
                    entries.subrange(i as int, entries.len() as int),
                    text,
                    character,
                    self.max_depth,
                ),
                base == old(self)@.graph,
                entries == old(self)@.frontier,
                fits(self.max_depth, steps + 1) ==> step.over(self.trie@).counted(
                    base,
                    entries,
                    entries.subrange(i as int, entries.len() as int),
                    character,
                ),
                fits(self.max_depth, steps) ==> old(self)@.counted(text),
                i <= entries.len(),
                self.trie.wf(),
                step.next.wf(),
                step.over(self.trie@).inv(
                    base,
                    entries.subrange(i as int, entries.len() as int),
                    steps,
                    self.max_depth,
                    character,
                ),
                step.over(self.trie@).consumed(
                    entries.subrange(i as int, entries.len() as int),
                    character,
                ) == StepView::begin(base).consumed(entries, character),
            decreases entries.len() - i,
        {
            let entry = self.frontier.entry(i);
            let ghost rest = entries.subrange(i as int, entries.len() as int);
            let ghost before = step.over(self.trie@);
            proof {
                assert(rest[0] == entry);
                assert(rest.drop_first() =~= entries.subrange(i + 1, entries.len() as int));
            }
            resolve(
                &mut self.trie,
                &mut step,
                entry,
                character,
                Ghost(base),
                Ghost(entries),
                Ghost(rest),
                Ghost(steps),
                Ghost(self.max_depth),
            );
            proof {
                before.lemma_tracks_step(
                    step.over(self.trie@),
                    base,
                    rest,
                    steps,
                    text,
                    self.max_depth,
                    character,
                );
            }
            i += 1;
        }
        let ghost done = step.over(self.trie@);
        proof {
            assert(entries.subrange(i as int, entries.len() as int) =~= Seq::<TriePointer>::empty());
            ScanView::lemma_finish(done, base, steps, self.max_depth, character);
            ScanView::lemma_tracks_finish(done, base, steps, text, self.max_depth, character);
            if fits(self.max_depth, steps + 1) {
                ScanView::lemma_counted_finish(
                    done,
                    base,
                    entries,
                    steps,
                    text,
                    self.max_depth,
                    character,
                );
            }
        }
        let Step { next, fresh: _, diverged: _ } = step;
        let mut next = next;
        next.prune(self.max_depth);
        next.put(self.trie.root, 0);
        self.frontier = next;
        self.fed = self.fed + 1;
        self.history = Ghost(text.push(character));
    }

    /// Ends the scan and hands out the trie.
    pub fn finish(self) -> (trie: Trie)
        requires
            self.inv(),
        ensures
            trie@ == self@.graph,
            trie.wf(),
            trie@.lawful(self.text(), self.max_depth),
    {
        proof {
            self.lemma_lawful();
        }
        self.trie
    }
}

impl Trie {
    /// Builds the merged suffix trie of `text`. A suffix is followed
    /// until it is longer than `max_depth`, or to its end if there is no
    /// bound.
    ///
    /// The trie is what the scan of the text gives (`ScanView::scanned`),
    /// and it is lawful (`Graph::lawful`): no path from the root is
    /// longer than the text, nor longer than one more than the bound;
    /// every node that can be reached has a parent; every prefix that is
    /// at most one longer than the bound has its path; and, where the
    /// whole text is within the bound, each count is the number of
    /// occurrences of what the path to the node spells.
    pub fn suffix(text: &str, max_depth: Option<usize>) -> (trie: Trie)
        ensures
            trie.wf(),
            trie@ == ScanView::scanned(text@, max_depth).graph,
            trie@.lawful(text@, max_depth),
    {
        let total = text.unicode_len();
        let mut scan = Scan::new(max_depth);
        for character in it: text.chars()
            invariant
                it.seq() == text@,
                total == text@.len(),
                scan.inv(),
                scan.max_depth == max_depth,
                scan.fed == it.index(),
                scan.text() == text@.take(it.index()),
                scan@ == ScanView::scanned(text@.take(it.index()), max_depth),
        {
            proof {
                assert(text@.take(it.index() + 1).drop_last() =~= text@.take(it.index()));
                assert(text@.take(it.index() + 1).last() == character);
                assert(text@.take(it.index()).push(character) =~= text@.take(it.index() + 1));
            }
            scan.feed(character);
        }
        proof {
            assert(text@.take(text@.len() as int) =~= text@);
            scan.lemma_lawful();
        }
        scan.finish()
    }
}

} // verus!
