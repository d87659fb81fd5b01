//! What is true of every trie that a scan has built, said in one place.

use crate::graph::{Graph, NodeRef};
use crate::prefixes::{fits, nearly_fits};
use crate::suffix::Scan;
use crate::text::occurrences;
use crate::trie::TrieNode;
use vstd::prelude::*;

verus! {

impl Graph<TrieNode> {
    /// No path from the root has more than `limit` edges.
    pub open spec fn paths_within(self, limit: int) -> bool {
        forall|path: Seq<NodeRef>| #[trigger] self.is_path(path) ==> path.len() - 1 <= limit
    }

    /// Every node that can be reached from the root, but the root, has a
    /// parent.
    pub open spec fn no_dangling(self) -> bool {
        forall|n: NodeRef|
            #[trigger] self.reachable(n) && n != self.root ==> self.parents(n).len() > 0
    }

    /// Every prefix of `text` that is not empty, and at most one longer
    /// than the bound, is spelt by a path from the root that ends at a
    /// node with a count of at least 1.
    pub open spec fn counts_prefixes(self, text: Seq<char>, max_depth: Option<usize>) -> bool {
        forall|j: int|
            1 <= j <= text.len() && nearly_fits(max_depth, j) ==> #[trigger] self.contains_text(
                text.take(j),
            )
    }

    /// The node at the end of a path that spells a part has as its count
    /// the number of places at which the part occurs in `text`; and a
    /// part has such a path exactly if it occurs.
    pub open spec fn counts_occurrences(self, text: Seq<char>) -> bool {
        &&& forall|path: Seq<NodeRef>, part: Seq<char>|
            part.len() >= 1 && #[trigger] self.spells(path, part) ==> self.count(path.last())
                == occurrences(text, part)
        &&& forall|part: Seq<char>|
            part.len() >= 1 ==> (#[trigger] self.has_text(part) <==> occurrences(text, part) >= 1)
    }

    /// In a trie in which no node is deeper than `limit`, no path from
    /// the root has more than `limit` edges.
    pub proof fn lemma_paths_within(self, limit: nat)
        requires
            self.is_trie(),
            self.bounded(limit),
        ensures
            self.paths_within(limit as int),
    {
        assert forall|path: Seq<NodeRef>| #[trigger] self.is_path(path) implies path.len() - 1
            <= limit by {
            self.lemma_path_depth(path, path.len() - 1);
            self.lemma_path_nodes(path, path.len() - 1);
            assert(self.value(path.last()).max_depth <= limit);
        }
    }

    /// In a trie in which no node is deeper than one more than the
    /// bound, no path from the root has more edges than that.
    pub proof fn lemma_paths_capped(self, bound: usize)
        requires
            self.is_trie(),
            self.capped(Some(bound)),
        ensures
            self.paths_within(bound + 1),
    {
        assert forall|path: Seq<NodeRef>| #[trigger] self.is_path(path) implies path.len() - 1
            <= bound + 1 by {
            self.lemma_path_depth(path, path.len() - 1);
            self.lemma_path_nodes(path, path.len() - 1);
            assert(self.value(path.last()).max_depth <= bound + 1);
        }
    }
}

impl<T> Graph<T> {
    /// In a well-formed graph every node that can be reached from the
    /// root, but the root, has a parent.
    pub proof fn lemma_no_dangling(self)
        requires
            self.wf(),
        ensures
            forall|n: NodeRef|
                #[trigger] self.reachable(n) && n != self.root ==> self.parents(n).len() > 0,
    {
        assert forall|n: NodeRef| #[trigger] self.reachable(n) && n != self.root implies self.parents(
            n,
        ).len() > 0 by {
            self.lemma_reachable_has_parent(n);
        }
    }
}

impl Graph<TrieNode> {
    /// What holds of the trie of a scan after every character, where
    /// `text` is what has been read: it is a trie; no path from the root
    /// is longer than the text, nor, where there is a bound, longer than
    /// one more than the bound; no node that can be reached dangles;
    /// every prefix of the text that the bound lets grow has its path;
    /// and as long as the text is within the bound every count is the
    /// number of occurrences.
    pub open spec fn lawful(self, text: Seq<char>, max_depth: Option<usize>) -> bool {
        &&& self.is_trie()
        &&& self.bounded(text.len())
        &&& self.capped(max_depth)
        &&& self.paths_within(text.len() as int)
        &&& match max_depth {
            Some(bound) => self.paths_within(bound + 1),
            None => true,
        }
        &&& self.no_dangling()
        &&& self.counts_prefixes(text, max_depth)
        &&& fits(max_depth, text.len()) ==> self.counts_occurrences(text)
    }
}

impl Scan {
    /// The invariant of a scan gives the laws of its trie.
    pub proof fn lemma_lawful(&self)
        requires
            self.inv(),
        ensures
            self@.graph.lawful(self.text(), self.max_depth),
    {
        let g = self@.graph;
        let text = self.text();
        g.lemma_paths_within(text.len());
        match self.max_depth {
            Some(bound) => {
                g.lemma_paths_capped(bound);
            },
            None => {},
        }
        g.lemma_no_dangling();
        assert forall|j: int|
            1 <= j <= text.len() && nearly_fits(self.max_depth, j) implies #[trigger] g.contains_text(
            text.take(j),
        ) by {
            assert(g.has_text(text.take(j)));
            g.lemma_text_is_counted(text.take(j));
        }
        if fits(self.max_depth, text.len()) {
            assert forall|path: Seq<NodeRef>, part: Seq<char>|
                part.len() >= 1 && #[trigger] g.spells(path, part) implies g.count(path.last())
                == occurrences(text, part) by {
                g.lemma_walk_of_path(path, part);
            }
            assert forall|part: Seq<char>| part.len() >= 1 implies (#[trigger] g.has_text(part)
                <==> occurrences(text, part) >= 1) by {
                if g.has_text(part) {
                    let path = choose|path: Seq<NodeRef>| g.spells(path, part);
                    g.lemma_walk_of_path(path, part);
                    g.lemma_text_is_counted(part);
                }
                if occurrences(text, part) >= 1 {
                    assert(g.walk(part) is Some);
                    let path = g.lemma_path_of_walk(part);
                }
            }
        }
    }
}

} // verus!
