//! Reading a finished trie: a view of one node, from which the views of
//! its children and of its parents can be had. A view changes nothing.

use crate::graph::NodeRef;
use crate::trie::{Trie, TrieNodeRef};
use vstd::prelude::*;

verus! {

/// One node of a trie, for reading.
#[derive(Clone, Copy)]
pub struct QueryView<'a> {
    pub trie: &'a Trie,
    pub node: TrieNodeRef,
}

/// What the dump says of one node.
pub struct NodeRecord {
    pub node_ref: TrieNodeRef,
    pub data: Option<char>,
    pub count: usize,
    pub parents: Vec<TrieNodeRef>,
    pub children: Vec<TrieNodeRef>,
}

impl<'a> QueryView<'a> {
    /// The view is of a node of a well-formed arena.
    pub open spec fn wf(&self) -> bool {
        self.trie.wf() && self.trie@.has(self.node)
    }

    /// The view of the node `node` of `trie`.
    pub fn new(trie: &'a Trie, node: TrieNodeRef) -> (view: QueryView<'a>)
        requires
            trie.wf(),
            trie@.has(node),
        ensures
            view.wf(),
            view.trie == trie,
            view.node == node,
    {
        QueryView { trie, node }
    }

    /// The view of the root of `trie`.
    pub fn root(trie: &'a Trie) -> (view: QueryView<'a>)
        requires
            trie.wf(),
        ensures
            view.wf(),
            view.trie == trie,
            view.node == trie@.root,
    {
        QueryView { trie, node: trie.root }
    }

    /// The character of the node; the root has none.
    pub fn data(&self) -> (data: Option<char>)
        requires
            self.wf(),
        ensures
            data == self.trie@.data(self.node),
    {
        self.trie.get_value(self.node).data
    }

    /// How often the path to the node has occurred.
    pub fn count(&self) -> (count: usize)
        requires
            self.wf(),
        ensures
            count == self.trie@.count(self.node),
    {
        self.trie.get_value(self.node).count
    }

    /// The greatest depth at which the node was reached.
    pub fn max_depth(&self) -> (depth: usize)
        requires
            self.wf(),
        ensures
            depth == self.trie@.depth(self.node),
    {
        self.trie.get_value(self.node).max_depth
    }

    /// The views of the listed nodes, in their order.
    fn views_of(&self, refs: &Vec<NodeRef>) -> (views: Vec<QueryView<'a>>)
        requires
            self.trie.wf(),
            forall|i: int| 0 <= i < refs@.len() ==> self.trie@.has(#[trigger] refs@[i]),
        ensures
            views@.len() == refs@.len(),
            forall|i: int|
                0 <= i < views@.len() ==> (#[trigger] views@[i]).wf() && views@[i].trie == self.trie
                    && views@[i].node == refs@[i],
    {
        let mut views: Vec<QueryView<'a>> = Vec::new();
        let mut i: usize = 0;
        while i < refs.len()
            invariant
                i <= refs@.len(),
                self.trie.wf(),
                forall|j: int| 0 <= j < refs@.len() ==> self.trie@.has(#[trigger] refs@[j]),
                views@.len() == i,
                forall|j: int|
                    0 <= j < i ==> (#[trigger] views@[j]).wf() && views@[j].trie == self.trie
                        && views@[j].node == refs@[j],
            decreases refs@.len() - i,
        {
            assert(self.trie@.has(refs@[i as int]));
            views.push(QueryView { trie: self.trie, node: refs[i] });
            i += 1;
        }
        views
    }

    /// The views of the children of the node, in the order in which the
    /// node lists them. Whoever wants them in another order sorts them.
    pub fn children(&self) -> (views: Vec<QueryView<'a>>)
        requires
            self.wf(),
        ensures
            views@.len() == self.trie@.children(self.node).len(),
            forall|i: int|
                0 <= i < views@.len() ==> (#[trigger] views@[i]).wf() && views@[i].trie == self.trie
                    && views@[i].node == self.trie@.children(self.node)[i],
    {
        let node = self.trie.get_node(self.node);
        proof {
            assert(self.trie@.node_wf(self.node));
            assert forall|i: int| 0 <= i < node.children@.len() implies self.trie@.has(
                #[trigger] node.children@[i],
            ) by {
                assert(self.trie@.children(self.node).contains(node.children@[i]));
            }
        }
        self.views_of(&node.children)
    }

    /// The views of the parents of the node, in the order in which the
    /// node lists them.
    pub fn parents(&self) -> (views: Vec<QueryView<'a>>)
        requires
            self.wf(),
        ensures
            views@.len() == self.trie@.parents(self.node).len(),
            forall|i: int|
                0 <= i < views@.len() ==> (#[trigger] views@[i]).wf() && views@[i].trie == self.trie
                    && views@[i].node == self.trie@.parents(self.node)[i],
    {
        let node = self.trie.get_node(self.node);
        proof {
            assert(self.trie@.node_wf(self.node));
            assert forall|i: int| 0 <= i < node.parents@.len() implies self.trie@.has(
                #[trigger] node.parents@[i],
            ) by {
                assert(self.trie@.parents(self.node).contains(node.parents@[i]));
            }
        }
        self.views_of(&node.parents)
    }
}

impl Trie {
    /// For every node that was ever created, in the order of the
    /// references: its character, its count, its parents and its
    /// children.
    pub fn dump(&self) -> (records: Vec<NodeRecord>)
        ensures
            records@.len() == self@.nodes.len(),
            forall|i: int|
                0 <= i < records@.len() ==> {
                    let record = #[trigger] records@[i];
                    &&& record.node_ref == i
                    &&& record.data == self@.data(i as NodeRef)
                    &&& record.count == self@.count(i as NodeRef)
                    &&& record.parents@ == self@.parents(i as NodeRef)
                    &&& record.children@ == self@.children(i as NodeRef)
                },
    {
        let mut records: Vec<NodeRecord> = Vec::new();
        let mut i: usize = 0;
        while i < self.node_count()
            invariant
                i <= self@.nodes.len(),
                records@.len() == i,
                forall|j: int|
                    0 <= j < i ==> {
                        let record = #[trigger] records@[j];
                        &&& record.node_ref == j
                        &&& record.data == self@.data(j as NodeRef)
                        &&& record.count == self@.count(j as NodeRef)
                        &&& record.parents@ == self@.parents(j as NodeRef)
                        &&& record.children@ == self@.children(j as NodeRef)
                    },
            decreases self@.nodes.len() - i,
        {
            let node = self.get_node(i);
            records.push(
                NodeRecord {
                    node_ref: i,
                    data: node.value.data,
                    count: node.value.count,
                    parents: node.parents.clone(),
                    children: node.children.clone(),
                },
            );
            i += 1;
        }
        records
    }
}

} // verus!
