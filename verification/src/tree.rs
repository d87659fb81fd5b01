//! The node arena: every node lives in one table and is named by its
//! position there. Nodes are never taken out of the table; deleting a node
//! means unlinking it.

use crate::graph::{
    inserted, lemma_without_absent, lemma_without_is_remove, lemma_without_no_duplicates, without,
    Graph, NodeRef, NodeView,
};
use crate::lazy::{Lazy, LazySupplier};
use vstd::prelude::*;

verus! {

/// One node of the arena: its value, and the references of the nodes that
/// hold it as a child and of the nodes that it holds as children.
pub struct BiDirectionalTreeNode<T> {
    pub value: T,
    pub parents: Vec<NodeRef>,
    pub children: Vec<NodeRef>,
}

impl<T> View for BiDirectionalTreeNode<T> {
    type V = NodeView<T>;

    open spec fn view(&self) -> NodeView<T> {
        NodeView { value: self.value, parents: self.parents@, children: self.children@ }
    }
}

/// The arena. Its view is the graph that the contracts speak of.
pub struct BiDirectionalTree<T> {
    pub nodes: Vec<BiDirectionalTreeNode<T>>,
    pub root: NodeRef,
}

/// Why an edit of the graph was refused.
#[derive(Clone, Copy, Debug, PartialEq, Eq, Structural)]
pub enum EditNodeError {
    /// The node that was to get a child has itself been unlinked.
    NodeDeleted(NodeRef),
}

/// What an edit of the graph returns: the child that was linked, or why
/// it was not.
pub type EditNodeResult = Result<NodeRef, EditNodeError>;

impl<T> View for BiDirectionalTree<T> {
    type V = Graph<T>;

    open spec fn view(&self) -> Graph<T> {
        Graph { nodes: Seq::new(self.nodes@.len(), |i: int| self.nodes@[i]@), root: self.root }
    }
}

/// The first position of `x` in `v`, if `v` holds it.
fn position_of(v: &Vec<NodeRef>, x: NodeRef) -> (found: Option<usize>)
    ensures
        match found {
            Some(i) => i < v@.len() && v@[i as int] == x,
            None => !v@.contains(x),
        },
{
    let mut i: usize = 0;
    while i < v.len()
        invariant
            i <= v@.len(),
            forall|j: int| 0 <= j < i ==> v@[j] != x,
        decreases v@.len() - i,
    {
        if v[i] == x {
            return Some(i);
        }
        i += 1;
    }
    None
}

/// Adds `x` to a list that holds nothing twice, unless it is there.
fn insert_ref(v: &mut Vec<NodeRef>, x: NodeRef)
    ensures
        final(v)@ == inserted(old(v)@, x),
{
    if position_of(v, x).is_none() {
        v.push(x);
    }
}

/// Takes `x` out of a list that holds nothing twice.
fn remove_ref(v: &mut Vec<NodeRef>, x: NodeRef)
    requires
        old(v)@.no_duplicates(),
    ensures
        final(v)@ == without(old(v)@, x),
{
    match position_of(v, x) {
        Some(i) => {
            proof {
                lemma_without_is_remove(v@, x, i as int);
            }
            v.remove(i);
        },
        None => {
            proof {
                lemma_without_absent(v@, x);
            }
        },
    }
}

impl<T> BiDirectionalTree<T> {
    /// The arena's invariant: its graph is well formed.
    pub open spec fn wf(&self) -> bool {
        self@.wf()
    }

    /// An arena that holds one node, the root, with the given value.
    pub fn new(value: T) -> (tree: BiDirectionalTree<T>)
        ensures
            tree.wf(),
            tree.root == 0,
            tree@.nodes == seq![
                NodeView { value, parents: Seq::<NodeRef>::empty(), children: Seq::<NodeRef>::empty() },
            ],
    {
        let mut nodes = Vec::new();
        nodes.push(BiDirectionalTreeNode { value, parents: Vec::new(), children: Vec::new() });
        let tree = BiDirectionalTree { nodes, root: 0 };
        proof {
            assert(tree@.nodes =~= seq![
                NodeView { value, parents: Seq::<NodeRef>::empty(), children: Seq::<NodeRef>::empty() },
            ]);
            assert(tree@.node_wf(0));
        }
        tree
    }

    /// The value of the node `idx`, for reading.
    pub fn get_value(&self, idx: NodeRef) -> (value: &T)
        requires
            self@.has(idx),
        ensures
            *value == self@.value(idx),
    {
        &self.nodes[idx].value
    }

    /// The value of the node `idx`, for writing: whatever the caller leaves
    /// behind the reference is the node's new value, and nothing else
    /// changes.
    pub fn get_value_mut(&mut self, idx: NodeRef) -> (value: &mut T)
        requires
            old(self)@.has(idx),
        ensures
            *value == old(self)@.value(idx),
            final(self)@.nodes =~= old(self)@.with_value(idx, *final(value)).nodes,
            final(self).root == old(self).root,
    {
        &mut self.nodes[idx].value
    }

    /// The node `idx`, for reading.
    pub fn get_node(&self, idx: NodeRef) -> (node: &BiDirectionalTreeNode<T>)
        requires
            self@.has(idx),
        ensures
            node@ == self@.nodes[idx as int],
    {
        &self.nodes[idx]
    }

    /// The number of nodes that were ever created.
    pub fn node_count(&self) -> (n: usize)
        ensures
            n == self@.nodes.len(),
    {
        self.nodes.len()
    }

    /// Adds a node without links and returns its reference.
    pub fn create_node(&mut self, value: T) -> (fresh: NodeRef)
        requires
            old(self).wf(),
        ensures
            final(self).wf(),
            fresh == old(self)@.nodes.len(),
            final(self)@ == old(self)@.with_node(value),
    {
        self.nodes.push(BiDirectionalTreeNode { value, parents: Vec::new(), children: Vec::new() });
        let count = self.nodes.len();
        proof {
            assert(self@.nodes =~= old(self)@.with_node(value).nodes);
            old(self)@.lemma_with_node_wf(value);
        }
        count - 1
    }

    /// Links `child` under `parent`, at both ends. A parent that is not
    /// the root and has no parent of its own has been unlinked: it gets no
    /// child, and nothing changes.
    pub fn add_child_ref(&mut self, parent: NodeRef, child: NodeRef) -> (result: EditNodeResult)
        requires
            old(self).wf(),
            old(self)@.has(parent),
            old(self)@.attached(parent) ==> old(self)@.has(child),
        ensures
            final(self).wf(),
            old(self)@.attached(parent) ==> result == Ok::<NodeRef, EditNodeError>(child)
                && final(self)@ == old(self)@.linked(parent, child),
            !old(self)@.attached(parent) ==> result == Err::<NodeRef, EditNodeError>(
                EditNodeError::NodeDeleted(parent),
            ) && final(self)@ == old(self)@,
    {
        if parent == self.root || self.nodes[parent].parents.len() > 0 {
            self.add_parent(child, parent);
            assert(self@.nodes.len() == self.nodes@.len());
            insert_ref(&mut self.nodes[parent].children, child);
            proof {
                assert(self@.nodes =~= old(self)@.linked(parent, child).nodes);
                old(self)@.lemma_linked_wf(parent, child);
            }
            Ok(child)
        } else {
            Err(EditNodeError::NodeDeleted(parent))
        }
    }

    /// Records `parent` among the parents of `child`.
    fn add_parent(&mut self, child: NodeRef, parent: NodeRef)
        requires
            old(self)@.has(child),
        ensures
            final(self)@ == old(self)@.with_parents(child, inserted(old(self)@.parents(child), parent)),
    {
        insert_ref(&mut self.nodes[child].parents, parent);
        proof {
            assert(self@.nodes =~= old(self)@.with_parents(
                child,
                inserted(old(self)@.parents(child), parent),
            ).nodes);
        }
    }

    /// Creates a node with the given value and links it under `parent`.
    /// Where `parent` has been unlinked, no node is created.
    pub fn add_child(&mut self, parent: NodeRef, child: T) -> (result: EditNodeResult)
        requires
            old(self).wf(),
            old(self)@.has(parent),
        ensures
            final(self).wf(),
            old(self)@.attached(parent) ==> result == Ok::<NodeRef, EditNodeError>(
                old(self)@.nodes.len() as NodeRef,
            ) && final(self)@ == old(self)@.with_node(child).linked(
                parent,
                old(self)@.nodes.len() as NodeRef,
            ),
            !old(self)@.attached(parent) ==> result == Err::<NodeRef, EditNodeError>(
                EditNodeError::NodeDeleted(parent),
            ) && final(self)@ == old(self)@,
    {
        if parent == self.root || self.nodes[parent].parents.len() > 0 {
            let fresh = self.create_node(child);
            self.add_child_ref(parent, fresh)
        } else {
            Err(EditNodeError::NodeDeleted(parent))
        }
    }

    /// Takes the edge from `parent` to `child` out, at both ends.
    fn unlink(&mut self, parent: NodeRef, child: NodeRef)
        requires
            old(self).wf(),
            old(self)@.has(parent),
            old(self)@.has(child),
        ensures
            final(self).wf(),
            final(self)@ == old(self)@.unlinked(parent, child),
    {
        proof {
            assert(self@.node_wf(parent));
            assert(self@.node_wf(child));
        }
        remove_ref(&mut self.nodes[child].parents, parent);
        assert(self@.nodes =~= old(self)@.with_parents(
            child,
            without(old(self)@.parents(child), parent),
        ).nodes);
        remove_ref(&mut self.nodes[parent].children, child);
        proof {
            lemma_without_no_duplicates(old(self)@.parents(child), parent);
            assert(self@.nodes =~= old(self)@.unlinked(parent, child).nodes);
            old(self)@.lemma_unlinked_wf(parent, child);
        }
    }

    /// Unlinks the children of the listed nodes, and of every node that
    /// this leaves without a parent.
    fn sweep(&mut self, work: Vec<NodeRef>)
        requires
            old(self).wf(),
            forall|i: int| 0 <= i < work@.len() ==> old(self)@.has(#[trigger] work@[i]),
        ensures
            final(self).wf(),
            final(self)@ == old(self)@.swept(work@),
    {
        let mut work = work;
        let ghost start = work@;
        while work.len() > 0
            invariant
                self.wf(),
                forall|i: int| 0 <= i < work@.len() ==> self@.has(#[trigger] work@[i]),
                self@.swept(work@) == old(self)@.swept(start),
            decreases self@.edge_count(), work@.len(),
        {
            let n = work[work.len() - 1];
            assert(work@.last() == n);
            if self.nodes[n].children.len() == 0 {
                work.pop();
            } else {
                let c = self.nodes[n].children[self.nodes[n].children.len() - 1];
                proof {
                    assert(self@.children(n).last() == c);
                    assert(self@.children(n).contains(c));
                    assert(self@.node_wf(n));
                    self@.lemma_unlinked_edge_count(n, c);
                }
                self.unlink(n, c);
                if c != self.root && self.nodes[c].parents.len() == 0 {
                    work.push(c);
                }
            }
        }
    }

    /// Unlinks `child` from `parent`. If this leaves `child` without a
    /// parent, and `child` is not the root, its own children are unlinked
    /// from it in turn, and so on through everything that only `child`
    /// kept reachable.
    pub fn remove_child(&mut self, parent: NodeRef, child: NodeRef)
        requires
            old(self).wf(),
            old(self)@.has(parent),
            old(self)@.has(child),
        ensures
            final(self).wf(),
            final(self)@ == old(self)@.removed(parent, child),
    {
        self.unlink(parent, child);
        if child != self.root && self.nodes[child].parents.len() == 0 {
            let mut work = Vec::new();
            work.push(child);
            assert(work@ =~= seq![child]);
            self.sweep(work);
        }
    }

    /// The nodes that `parent` holds as children, in the order in which it
    /// lists them.
    pub fn get_children(&self, parent: NodeRef) -> (nodes: Vec<&BiDirectionalTreeNode<T>>)
        requires
            self.wf(),
            self@.has(parent),
        ensures
            nodes@.len() == self@.children(parent).len(),
            forall|i: int|
                0 <= i < nodes@.len() ==> (#[trigger] nodes@[i])@ == self@.nodes[self@.children(
                    parent,
                )[i] as int],
    {
        proof {
            assert(self@.node_wf(parent));
            assert forall|i: int| 0 <= i < self@.children(parent).len() implies self@.has(
                #[trigger] self@.children(parent)[i],
            ) by {
                assert(self@.children(parent).contains(self@.children(parent)[i]));
            }
        }
        self.get_node_children(self.get_node(parent))
    }

    /// The nodes that the given node lists as children, in its order.
    pub fn get_node_children(&self, parent: &BiDirectionalTreeNode<T>) -> (nodes: Vec<
        &BiDirectionalTreeNode<T>,
    >)
        requires
            forall|i: int| 0 <= i < parent.children@.len() ==> self@.has(#[trigger] parent.children@[i]),
        ensures
            nodes@.len() == parent.children@.len(),
            forall|i: int|
                0 <= i < nodes@.len() ==> (#[trigger] nodes@[i])@
                    == self@.nodes[parent.children@[i] as int],
    {
        let mut nodes: Vec<&BiDirectionalTreeNode<T>> = Vec::new();
        let mut i: usize = 0;
        while i < parent.children.len()
            invariant
                i <= parent.children@.len(),
                nodes@.len() == i,
                forall|j: int| 0 <= j < parent.children@.len() ==> self@.has(#[trigger] parent.children@[j]),
                forall|j: int|
                    0 <= j < i ==> (#[trigger] nodes@[j])@ == self@.nodes[parent.children@[j] as int],
            decreases parent.children@.len() - i,
        {
            assert(self@.has(parent.children@[i as int]));
            nodes.push(self.get_node(parent.children[i]));
            i += 1;
        }
        nodes
    }
}

impl<T: Clone> BiDirectionalTree<T> {
    /// Adds a copy of the node `idx`: a new node with a clone of its value
    /// and no parent, which shares the children of `idx` (each of them
    /// gets the new node as one more parent).
    pub fn clone(&mut self, idx: NodeRef) -> (fresh: NodeRef)
        requires
            old(self).wf(),
            old(self)@.has(idx),
        ensures
            final(self).wf(),
            fresh == old(self)@.nodes.len(),
            cloned(old(self)@.value(idx), final(self)@.value(fresh)),
            final(self)@ == old(self)@.copied(idx, final(self)@.value(fresh)),
    {
        let value = self.nodes[idx].value.clone();
        let children = self.nodes[idx].children.clone();
        let fresh = self.nodes.len();
        let count = children.len();
        assert(children@ == old(self)@.children(idx));
        self.nodes.push(BiDirectionalTreeNode { value, parents: Vec::new(), children });
        let total = self.nodes.len();
        proof {
            assert(old(self)@.node_wf(idx));
        }
        let mut i: usize = 0;
        while i < count
            invariant
                i <= count,
                count == old(self)@.children(idx).len(),
                old(self).wf(),
                old(self)@.has(idx),
                fresh == old(self)@.nodes.len(),
                self.root == old(self).root,
                self.nodes@.len() == fresh + 1,
                self.nodes@[fresh as int]@ == (NodeView {
                    value,
                    parents: Seq::<NodeRef>::empty(),
                    children: old(self)@.children(idx),
                }),
                forall|n: int|
                    0 <= n < fresh ==> (#[trigger] self.nodes@[n])@ == if old(self)@.children(
                        idx,
                    ).subrange(0, i as int).contains(n as NodeRef) {
                        NodeView {
                            parents: old(self)@.nodes[n].parents.push(fresh),
                            ..old(self)@.nodes[n]
                        }
                    } else {
                        old(self)@.nodes[n]
                    },
            decreases count - i,
        {
            let ghost kids = old(self)@.children(idx);
            let child = self.nodes[fresh].children[i];
            proof {
                assert(old(self)@.node_wf(idx));
                assert(child == kids[i as int]);
                assert(kids.contains(kids[i as int]));
                assert(old(self)@.has(child));
                assert(!kids.subrange(0, i as int).contains(child)) by {
                    if kids.subrange(0, i as int).contains(child) {
                        let j = choose|j: int|
                            0 <= j < i && kids.subrange(0, i as int)[j] == child;
                        assert(kids[j] == kids[i as int]);
                    }
                }
            }
            let ghost before = self.nodes@;
            self.nodes[child].parents.push(fresh);
            proof {
                assert forall|n: int| 0 <= n < fresh implies (#[trigger] self.nodes@[n])@
                    == if kids.subrange(0, i + 1).contains(n as NodeRef) {
                    NodeView {
                        parents: old(self)@.nodes[n].parents.push(fresh),
                        ..old(self)@.nodes[n]
                    }
                } else {
                    old(self)@.nodes[n]
                } by {
                    assert(kids.subrange(0, i + 1) =~= kids.subrange(0, i as int).push(child));
                    if kids.subrange(0, i as int).contains(n as NodeRef) {
                        let j = choose|j: int|
                            0 <= j < i && kids.subrange(0, i as int)[j] == n as NodeRef;
                        assert(kids.subrange(0, i + 1)[j] == n as NodeRef);
                    }
                    if n == child {
                        assert(kids.subrange(0, i + 1)[i as int] == child);
                    }
                    if kids.subrange(0, i + 1).contains(n as NodeRef) && n != child {
                        let j = choose|j: int|
                            0 <= j < i + 1 && #[trigger] kids.subrange(0, i + 1)[j] == n as NodeRef;
                        assert(kids.subrange(0, i as int)[j] == n as NodeRef);
                    }
                    assert(before[n]@ == if kids.subrange(0, i as int).contains(n as NodeRef) {
                        NodeView {
                            parents: old(self)@.nodes[n].parents.push(fresh),
                            ..old(self)@.nodes[n]
                        }
                    } else {
                        old(self)@.nodes[n]
                    });
                }
            }
            i += 1;
        }
        proof {
            let kids = old(self)@.children(idx);
            assert(kids.subrange(0, count as int) =~= kids);
            assert(self@.nodes =~= old(self)@.copied(idx, value).nodes);
            old(self)@.lemma_copied_wf(idx, value);
        }
        fresh
    }
}

/// The way to a node of a tree: which child to take at each level.
pub type TreePath = Vec<usize>;

/// A tree that owns its children.
pub struct Tree<T> {
    pub value: T,
    pub children: Vec<Tree<T>>,
}

impl<T> Tree<T> {
    /// The path leads to a node of this tree.
    pub open spec fn has_path(&self, path: Seq<usize>) -> bool
        decreases path.len(),
    {
        path.len() == 0 || (path[0] < self.children@.len() && self.children@[path[0] as int].has_path(
            path.drop_first(),
        ))
    }

    /// The subtree that the path leads to.
    pub open spec fn subtree(&self, path: Seq<usize>) -> Tree<T>
        decreases path.len(),
    {
        if path.len() == 0 {
            *self
        } else {
            self.children@[path[0] as int].subtree(path.drop_first())
        }
    }

    /// Whether the path leads to a node of this tree.
    pub fn leads(&self, path: &TreePath) -> (found: bool)
        ensures
            found == self.has_path(path@),
    {
        let mut child = self;
        let mut i: usize = 0;
        assert(path@.skip(0) =~= path@);
        while i < path.len()
            invariant
                i <= path@.len(),
                child.has_path(path@.skip(i as int)) == self.has_path(path@),
            decreases path@.len() - i,
        {
            proof {
                assert(path@.skip(i as int)[0] == path@[i as int]);
                assert(path@.skip(i as int).drop_first() =~= path@.skip(i + 1));
            }
            if path[i] >= child.children.len() {
                return false;
            }
            child = &child.children[path[i]];
            i += 1;
        }
        true
    }

    /// The value of the node that the path leads to.
    pub fn get_node(&self, path: &TreePath) -> (value: &T)
        requires
            self.has_path(path@),
        ensures
            *value == self.subtree(path@).value,
    {
        let mut child = self;
        let mut i: usize = 0;
        assert(path@.skip(0) =~= path@);
        while i < path.len()
            invariant
                i <= path@.len(),
                child.has_path(path@.skip(i as int)),
                child.subtree(path@.skip(i as int)) == self.subtree(path@),
            decreases path@.len() - i,
        {
            proof {
                assert(path@.skip(i as int)[0] == path@[i as int]);
                assert(path@.skip(i as int).drop_first() =~= path@.skip(i + 1));
            }
            child = &child.children[path[i]];
            i += 1;
        }
        &child.value
    }
}

impl<T: Clone> Tree<T> {
    /// `other` is a copy of this tree: it has the shape of this tree,
    /// and each of its values is a clone of the value in the same place.
    pub open spec fn copied_to(&self, other: &Tree<T>) -> bool
        decreases self,
    {
        &&& cloned(self.value, other.value)
        &&& self.children@.len() == other.children@.len()
        &&& forall|i: int|
            0 <= i < self.children@.len() ==> (#[trigger] self.children@[i]).copied_to(
                &other.children@[i],
            )
    }
}

impl<T: Clone> Clone for Tree<T> {
    /// A copy of the tree, value by value.
    fn clone(&self) -> (copy: Self)
        ensures
            self.copied_to(&copy),
        decreases self,
    {
        let mut children: Vec<Tree<T>> = Vec::new();
        let mut i: usize = 0;
        while i < self.children.len()
            invariant
                i <= self.children@.len(),
                children@.len() == i,
                forall|k: int|
                    0 <= k < i ==> (#[trigger] self.children@[k]).copied_to(&children@[k]),
            decreases self.children@.len() - i,
        {
            let child = self.children[i].clone();
            children.push(child);
            i += 1;
        }
        Tree { value: self.value.clone(), children }
    }
}

/// The shape of a lazy tree: its value and, once they are made, the
/// shapes of its children.
pub struct Shape<T> {
    pub value: T,
    pub kids: Option<Seq<Shape<T>>>,
}

impl<T> Shape<T> {
    /// The path leads to a node of this shape, through nodes whose
    /// children have been made.
    pub open spec fn has_path(self, path: Seq<usize>) -> bool
        decreases path.len(),
    {
        path.len() == 0 || (self.kids is Some && path[0] < self.kids->0.len()
            && self.kids->0[path[0] as int].has_path(path.drop_first()))
    }

    /// The shape that the path leads to.
    pub open spec fn at(self, path: Seq<usize>) -> Shape<T>
        decreases path.len(),
    {
        if path.len() == 0 {
            self
        } else {
            self.kids->0[path[0] as int].at(path.drop_first())
        }
    }

    /// This shape with `inner` as its child number `index`.
    pub open spec fn with_kid(self, index: int, inner: Shape<T>) -> Shape<T> {
        Shape { value: self.value, kids: Some(self.kids->0.update(index, inner)) }
    }

    /// This shape with `inner` in the place that the path leads to.
    pub open spec fn with_at(self, path: Seq<usize>, inner: Shape<T>) -> Shape<T>
        decreases path.len(),
    {
        if path.len() == 0 {
            inner
        } else {
            self.with_kid(
                path[0] as int,
                self.kids->0[path[0] as int].with_at(path.drop_first(), inner),
            )
        }
    }

    /// `after` is this shape once the children of the node at `path`
    /// have been asked for: they are made there, and nothing else has
    /// changed; nothing at all if they had been made before.
    pub open spec fn made_at(self, after: Shape<T>, path: Seq<usize>) -> bool {
        &&& after.has_path(path)
        &&& after.at(path).kids is Some
        &&& after.at(path).value == self.at(path).value
        &&& self.at(path).kids is Some ==> after == self
        &&& after == self.with_at(path, after.at(path))
    }

    /// Replacing at a path that is one step longer is replacing, at the
    /// path, by the shape there with its child replaced.
    pub proof fn lemma_with_at_push(self, path: Seq<usize>, index: usize, inner: Shape<T>)
        requires
            self.has_path(path.push(index)),
        ensures
            self.has_path(path),
            self.at(path).kids is Some,
            index < self.at(path).kids->0.len(),
            self.at(path.push(index)) == self.at(path).kids->0[index as int],
            self.with_at(path.push(index), inner) == self.with_at(
                path,
                self.at(path).with_kid(index as int, inner),
            ),
        decreases path.len(),
    {
        let longer = path.push(index);
        if path.len() == 0 {
            assert(longer.drop_first() =~= Seq::<usize>::empty());
            assert(longer[0] == index);
            let kid = self.kids->0[index as int];
            assert(kid.with_at(longer.drop_first(), inner) == inner);
            assert(kid.at(longer.drop_first()) == kid);
        } else {
            assert(longer[0] == path[0]);
            assert(longer.drop_first() =~= path.drop_first().push(index));
            let kid = self.kids->0[path[0] as int];
            kid.lemma_with_at_push(path.drop_first(), index, inner);
        }
    }

    /// What is put at a path is found there, the path still leads there,
    /// and putting there what was there changes nothing.
    pub proof fn lemma_with_at(self, path: Seq<usize>, inner: Shape<T>)
        requires
            self.has_path(path),
        ensures
            self.with_at(path, inner).has_path(path),
            self.with_at(path, inner).at(path) == inner,
            self.with_at(path, self.at(path)) == self,
        decreases path.len(),
    {
        if path.len() > 0 {
            let kid = self.kids->0[path[0] as int];
            kid.lemma_with_at(path.drop_first(), inner);
            kid.lemma_with_at(path.drop_first(), self.at(path));
            assert(self.kids->0.update(path[0] as int, kid) =~= self.kids->0);
        }
    }
}

/// A tree whose children are made when they are first asked for.
pub struct LazyTree<T, S> {
    pub value: T,
    pub children: Lazy<Vec<LazyTree<T, S>>, S>,
}

/// The shape of a lazy tree.
pub open spec fn shape_of<T, S>(tree: LazyTree<T, S>) -> Shape<T>
    decreases tree, 0nat,
{
    Shape {
        value: tree.value,
        kids: match tree.children.t {
            Some(kids) => Some(shapes_of(kids, kids@.len())),
            None => None,
        },
    }
}

/// The shapes of the first `n` of the given trees.
pub open spec fn shapes_of<T, S>(kids: Vec<LazyTree<T, S>>, n: nat) -> Seq<Shape<T>>
    decreases kids, n,
{
    if n == 0 || n > kids@.len() {
        Seq::empty()
    } else {
        shapes_of(kids, (n - 1) as nat).push(shape_of(kids@[n - 1]))
    }
}

/// The shapes of the first `n` trees are `n` shapes, one for each tree
/// in order.
pub proof fn lemma_shapes_of<T, S>(kids: Vec<LazyTree<T, S>>, n: nat)
    requires
        n <= kids@.len(),
    ensures
        shapes_of(kids, n).len() == n,
        forall|i: int| 0 <= i < n ==> #[trigger] shapes_of(kids, n)[i] == shape_of(kids@[i]),
    decreases n,
{
    if n > 0 {
        lemma_shapes_of(kids, (n - 1) as nat);
    }
}

impl<T, S> View for LazyTree<T, S> {
    type V = Shape<T>;

    open spec fn view(&self) -> Shape<T> {
        shape_of(*self)
    }
}

impl<T, S: LazySupplier<Vec<LazyTree<T, S>>>> LazyTree<T, S> {
    /// The children have been made.
    pub open spec fn made(&self) -> bool {
        self.children.t is Some
    }

    /// The children, once they have been made.
    pub open spec fn kids(&self) -> Seq<LazyTree<T, S>> {
        self.children.t->0@
    }

    /// The path leads to a node of this tree, through nodes whose
    /// children have been made.
    pub open spec fn has_path(&self, path: Seq<usize>) -> bool
        decreases path.len(),
    {
        path.len() == 0 || (self.made() && path[0] < self.kids().len() && self.kids()[path[0] as int].has_path(
            path.drop_first(),
        ))
    }

    /// The subtree that the path leads to.
    pub open spec fn subtree(&self, path: Seq<usize>) -> LazyTree<T, S>
        decreases path.len(),
    {
        if path.len() == 0 {
            *self
        } else {
            self.kids()[path[0] as int].subtree(path.drop_first())
        }
    }

    /// The shape of a tree, spelt out: its value, and for each child
    /// that has been made the shape of that child.
    pub proof fn lemma_shape(&self)
        ensures
            self@.value == self.value,
            self.made() ==> self@.kids is Some && self@.kids->0.len() == self.kids().len()
                && forall|i: int|
                0 <= i < self.kids().len() ==> #[trigger] self@.kids->0[i] == self.kids()[i]@,
            !self.made() ==> self@.kids is None,
    {
        if self.made() {
            lemma_shapes_of(self.children.t->0, self.kids().len());
        }
    }

    /// A path of the tree is a path of its shape, and leads to the shape
    /// of the subtree that it leads to in the tree.
    pub proof fn lemma_shape_path(&self, path: Seq<usize>)
        requires
            self.has_path(path),
        ensures
            self@.has_path(path),
            self.subtree(path)@ == self@.at(path),
        decreases path.len(),
    {
        if path.len() > 0 {
            self.lemma_shape();
            self.kids()[path[0] as int].lemma_shape_path(path.drop_first());
        }
    }

    /// A path of the shape of the tree is a path of the tree.
    pub proof fn lemma_path_of_shape(&self, path: Seq<usize>)
        requires
            self@.has_path(path),
        ensures
            self.has_path(path),
        decreases path.len(),
    {
        if path.len() > 0 {
            self.lemma_shape();
            self.kids()[path[0] as int].lemma_path_of_shape(path.drop_first());
        }
    }

    /// A path that leads to a node whose children are made leads on to
    /// each of those children.
    pub proof fn lemma_path_push(&self, path: Seq<usize>, index: usize)
        requires
            self.has_path(path),
            self.subtree(path).made(),
            index < self.subtree(path).kids().len(),
        ensures
            self.has_path(path.push(index)),
            self.subtree(path.push(index)) == self.subtree(path).kids()[index as int],
        decreases path.len(),
    {
        let longer = path.push(index);
        if path.len() == 0 {
            assert(longer[0] == index);
            assert(longer.drop_first() =~= Seq::<usize>::empty());
            let kid = self.kids()[index as int];
            assert(kid.has_path(longer.drop_first()));
            assert(kid.subtree(longer.drop_first()) == kid);
        } else {
            assert(longer[0] == path[0]);
            assert(longer.drop_first() =~= path.drop_first().push(index));
            self.kids()[path[0] as int].lemma_path_push(path.drop_first(), index);
        }
    }

    /// A path leads through each of its beginnings, and from there the
    /// rest of the path leads on to where the whole path leads.
    pub proof fn lemma_path_front(&self, path: Seq<usize>)
        requires
            self.has_path(path),
            path.len() > 0,
        ensures
            self.has_path(path.drop_last()),
            self.subtree(path.drop_last()).made(),
            path.last() < self.subtree(path.drop_last()).kids().len(),
            self.subtree(path) == self.subtree(path.drop_last()).kids()[path.last() as int],
        decreases path.len(),
    {
        let front = path.drop_last();
        if path.len() == 1 {
            assert(front.len() == 0);
            assert(path.drop_first().len() == 0);
            assert(path[0] == path.last());
            let kid = self.kids()[path[0] as int];
            assert(kid.subtree(path.drop_first()) == kid);
        } else {
            assert(front[0] == path[0]);
            assert(front.drop_first() =~= path.drop_first().drop_last());
            assert(path.drop_first().last() == path.last());
            self.kids()[path[0] as int].lemma_path_front(path.drop_first());
        }
    }

    /// A tree with the given value, whose children the supplier will
    /// make.
    pub fn new(value: T, children: S) -> (tree: LazyTree<T, S>)
        ensures
            tree.value == value,
            tree.children.supplier == children,
            !tree.made(),
    {
        LazyTree { value, children: Lazy::new(children) }
    }

    /// The child number `idx`, of children that have been made.
    pub fn child(&self, idx: usize) -> (child: &LazyTree<T, S>)
        requires
            self.made(),
            idx < self.kids().len(),
        ensures
            *child == self.kids()[idx as int],
    {
        &self.children.get()[idx]
    }

    /// The child number `idx`, for writing, of children that have been
    /// made.
    pub fn child_mut(&mut self, idx: usize) -> (child: &mut LazyTree<T, S>)
        requires
            old(self).made(),
            idx < old(self).kids().len(),
        ensures
            *child == old(self).kids()[idx as int],
            final(self).value == old(self).value,
            final(self).children.supplier == old(self).children.supplier,
            final(self).made(),
            final(self).kids() == old(self).kids().update(idx as int, *final(child)),
    {
        &mut self.children.as_mut()[idx]
    }

    /// The children; they are made first unless they are there.
    pub fn children(&mut self) -> (children: &Vec<LazyTree<T, S>>)
        ensures
            final(self).value == old(self).value,
            old(self).children.made_into(final(self).children),
            *children == final(self).children.t->0,
    {
        self.children.force();
        self.children.get()
    }

    /// The children, for writing; they are made first unless they are
    /// there.
    pub fn children_mut(&mut self) -> (children: &mut Vec<LazyTree<T, S>>)
        ensures
            final(self).value == old(self).value,
            old(self).children.made_into(
                Lazy { t: Some(*children), supplier: old(self).children.supplier },
            ),
            final(self).children.supplier == old(self).children.supplier,
            final(self).children.t == Some(*final(children)),
    {
        self.children.as_mut()
    }

    /// Makes the children of the node that the rest of `path` from
    /// `from` on leads to, unless they are there, and returns their
    /// number.
    pub fn make_children_at(&mut self, path: &TreePath, from: usize) -> (n: usize)
        requires
            from <= path@.len(),
            old(self).has_path(path@.skip(from as int)),
        ensures
            old(self)@.made_at(final(self)@, path@.skip(from as int)),
            final(self).has_path(path@.skip(from as int)),
            final(self).subtree(path@.skip(from as int)).made(),
            final(self).subtree(path@.skip(from as int)).value == old(self).subtree(
                path@.skip(from as int),
            ).value,
            n == final(self).subtree(path@.skip(from as int)).kids().len(),
        decreases path@.len() - from,
    {
        let ghost rest = path@.skip(from as int);
        if from == path.len() {
            let n = self.children().len();
            proof {
                assert(rest.len() == 0);
                self.lemma_shape();
                old(self).lemma_shape();
                if old(self).made() {
                    assert(self@.kids->0 =~= old(self)@.kids->0);
                }
            }
            n
        } else {
            let index = path[from];
            proof {
                assert(rest[0] == index);
                assert(rest.drop_first() =~= path@.skip(from + 1));
                old(self).lemma_shape();
            }
            let child = self.child_mut(index);
            let ghost before = *child;
            let n = child.make_children_at(path, from + 1);
            proof {
                let tail = path@.skip(from + 1);
                self.lemma_shape();
                let a = old(self)@;
                let b = self@;
                assert(b.kids->0 =~= a.kids->0.update(index as int, child@));
                assert(b == a.with_kid(index as int, child@));
                before.lemma_shape_path(tail);
                child.lemma_shape_path(tail);
                assert(a.kids->0[index as int] == before@);
                assert(b.at(rest) == child@.at(tail));
                assert(a.at(rest) == before@.at(tail));
                if a.at(rest).kids is Some {
                    assert(child@ == before@);
                    assert(a.kids->0.update(index as int, before@) =~= a.kids->0);
                }
            }
            n
        }
    }

    /// The value of the node that the path leads to.
    pub fn get_node(&self, path: TreePath) -> (value: &T)
        requires
            self.has_path(path@),
        ensures
            *value == self.subtree(path@).value,
    {
        let mut child = self;
        let mut i: usize = 0;
        assert(path@.skip(0) =~= path@);
        while i < path.len()
            invariant
                i <= path@.len(),
                child.has_path(path@.skip(i as int)),
                child.subtree(path@.skip(i as int)) == self.subtree(path@),
            decreases path@.len() - i,
        {
            proof {
                assert(path@.skip(i as int)[0] == path@[i as int]);
                assert(path@.skip(i as int).drop_first() =~= path@.skip(i + 1));
            }
            child = child.child(path[i]);
            i += 1;
        }
        &child.value
    }
}

/// A place in a lazy tree: the subtree at that place, taken out of the
/// tree, and the way back up. Moving down takes a child out of its
/// parent; moving up puts it back where it was.
pub struct LazyTreeZipper<T, S> {
    pub parent: Option<Box<LazyTreeZipper<T, S>>>,
    pub node: LazyTree<T, S>,
    pub index: usize,
}

impl<T, S: LazySupplier<Vec<LazyTree<T, S>>>> LazyTreeZipper<T, S> {
    /// The zipper's invariant: every node on the way up has had its
    /// children made, and has room for the subtree below it at the place
    /// from which that was taken.
    pub open spec fn wf(&self) -> bool
        decreases self,
    {
        match self.parent {
            None => true,
            Some(parent) => parent.node.made() && self.index <= parent.node.kids().len()
                && parent.wf(),
        }
    }

    /// How far below the root the place is.
    pub open spec fn depth(&self) -> nat
        decreases self,
    {
        match self.parent {
            None => 0,
            Some(parent) => parent.depth() + 1,
        }
    }

    /// The shape of the whole tree if the subtree at this place has the
    /// shape `inner`.
    pub open spec fn closed(&self, inner: Shape<T>) -> Shape<T>
        decreases self,
    {
        match self.parent {
            None => inner,
            Some(parent) => parent.closed(
                Shape {
                    value: parent.node.value,
                    kids: Some(parent.node@.kids->0.insert(self.index as int, inner)),
                },
            ),
        }
    }

    /// The shape of the whole tree, with every subtree put back.
    pub open spec fn rebuilt(&self) -> Shape<T> {
        self.closed(self.node@)
    }

    /// The zipper at the root of `tree`.
    pub fn new(tree: LazyTree<T, S>) -> (zipper: LazyTreeZipper<T, S>)
        ensures
            zipper.wf(),
            zipper.parent is None,
            zipper.node == tree,
            zipper.index == 0,
            zipper.rebuilt() == tree@,
    {
        LazyTreeZipper { parent: None, node: tree, index: 0 }
    }

    /// Moves down to the child number `index`.
    pub fn child(self, index: usize) -> (zipper: LazyTreeZipper<T, S>)
        requires
            self.wf(),
            self.node.made(),
            index < self.node.kids().len(),
        ensures
            zipper.wf(),
            zipper.index == index,
            zipper.node == self.node.kids()[index as int],
            zipper.parent is Some,
            zipper.parent->0.parent == self.parent,
            zipper.parent->0.index == self.index,
            zipper.parent->0.node.value == self.node.value,
            zipper.parent->0.node.kids() == self.node.kids().remove(index as int),
            zipper.depth() == self.depth() + 1,
            zipper.rebuilt() == self.rebuilt(),
            forall|inner: Shape<T>| #[trigger]
                zipper.closed(inner) == self.closed(self.node@.with_kid(index as int, inner)),
    {
        let mut below = self;
        let node = below.node.children.as_mut().remove(index);
        let zipper = LazyTreeZipper { node, parent: Some(Box::new(below)), index };
        proof {
            let kids = self.node.kids();
            let rest = kids.remove(index as int);
            assert(below.node.kids() == rest);
            assert(below.parent == self.parent && below.index == self.index);
            assert(below.wf() == self.wf());
            assert(below.depth() == self.depth());
            below.node.lemma_shape();
            self.node.lemma_shape();
            let a = below.node@.kids->0;
            let b = self.node@.kids->0;
            assert(a.len() == rest.len());
            assert(b.len() == kids.len());
            assert(a.insert(index as int, node@) =~= b) by {
                assert forall|i: int| 0 <= i < b.len() implies a.insert(index as int, node@)[i]
                    == b[i] by {
                    if i < index {
                        assert(a[i] == rest[i]@);
                        assert(rest[i] == kids[i]);
                    } else if i > index {
                        assert(a[i - 1] == rest[i - 1]@);
                        assert(rest[i - 1] == kids[i]);
                    } else {
                        assert(node == kids[i]);
                    }
                }
            }
            assert(self.node@ == (Shape { value: self.node.value, kids: Some(b) }));
            assert(below.closed(self.node@) == self.closed(self.node@));
            assert(zipper.closed(node@) == below.closed(self.node@));
            assert forall|inner: Shape<T>| #[trigger]
                zipper.closed(inner) == self.closed(self.node@.with_kid(index as int, inner)) by {
                assert(a.insert(index as int, inner) =~= b.update(index as int, inner));
                let whole = Shape { value: self.node.value, kids: Some(b.update(index as int, inner)) };
                assert(zipper.closed(inner) == below.closed(whole));
                assert(below.closed(whole) == self.closed(whole));
            }
        }
        zipper
    }

    /// Moves up, putting the subtree back where it was taken from; `None`
    /// at the root.
    pub fn parent(self) -> (zipper: Option<LazyTreeZipper<T, S>>)
        requires
            self.wf(),
        ensures
            self.parent is None ==> zipper is None,
            self.parent is Some ==> zipper is Some && zipper->0.wf() && zipper->0.depth() + 1
                == self.depth() && zipper->0.rebuilt() == self.rebuilt() && zipper->0.parent
                == self.parent->0.parent && zipper->0.index == self.parent->0.index
                && zipper->0.node.value == self.parent->0.node.value && zipper->0.node.made()
                && zipper->0.node.kids() == self.parent->0.node.kids().insert(
                self.index as int,
                self.node,
            ),
    {
        match self.parent {
            None => None,
            Some(parent) => {
                let mut parent = parent;
                let ghost before = *parent;
                parent.node.children.as_mut().insert(self.index, self.node);
                proof {
                    let kids = before.node.kids();
                    let all = kids.insert(self.index as int, self.node);
                    assert(parent.node.kids() == all);
                    assert(parent.parent == before.parent && parent.index == before.index);
                    assert(parent.wf() == before.wf());
                    assert(parent.depth() == before.depth());
                    parent.node.lemma_shape();
                    before.node.lemma_shape();
                    let a = parent.node@.kids->0;
                    let b = before.node@.kids->0;
                    assert(a.len() == all.len());
                    assert(b.len() == kids.len());
                    assert(a =~= b.insert(self.index as int, self.node@)) by {
                        assert forall|i: int| 0 <= i < a.len() implies a[i] == b.insert(
                            self.index as int,
                            self.node@,
                        )[i] by {
                            assert(a[i] == all[i]@);
                            if i < self.index {
                                assert(all[i] == kids[i]);
                                assert(b[i] == kids[i]@);
                            } else if i > self.index {
                                assert(all[i] == kids[i - 1]);
                                assert(b[i - 1] == kids[i - 1]@);
                            }
                        }
                    }
                    assert(parent.node@ == (Shape { value: before.node.value, kids: Some(a) }));
                    assert(parent.closed(parent.node@) == before.closed(parent.node@));
                    assert(self.closed(self.node@) == before.closed(parent.node@));
                }
                Some(*parent)
            },
        }
    }

    /// The number of children at this place; they are made first unless
    /// they are there.
    pub fn number_of_children(&mut self) -> (n: usize)
        ensures
            final(self).parent == old(self).parent,
            final(self).index == old(self).index,
            final(self).node.value == old(self).node.value,
            old(self).node.children.made_into(final(self).node.children),
            n == final(self).node.kids().len(),
    {
        self.node.children().len()
    }

    /// The values of the children at this place, in order; the children
    /// are made first unless they are there.
    pub fn children(&mut self) -> (values: Vec<&T>)
        ensures
            final(self).parent == old(self).parent,
            final(self).index == old(self).index,
            final(self).node.value == old(self).node.value,
            old(self).node.children.made_into(final(self).node.children),
            values@.len() == final(self).node.kids().len(),
            forall|i: int|
                0 <= i < values@.len() ==> *(#[trigger] values@[i]) == final(self).node.kids()[i].value,
    {
        let children = self.node.children();
        let mut values: Vec<&T> = Vec::new();
        let mut i: usize = 0;
        while i < children.len()
            invariant
                i <= children@.len(),
                values@.len() == i,
                forall|j: int| 0 <= j < i ==> *(#[trigger] values@[j]) == children@[j].value,
            decreases children@.len() - i,
        {
            values.push(&children[i].value);
            i += 1;
        }
        values
    }

    /// Moves down along `path`.
    pub fn follow_path(self, path: &Vec<usize>) -> (zipper: LazyTreeZipper<T, S>)
        requires
            self.wf(),
            self.node.has_path(path@),
        ensures
            zipper.wf(),
            zipper.node == self.node.subtree(path@),
            zipper.depth() == self.depth() + path@.len(),
            zipper.rebuilt() == self.rebuilt(),
            zipper.node@ == self.node@.at(path@),
            forall|inner: Shape<T>| #[trigger]
                zipper.closed(inner) == self.closed(self.node@.with_at(path@, inner)),
    {
        let mut zipper = self;
        let mut i: usize = 0;
        proof {
            assert(path@.skip(0) =~= path@);
            assert(path@.take(0) =~= Seq::<usize>::empty());
            self.node.lemma_shape_path(path@);
        }
        while i < path.len()
            invariant
                i <= path@.len(),
                zipper.wf(),
                self.node@.has_path(path@),
                zipper.node.has_path(path@.skip(i as int)),
                zipper.node.subtree(path@.skip(i as int)) == self.node.subtree(path@),
                zipper.depth() == self.depth() + i,
                zipper.rebuilt() == self.rebuilt(),
                self.node@.has_path(path@.take(i as int)),
                zipper.node@ == self.node@.at(path@.take(i as int)),
                forall|inner: Shape<T>| #[trigger]
                    zipper.closed(inner) == self.closed(
                        self.node@.with_at(path@.take(i as int), inner),
                    ),
            decreases path@.len() - i,
        {
            let ghost before = zipper;
            let ghost done = path@.take(i as int);
            let ghost index = path@[i as int];
            proof {
                assert(path@.skip(i as int)[0] == path@[i as int]);
                assert(path@.skip(i as int).drop_first() =~= path@.skip(i + 1));
                assert(path@.take(i + 1) =~= done.push(index));
                Self::lemma_prefix_path(self.node@, path@, i + 1);
                before.node.lemma_shape();
            }
            zipper = zipper.child(path[i]);
            proof {
                assert forall|inner: Shape<T>| #[trigger]
                    zipper.closed(inner) == self.closed(
                    self.node@.with_at(path@.take(i + 1), inner),
                ) by {
                    let grown = before.node@.with_kid(index as int, inner);
                    assert(zipper.closed(inner) == before.closed(grown));
                    assert(before.closed(grown) == self.closed(self.node@.with_at(done, grown)));
                    self.node@.lemma_with_at_push(done, index, inner);
                }
                self.node@.lemma_with_at_push(done, index, before.node@);
            }
            i += 1;
        }
        proof {
            assert(path@.take(path@.len() as int) =~= path@);
        }
        zipper
    }

    /// A path leads through each of its beginnings.
    pub proof fn lemma_prefix_path(shape: Shape<T>, path: Seq<usize>, n: int)
        requires
            shape.has_path(path),
            0 <= n <= path.len(),
        ensures
            shape.has_path(path.take(n)),
        decreases n,
    {
        if n > 0 {
            assert(path.take(n)[0] == path[0]);
            assert(path.take(n).drop_first() =~= path.drop_first().take(n - 1));
            Self::lemma_prefix_path(shape.kids->0[path[0] as int], path.drop_first(), n - 1);
        }
    }

    /// The value at this place.
    pub fn value(&self) -> (value: &T)
        ensures
            *value == self.node.value,
    {
        &self.node.value
    }

    /// Puts `t` in the place of the value at this place.
    pub fn replace(&mut self, t: T)
        ensures
            final(self).node.value == t,
            final(self).node.children == old(self).node.children,
            final(self).parent == old(self).parent,
            final(self).index == old(self).index,
            final(self).rebuilt() == old(self).closed(
                Shape { value: t, kids: old(self).node@.kids },
            ),
    {
        self.node.value = t;
    }

    /// Moves up to the root and hands out the whole tree.
    pub fn build(self) -> (tree: LazyTree<T, S>)
        requires
            self.wf(),
        ensures
            tree@ == self.rebuilt(),
    {
        let mut child = self;
        while child.parent.is_some()
            invariant
                child.wf(),
                child.rebuilt() == self.rebuilt(),
            decreases child.depth(),
        {
            child = child.parent().unwrap();
        }
        child.node
    }
}

} // verus!
