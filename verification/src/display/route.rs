//! Finding, in the tree of lines, the line of a node of the trie.

use crate::display::outline::{UIStateNode, UITree};
use crate::graph::NodeRef;
use crate::tree::{Shape, TreePath};
use vstd::prelude::*;

verus! {

/// `after` is `before` with maybe more children made: every line that
/// was there is there, with its value, and where children had been made
/// they are the same in number and have at most grown in turn.
pub open spec fn grown(before: Shape<UIStateNode>, after: Shape<UIStateNode>) -> bool
    decreases before,
{
    &&& after.value == before.value
    &&& match before.kids {
        None => true,
        Some(kids) => after.kids is Some && after.kids->0.len() == kids.len() && forall|i: int|
            0 <= i < kids.len() ==> grown(#[trigger] kids[i], after.kids->0[i]),
    }
}

/// A shape has grown into itself.
pub proof fn lemma_grown_same(shape: Shape<UIStateNode>)
    ensures
        grown(shape, shape),
    decreases shape,
{
    match shape.kids {
        None => {},
        Some(kids) => {
            assert forall|i: int| 0 <= i < kids.len() implies grown(#[trigger] kids[i], kids[i]) by {
                lemma_grown_same(kids[i]);
            }
        },
    }
}

/// What has grown out of what has grown out of a shape has grown out of
/// that shape.
pub proof fn lemma_grown_twice(
    a: Shape<UIStateNode>,
    b: Shape<UIStateNode>,
    c: Shape<UIStateNode>,
)
    requires
        grown(a, b),
        grown(b, c),
    ensures
        grown(a, c),
    decreases a,
{
    match a.kids {
        None => {},
        Some(kids) => {
            assert forall|i: int| 0 <= i < kids.len() implies grown(
                #[trigger] kids[i],
                c.kids->0[i],
            ) by {
                assert(grown(kids[i], b.kids->0[i]));
                assert(grown(b.kids->0[i], c.kids->0[i]));
                lemma_grown_twice(kids[i], b.kids->0[i], c.kids->0[i]);
            }
        },
    }
}

/// A path of a shape is a path of what it has grown into, and leads to
/// a line with the same value.
pub proof fn lemma_grown_path(before: Shape<UIStateNode>, after: Shape<UIStateNode>, path: Seq<usize>)
    requires
        grown(before, after),
        before.has_path(path),
    ensures
        after.has_path(path),
        after.at(path).value == before.at(path).value,
        grown(before.at(path), after.at(path)),
    decreases path.len(),
{
    if path.len() > 0 {
        let kids = before.kids->0;
        assert(grown(kids[path[0] as int], after.kids->0[path[0] as int]));
        lemma_grown_path(kids[path[0] as int], after.kids->0[path[0] as int], path.drop_first());
    }
}

/// A child that has grown makes its parent grow.
pub proof fn lemma_grown_kid(before: Shape<UIStateNode>, index: int, kid: Shape<UIStateNode>)
    requires
        before.kids is Some,
        0 <= index < before.kids->0.len(),
        grown(before.kids->0[index], kid),
    ensures
        grown(before, before.with_kid(index, kid)),
{
    let kids = before.kids->0;
    let after = before.with_kid(index, kid);
    assert forall|i: int| 0 <= i < kids.len() implies grown(#[trigger] kids[i], after.kids->0[i]) by {
        if i != index {
            lemma_grown_same(kids[i]);
        }
    }
}

/// The first of the lines that stands for the node `target`, by its
/// number.
pub open spec fn first_holding(kids: Seq<Shape<UIStateNode>>, target: NodeRef) -> Option<int>
    decreases kids.len(),
{
    if kids.len() == 0 {
        None
    } else {
        match first_holding(kids.drop_last(), target) {
            Some(i) => Some(i),
            None => if kids.last().value.merged_refs@.contains(target) {
                Some(kids.len() - 1)
            } else {
                None
            },
        }
    }
}

/// The first line that stands for a node stands for it, and none before
/// it does; if there is no first, none does.
pub proof fn lemma_first_holding(kids: Seq<Shape<UIStateNode>>, target: NodeRef)
    ensures
        match first_holding(kids, target) {
            Some(i) => 0 <= i < kids.len() && kids[i].value.merged_refs@.contains(target)
                && forall|k: int|
                0 <= k < i ==> !(#[trigger] kids[k]).value.merged_refs@.contains(target),
            None => forall|k: int|
                0 <= k < kids.len() ==> !(#[trigger] kids[k]).value.merged_refs@.contains(target),
        },
    decreases kids.len(),
{
    if kids.len() > 0 {
        let front = kids.drop_last();
        lemma_first_holding(front, target);
        assert forall|k: int| 0 <= k < front.len() implies front[k] == kids[k] by {}
        match first_holding(front, target) {
            Some(i) => {
                assert(front[i] == kids[i]);
                assert forall|k: int| 0 <= k < i implies !(#[trigger] kids[k]).value.merged_refs@.contains(
                    target,
                ) by {
                    assert(front[k] == kids[k]);
                }
            },
            None => {
                assert(kids[kids.len() - 1] == kids.last());
                assert forall|k: int| 0 <= k < kids.len() - 1 implies !(
                #[trigger] kids[k]).value.merged_refs@.contains(target) by {
                    assert(front[k] == kids[k]);
                }
            },
        }
    }
}

/// The way through the lines along the nodes `refs`: a node that the
/// line at hand stands for is passed over; for any other the way goes
/// down to the first child that stands for it. There is no way where
/// children are not made or none of them stands for the node.
pub open spec fn route_of(shape: Shape<UIStateNode>, refs: Seq<NodeRef>) -> Option<Seq<usize>>
    decreases refs.len(),
{
    if refs.len() == 0 {
        Some(Seq::empty())
    } else if shape.value.merged_refs@.contains(refs[0]) {
        route_of(shape, refs.drop_first())
    } else {
        match shape.kids {
            None => None,
            Some(kids) => match first_holding(kids, refs[0]) {
                None => None,
                Some(i) => match route_of(kids[i], refs.drop_first()) {
                    None => None,
                    Some(rest) => Some(seq![i as usize] + rest),
                },
            },
        }
    }
}

/// Whether the list holds the node.
fn holds_ref(refs: &Vec<NodeRef>, target: NodeRef) -> (found: bool)
    ensures
        found == refs@.contains(target),
{
    let mut i: usize = 0;
    while i < refs.len()
        invariant
            i <= refs@.len(),
            forall|k: int| 0 <= k < i ==> refs@[k] != target,
        decreases refs@.len() - i,
    {
        if refs[i] == target {
            return true;
        }
        i += 1;
    }
    false
}

/// The number of the first of the made children of `tree` that stands
/// for `target`.
fn find_holding(tree: &UITree, target: NodeRef) -> (found: Option<usize>)
    requires
        tree.made(),
    ensures
        match found {
            Some(i) => first_holding(tree@.kids->0, target) == Some(i as int) && i
                < tree.kids().len(),
            None => first_holding(tree@.kids->0, target) is None,
        },
{
    let children = tree.children.get();
    proof {
        tree.lemma_shape();
        lemma_first_holding(tree@.kids->0, target);
    }
    let mut i: usize = 0;
    while i < children.len()
        invariant
            i <= children@.len(),
            children@ == tree.kids(),
            tree.made(),
            forall|k: int|
                0 <= k < i ==> !(#[trigger] tree@.kids->0[k]).value.merged_refs@.contains(target),
        decreases children@.len() - i,
    {
        proof {
            tree.lemma_shape();
            children@[i as int].lemma_shape();
        }
        if holds_ref(&children[i].value.merged_refs, target) {
            proof {
                let shapes = tree@.kids->0;
                lemma_first_holding(shapes, target);
                assert(shapes[i as int].value == children@[i as int].value);
                match first_holding(shapes, target) {
                    Some(j) => {
                        if j < i {
                            assert(!shapes[j].value.merged_refs@.contains(target));
                        }
                        if j > i {
                            assert(!shapes[i as int].value.merged_refs@.contains(target));
                        }
                    },
                    None => {
                        assert(!shapes[i as int].value.merged_refs@.contains(target));
                    },
                }
            }
            return Some(i);
        }
        proof {
            assert(tree@.kids->0[i as int].value == children@[i as int].value);
        }
        i += 1;
    }
    proof {
        let shapes = tree@.kids->0;
        tree.lemma_shape();
        lemma_first_holding(shapes, target);
        match first_holding(shapes, target) {
            Some(j) => {
                assert(!shapes[j].value.merged_refs@.contains(target));
            },
            None => {},
        }
    }
    None
}

/// Finds the way through the lines along the nodes `refs` from number
/// `from` on, and adds it to `path`; children are made on the way as far
/// as they are needed. Says whether there is a way.
pub fn find_route(tree: &mut UITree, refs: &Vec<NodeRef>, from: usize, path: &mut TreePath) -> (found:
    bool)
    requires
        from <= refs@.len(),
    ensures
        grown(old(tree)@, final(tree)@),
        found == route_of(final(tree)@, refs@.skip(from as int)) is Some,
        found ==> final(path)@ == old(path)@ + route_of(final(tree)@, refs@.skip(from as int))->0
            && final(tree)@.has_path(route_of(final(tree)@, refs@.skip(from as int))->0),
    decreases refs@.len() - from,
{
    let ghost rest = refs@.skip(from as int);
    if from == refs.len() {
        proof {
            lemma_grown_same(tree@);
            assert(path@ + Seq::<usize>::empty() =~= path@);
        }
        return true;
    }
    let head = refs[from];
    proof {
        assert(rest[0] == head);
        assert(rest.drop_first() =~= refs@.skip(from + 1));
        tree.lemma_shape();
    }
    if holds_ref(&tree.value.merged_refs, head) {
        let found = find_route(tree, refs, from + 1, path);
        proof {
            assert(tree@.value == old(tree)@.value);
        }
        found
    } else {
        tree.children();
        let ghost made = *tree;
        proof {
            made.lemma_shape();
            old(tree).lemma_shape();
            assert(grown(old(tree)@, made@)) by {
                match old(tree)@.kids {
                    None => {},
                    Some(kids) => {
                        assert(made@.kids->0 =~= kids);
                        assert forall|i: int| 0 <= i < kids.len() implies grown(
                            #[trigger] kids[i],
                            made@.kids->0[i],
                        ) by {
                            lemma_grown_same(kids[i]);
                        }
                    },
                }
            }
        }
        match find_holding(tree, head) {
            None => false,
            Some(index) => {
                let ghost start = path@;
                path.push(index);
                let child = tree.child_mut(index);
                let ghost before = *child;
                let found = find_route(child, refs, from + 1, path);
                proof {
                    tree.lemma_shape();
                    made.lemma_shape();
                    let a = made@;
                    let b = tree@;
                    assert(b.kids->0 =~= a.kids->0.update(index as int, child@));
                    assert(b == a.with_kid(index as int, child@));
                    assert(a.kids->0[index as int] == before@);
                    lemma_grown_kid(a, index as int, child@);
                    lemma_grown_twice(old(tree)@, a, b);
                    lemma_first_holding(a.kids->0, head);
                    lemma_first_holding(b.kids->0, head);
                    assert forall|k: int| 0 <= k < a.kids->0.len() implies (
                    #[trigger] b.kids->0[k]).value == a.kids->0[k].value by {
                        if k == index {
                            assert(grown(before@, child@));
                        }
                    }
                    assert(first_holding(b.kids->0, head) == Some(index as int)) by {
                        match first_holding(b.kids->0, head) {
                            Some(j) => {
                                assert(b.kids->0[j].value == a.kids->0[j].value);
                                if j < index {
                                    assert(!a.kids->0[j].value.merged_refs@.contains(head));
                                }
                                if j > index {
                                    assert(b.kids->0[index as int].value == a.kids->0[index as int].value);
                                }
                            },
                            None => {
                                assert(b.kids->0[index as int].value == a.kids->0[index as int].value);
                            },
                        }
                    }
                    if found {
                        let tail = route_of(child@, refs@.skip(from + 1))->0;
                        assert(path@ =~= start + (seq![index] + tail));
                        let whole = seq![index] + tail;
                        assert(whole[0] == index);
                        assert(whole.drop_first() =~= tail);
                    }
                }
                found
            },
        }
    }
}

} // verus!
