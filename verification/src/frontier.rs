//! The frontier of a scan: for every suffix that is still being grown, the
//! node at which it stands and its length so far. A node stands in the
//! frontier at most once; the order of the entries is the order in which
//! they came in.

use crate::graph::NodeRef;
use vstd::prelude::*;

verus! {

/// One entry of the frontier. Entries are told apart by their position
/// alone; the depth is what the frontier remembers about the position.
#[derive(Clone, Copy, Debug)]
pub struct TriePointer {
    pub position: NodeRef,
    pub depth: usize,
}

/// No two entries stand at one position.
pub open spec fn distinct(s: Seq<TriePointer>) -> bool {
    forall|i: int, j: int|
        0 <= i < s.len() && 0 <= j < s.len() && i != j ==> (#[trigger] s[i]).position
            != (#[trigger] s[j]).position
}

/// Some entry stands at `position`.
pub open spec fn holds(s: Seq<TriePointer>, position: NodeRef) -> bool {
    exists|i: int| 0 <= i < s.len() && (#[trigger] s[i]).position == position
}

/// The depth remembered for `position`.
pub open spec fn depth_at(s: Seq<TriePointer>, position: NodeRef) -> Option<usize>
    decreases s.len(),
{
    if s.len() == 0 {
        None
    } else if s.last().position == position {
        Some(s.last().depth)
    } else {
        depth_at(s.drop_last(), position)
    }
}

/// The entries with `pointer` among them: in the place of the entry at
/// its position if there is one, at the end otherwise.
pub open spec fn put(s: Seq<TriePointer>, pointer: TriePointer) -> Seq<TriePointer> {
    if holds(s, pointer.position) {
        Seq::new(
            s.len(),
            |i: int|
                if s[i].position == pointer.position {
                    pointer
                } else {
                    s[i]
                },
        )
    } else {
        s.push(pointer)
    }
}

/// The depth does not exceed the bound, if there is one.
pub open spec fn admits(max_depth: Option<usize>, depth: usize) -> bool {
    match max_depth {
        Some(bound) => depth <= bound,
        None => true,
    }
}

/// The entries whose depth the bound admits, in their order.
pub open spec fn within(s: Seq<TriePointer>, max_depth: Option<usize>) -> Seq<TriePointer>
    decreases s.len(),
{
    if s.len() == 0 {
        s
    } else if admits(max_depth, s.last().depth) {
        within(s.drop_last(), max_depth).push(s.last())
    } else {
        within(s.drop_last(), max_depth)
    }
}

/// The depth remembered for a position is the depth of an entry at that
/// position; none is remembered where no entry stands there.
pub proof fn lemma_depth_at(s: Seq<TriePointer>, position: NodeRef)
    ensures
        match depth_at(s, position) {
            Some(depth) => s.contains(TriePointer { position, depth }),
            None => !holds(s, position),
        },
    decreases s.len(),
{
    if s.len() > 0 {
        let front = s.drop_last();
        if s.last().position == position {
            assert(s[s.len() - 1] == TriePointer { position, depth: s.last().depth });
        } else {
            lemma_depth_at(front, position);
            match depth_at(front, position) {
                Some(depth) => {
                    let i = choose|i: int|
                        0 <= i < front.len() && front[i] == TriePointer { position, depth };
                    assert(s[i] == front[i]);
                },
                None => {
                    if holds(s, position) {
                        let i = choose|i: int|
                            0 <= i < s.len() && (#[trigger] s[i]).position == position;
                        assert(front[i].position == position);
                    }
                },
            }
        }
    }
}

/// Where the positions are distinct, the entry at a position is the only
/// one there, so its depth is the depth remembered.
pub proof fn lemma_depth_at_entry(s: Seq<TriePointer>, i: int)
    requires
        distinct(s),
        0 <= i < s.len(),
    ensures
        depth_at(s, s[i].position) == Some(s[i].depth),
    decreases s.len(),
{
    if i < s.len() - 1 {
        let front = s.drop_last();
        assert(s.last() == s[s.len() - 1]);
        assert(front[i] == s[i]);
        assert(distinct(front)) by {
            assert forall|a: int, b: int|
                0 <= a < front.len() && 0 <= b < front.len() && a != b implies (
            #[trigger] front[a]).position != (#[trigger] front[b]).position by {
                assert(front[a] == s[a] && front[b] == s[b]);
            }
        }
        lemma_depth_at_entry(front, i);
    }
}

/// Putting an entry in keeps the positions distinct, and the position of
/// the entry is held afterwards.
pub proof fn lemma_put_distinct(s: Seq<TriePointer>, pointer: TriePointer)
    requires
        distinct(s),
    ensures
        distinct(put(s, pointer)),
        holds(put(s, pointer), pointer.position),
{
    let r = put(s, pointer);
    if holds(s, pointer.position) {
        let k = choose|k: int| 0 <= k < s.len() && (#[trigger] s[k]).position == pointer.position;
        assert(r[k].position == pointer.position);
        assert forall|a: int, b: int| 0 <= a < r.len() && 0 <= b < r.len() && a != b implies (
        #[trigger] r[a]).position != (#[trigger] r[b]).position by {
            assert(s[a].position != s[b].position);
        }
    } else {
        assert(r[s.len() as int].position == pointer.position);
        assert forall|a: int, b: int| 0 <= a < r.len() && 0 <= b < r.len() && a != b implies (
        #[trigger] r[a]).position != (#[trigger] r[b]).position by {
            if a < s.len() && b < s.len() {
                assert(s[a].position != s[b].position);
            } else if a < s.len() {
                assert(s[a].position != pointer.position);
            } else {
                assert(s[b].position != pointer.position);
            }
        }
    }
}

/// Each entry after `put` is the new one or an entry that was there, at
/// another position; and every position that was held is still held.
pub proof fn lemma_put_entries(s: Seq<TriePointer>, pointer: TriePointer)
    ensures
        forall|i: int|
            0 <= i < put(s, pointer).len() ==> #[trigger] put(s, pointer)[i] == pointer || (i
                < s.len() && put(s, pointer)[i] == s[i] && s[i].position != pointer.position),
        forall|x: NodeRef| holds(s, x) ==> holds(put(s, pointer), x),
        holds(put(s, pointer), pointer.position),
{
    let r = put(s, pointer);
    assert forall|x: NodeRef| holds(s, x) implies holds(r, x) by {
        let k = choose|k: int| 0 <= k < s.len() && (#[trigger] s[k]).position == x;
        assert(r[k].position == x);
    }
    if holds(s, pointer.position) {
        let k = choose|k: int| 0 <= k < s.len() && (#[trigger] s[k]).position == pointer.position;
        assert(r[k].position == pointer.position);
    } else {
        assert(r[s.len() as int].position == pointer.position);
    }
}

/// The frontier itself.
pub struct Frontier {
    pub entries: Vec<TriePointer>,
}

impl View for Frontier {
    type V = Seq<TriePointer>;

    open spec fn view(&self) -> Seq<TriePointer> {
        self.entries@
    }
}

impl Frontier {
    /// The frontier's invariant: no position stands in it twice.
    pub open spec fn wf(&self) -> bool {
        distinct(self@)
    }

    /// A frontier without entries.
    pub fn new() -> (frontier: Frontier)
        ensures
            frontier.wf(),
            frontier@ == Seq::<TriePointer>::empty(),
    {
        Frontier { entries: Vec::new() }
    }

    /// The number of entries.
    pub fn len(&self) -> (n: usize)
        ensures
            n == self@.len(),
    {
        self.entries.len()
    }

    /// The entry that came in as number `i` of those that are left.
    pub fn entry(&self, i: usize) -> (pointer: TriePointer)
        requires
            i < self@.len(),
        ensures
            pointer == self@[i as int],
    {
        self.entries[i]
    }

    /// The depth remembered for `position`, if it stands in the frontier.
    pub fn get(&self, position: NodeRef) -> (depth: Option<usize>)
        requires
            self.wf(),
        ensures
            depth == depth_at(self@, position),
            depth is Some <==> holds(self@, position),
    {
        proof {
            lemma_depth_at(self@, position);
        }
        let mut i: usize = 0;
        while i < self.entries.len()
            invariant
                self.wf(),
                i <= self@.len(),
                forall|j: int| 0 <= j < i ==> (#[trigger] self@[j]).position != position,
            decreases self@.len() - i,
        {
            if self.entries[i].position == position {
                proof {
                    lemma_depth_at_entry(self@, i as int);
                }
                return Some(self.entries[i].depth);
            }
            i += 1;
        }
        None
    }

    /// Remembers `depth` for `position`: in place of what was remembered
    /// for it, or as a new entry behind all the others.
    pub fn put(&mut self, position: NodeRef, depth: usize)
        requires
            old(self).wf(),
        ensures
            final(self).wf(),
            final(self)@ == put(old(self)@, TriePointer { position, depth }),
    {
        let pointer = TriePointer { position, depth };
        proof {
            lemma_put_distinct(self@, pointer);
        }
        let mut i: usize = 0;
        while i < self.entries.len()
            invariant
                self@ == old(self)@,
                self.wf(),
                pointer == (TriePointer { position, depth }),
                i <= self@.len(),
                forall|j: int| 0 <= j < i ==> (#[trigger] self@[j]).position != position,
            decreases self@.len() - i,
        {
            if self.entries[i].position == position {
                let ghost before = self@;
                proof {
                    assert(before[i as int].position == position);
                    assert(holds(before, position));
                    assert(distinct(before));
                }
                self.entries.set(i, pointer);
                proof {
                    assert(self@ == before.update(i as int, pointer));
                    assert forall|j: int| 0 <= j < before.len() implies #[trigger] self@[j] == put(
                        before,
                        pointer,
                    )[j] by {
                        if j != i {
                            assert(before[j].position != before[i as int].position);
                        }
                    }
                    assert(self@ =~= put(before, pointer));
                }
                return ;
            }
            i += 1;
        }
        self.entries.push(pointer);
    }

    /// Drops every entry whose depth exceeds `max_depth`; without a bound
    /// nothing is dropped.
    pub fn prune(&mut self, max_depth: Option<usize>)
        requires
            old(self).wf(),
        ensures
            final(self).wf(),
            final(self)@ == within(old(self)@, max_depth),
    {
        match max_depth {
            None => {
                proof {
                    lemma_within_unbounded(self@);
                }
            },
            Some(bound) => {
                let mut kept: Vec<TriePointer> = Vec::new();
                let mut i: usize = 0;
                while i < self.entries.len()
                    invariant
                        i <= self@.len(),
                        kept@ == within(self@.subrange(0, i as int), max_depth),
                        max_depth == Some(bound),
                    decreases self@.len() - i,
                {
                    let pointer = self.entries[i];
                    proof {
                        assert(self@.subrange(0, i + 1).drop_last() =~= self@.subrange(0, i as int));
                        assert(self@.subrange(0, i + 1).last() == pointer);
                    }
                    if pointer.depth <= bound {
                        kept.push(pointer);
                    }
                    i += 1;
                }
                proof {
                    assert(self@.subrange(0, i as int) =~= self@);
                    lemma_within(self@, max_depth);
                }
                self.entries = kept;
            },
        }
    }
}

/// Without a bound, pruning drops nothing.
pub proof fn lemma_within_unbounded(s: Seq<TriePointer>)
    ensures
        within(s, None) == s,
    decreases s.len(),
{
    if s.len() > 0 {
        lemma_within_unbounded(s.drop_last());
        assert(s.drop_last().push(s.last()) =~= s);
    }
}

/// Pruning keeps the order: what is kept is a selection of the entries,
/// each kept entry is admitted, and each admitted entry is kept.
pub proof fn lemma_within(s: Seq<TriePointer>, max_depth: Option<usize>)
    ensures
        within(s, max_depth).len() <= s.len(),
        forall|i: int|
            0 <= i < within(s, max_depth).len() ==> s.contains(#[trigger] within(s, max_depth)[i])
                && admits(max_depth, within(s, max_depth)[i].depth),
        forall|i: int|
            0 <= i < s.len() && admits(max_depth, (#[trigger] s[i]).depth) ==> within(
                s,
                max_depth,
            ).contains(s[i]),
        distinct(s) ==> distinct(within(s, max_depth)),
        s.len() > 0 && admits(max_depth, s[0].depth) ==> within(s, max_depth).len() > 0 && within(
            s,
            max_depth,
        )[0] == s[0],
    decreases s.len(),
{
    if s.len() > 0 {
        let front = s.drop_last();
        let w = within(front, max_depth);
        let r = within(s, max_depth);
        lemma_within(front, max_depth);
        assert(s.last() == s[s.len() - 1]);
        assert forall|i: int| 0 <= i < r.len() implies s.contains(#[trigger] r[i]) && admits(
            max_depth,
            r[i].depth,
        ) by {
            if i < w.len() {
                assert(front.contains(w[i]));
                let k = choose|k: int| 0 <= k < front.len() && front[k] == w[i];
                assert(s[k] == w[i]);
            }
        }
        assert forall|i: int| 0 <= i < s.len() && admits(max_depth, (#[trigger] s[i]).depth) implies r.contains(
            s[i],
        ) by {
            if i < front.len() {
                assert(front[i] == s[i]);
                assert(w.contains(s[i]));
                let k = choose|k: int| 0 <= k < w.len() && w[k] == s[i];
                assert(r[k] == s[i]);
            } else {
                assert(r[r.len() - 1] == s[i]);
            }
        }
        if distinct(s) {
            assert(distinct(front)) by {
                assert forall|a: int, b: int|
                    0 <= a < front.len() && 0 <= b < front.len() && a != b implies (
                #[trigger] front[a]).position != (#[trigger] front[b]).position by {
                    assert(front[a] == s[a] && front[b] == s[b]);
                }
            }
            assert forall|a: int, b: int| 0 <= a < r.len() && 0 <= b < r.len() && a != b implies (
            #[trigger] r[a]).position != (#[trigger] r[b]).position by {
                if a < w.len() && b < w.len() {
                    assert(w[a].position != w[b].position);
                } else {
                    let k = if a < w.len() {
                        a
                    } else {
                        b
                    };
                    assert(front.contains(w[k]));
                    let m = choose|m: int| 0 <= m < front.len() && front[m] == w[k];
                    assert(s[m].position != s[s.len() - 1].position);
                }
            }
        }
        if s.len() > 1 && admits(max_depth, s[0].depth) {
            assert(front[0] == s[0]);
        }
    }
}

/// Where the bound admits every entry, pruning drops none.
pub proof fn lemma_within_all(s: Seq<TriePointer>, max_depth: Option<usize>)
    requires
        forall|i: int| 0 <= i < s.len() ==> admits(max_depth, (#[trigger] s[i]).depth),
    ensures
        within(s, max_depth) == s,
    decreases s.len(),
{
    if s.len() > 0 {
        let front = s.drop_last();
        assert forall|i: int| 0 <= i < front.len() implies admits(
            max_depth,
            (#[trigger] front[i]).depth,
        ) by {
            assert(front[i] == s[i]);
        }
        lemma_within_all(front, max_depth);
        assert(s[s.len() - 1] == s.last());
        assert(front.push(s.last()) =~= s);
    }
}

} // verus!
