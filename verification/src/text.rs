//! Where a part occurs in a text, and how often.

use vstd::prelude::*;
use vstd::set_lib::{lemma_int_range, lemma_len_subset, set_int_range};

verus! {

/// `part` stands in `text` from position `i` on.
pub open spec fn occurs_at(text: Seq<char>, part: Seq<char>, i: int) -> bool {
    0 <= i <= text.len() - part.len() && text.subrange(i, i + part.len()) == part
}

/// The positions of `text` at which `part` starts.
pub open spec fn starts(text: Seq<char>, part: Seq<char>) -> Set<int> {
    Set::new(|i: int| occurs_at(text, part, i))
}

/// The number of positions of `text` at which `part` starts.
pub open spec fn occurrences(text: Seq<char>, part: Seq<char>) -> nat {
    starts(text, part).len()
}

/// `text` ends with `part`.
pub open spec fn is_suffix(part: Seq<char>, text: Seq<char>) -> bool {
    occurs_at(text, part, text.len() - part.len())
}

/// A part starts at finitely many places of a text: at most one more
/// than the text is long.
pub proof fn lemma_starts_finite(text: Seq<char>, part: Seq<char>)
    ensures
        starts(text, part).finite(),
        starts(text, part).len() <= text.len() + 1,
{
    let all = set_int_range(0, text.len() as int + 1);
    lemma_int_range(0, text.len() as int + 1);
    assert(starts(text, part).subset_of(all));
    lemma_len_subset(starts(text, part), all);
}

/// A text that ends with a part holds it at least once.
pub proof fn lemma_suffix_occurs(text: Seq<char>, part: Seq<char>)
    requires
        is_suffix(part, text),
    ensures
        occurrences(text, part) >= 1,
{
    lemma_starts_finite(text, part);
    let at = text.len() - part.len();
    assert(starts(text, part).contains(at));
    if starts(text, part).len() == 0 {
        assert(starts(text, part) =~= Set::<int>::empty());
    }
}

/// A part that occurs is counted, and a part that is counted occurs.
pub proof fn lemma_occurrences_positive(text: Seq<char>, part: Seq<char>)
    ensures
        occurrences(text, part) >= 1 <==> exists|i: int| occurs_at(text, part, i),
{
    lemma_starts_finite(text, part);
    if occurrences(text, part) >= 1 {
        let i = starts(text, part).choose();
        assert(starts(text, part).contains(i));
        assert(occurs_at(text, part, i));
    }
    if exists|i: int| occurs_at(text, part, i) {
        let i = choose|i: int| occurs_at(text, part, i);
        assert(starts(text, part).contains(i));
        if starts(text, part).len() == 0 {
            assert(starts(text, part) =~= Set::<int>::empty());
        }
    }
}

/// A text with one more character ends with `part` exactly if `part`
/// ends with that character and the text ended with the rest of `part`.
pub proof fn lemma_suffix_push(text: Seq<char>, character: char, part: Seq<char>)
    requires
        part.len() >= 1,
    ensures
        is_suffix(part, text.push(character)) <==> (part.last() == character && is_suffix(
            part.drop_last(),
            text,
        )),
{
    let longer = text.push(character);
    let front = part.drop_last();
    if part.len() <= longer.len() {
        let at = longer.len() - part.len();
        let a = longer.subrange(at, at + part.len());
        let b = text.subrange(at, at + front.len());
        assert(at == text.len() - front.len());
        if is_suffix(part, longer) {
            assert(a == part);
            assert(a[part.len() - 1] == character);
            assert(b =~= front) by {
                assert forall|k: int| 0 <= k < front.len() implies b[k] == front[k] by {
                    assert(a[k] == part[k]);
                }
            }
        }
        if part.last() == character && is_suffix(front, text) {
            assert(b == front);
            assert(a =~= part) by {
                assert forall|k: int| 0 <= k < part.len() implies a[k] == part[k] by {
                    if k < front.len() {
                        assert(b[k] == front[k]);
                    }
                }
            }
        }
    }
}

/// One more character adds one occurrence to the parts that the text now
/// ends with, and none to the others.
pub proof fn lemma_occurrences_push(text: Seq<char>, character: char, part: Seq<char>)
    requires
        part.len() >= 1,
    ensures
        occurrences(text.push(character), part) == occurrences(text, part) + if is_suffix(
            part,
            text.push(character),
        ) {
            1nat
        } else {
            0nat
        },
{
    let longer = text.push(character);
    let before = starts(text, part);
    let after = starts(longer, part);
    let last = longer.len() - part.len();
    lemma_starts_finite(text, part);
    lemma_starts_finite(longer, part);
    assert forall|i: int| i != last implies (before.contains(i) <==> after.contains(i)) by {
        if 0 <= i <= text.len() - part.len() {
            assert(longer.subrange(i, i + part.len()) =~= text.subrange(i, i + part.len()));
        }
    }
    assert(!before.contains(last));
    if is_suffix(part, longer) {
        assert(after =~= before.insert(last));
    } else {
        assert(after =~= before);
    }
}

} // verus!
