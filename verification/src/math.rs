//! Sequence helpers: cyclic pairing, order-preserving set intersection, and
//! an interleaving test for two marked elements of a sequence.

use vstd::pervasive::cloned;
use vstd::prelude::*;
use vstd::std_specs::cmp::PartialEqSpec;

verus! {

/// Whether some element of `a` compares equal to `x`.
pub open spec fn has_match<T: PartialEq>(a: Seq<T>, x: T) -> bool {
    exists|i: int| 0 <= i < a.len() && a[i].eq_spec(&x)
}

/// The elements of `b`, in order and with multiplicity, that compare equal to
/// some element of `a`.
pub open spec fn matched<T: PartialEq>(a: Seq<T>, b: Seq<T>) -> Seq<T>
    decreases b.len(),
{
    if b.len() == 0 {
        Seq::empty()
    } else {
        let rest = matched(a, b.drop_last());
        if has_match(a, b.last()) {
            rest.push(b.last())
        } else {
            rest
        }
    }
}

/// Every element of `out` is a clone of some element of `src`.
pub open spec fn all_cloned_from<T: Clone>(src: Seq<T>, out: Seq<T>) -> bool {
    forall|k: int|
        0 <= k < out.len() ==> exists|j: int| 0 <= j < src.len() && cloned(src[j], #[trigger] out[k])
}

fn slice_has_match<T: PartialEqSpec>(a: &[T], x: &T) -> (r: bool)
    ensures
        T::obeys_eq_spec() ==> r == has_match(a@, *x),
{
    let mut i: usize = 0;
    while i < a.len()
        invariant
            0 <= i <= a@.len(),
            T::obeys_eq_spec() ==> !(exists|j: int| 0 <= j < i && a@[j].eq_spec(x)),
        decreases a@.len() - i,
    {
        if a[i] == *x {
            return true;
        }
        i += 1;
    }
    false
}

/// Returns the elements of `collection_b` that are also present in
/// `collection_a` (by equality), preserving `collection_b`'s order and
/// multiplicity. The returned elements are clones of `collection_b`'s.
pub fn set_intersection<T: PartialEqSpec + Clone>(collection_a: &[T], collection_b: &[T]) -> (r:
    Vec<T>)
    ensures
        r@.len() <= collection_b@.len(),
        all_cloned_from(collection_b@, r@),
        T::obeys_eq_spec() ==> {
            &&& r@.len() == matched(collection_a@, collection_b@).len()
            &&& forall|k: int|
                0 <= k < r@.len() ==> cloned(
                    matched(collection_a@, collection_b@)[k],
                    #[trigger] r@[k],
                )
        },
{
    let mut r: Vec<T> = Vec::new();
    let mut i: usize = 0;
    while i < collection_b.len()
        invariant
            0 <= i <= collection_b@.len(),
            r@.len() <= i,
            all_cloned_from(collection_b@, r@),
            T::obeys_eq_spec() ==> {
                &&& r@.len() == matched(collection_a@, collection_b@.take(i as int)).len()
                &&& forall|k: int|
                    0 <= k < r@.len() ==> cloned(
                        matched(collection_a@, collection_b@.take(i as int))[k],
                        #[trigger] r@[k],
                    )
            },
        decreases collection_b@.len() - i,
    {
        assert(collection_b@.take(i as int + 1).drop_last() == collection_b@.take(i as int));
        let x: &T = &collection_b[i];
        if slice_has_match(collection_a, x) {
            r.push(x.clone());
        }
        i += 1;
    }
    assert(collection_b@.take(collection_b@.len() as int) == collection_b@);
    r
}

/// How often `x` occurs in `s`.
pub open spec fn occurrences(s: Seq<usize>, x: usize) -> nat
    decreases s.len(),
{
    if s.len() == 0 {
        0
    } else {
        occurrences(s.drop_last(), x) + if s.last() == x {
            1nat
        } else {
            0nat
        }
    }
}

/// The subsequence of `s` made of the occurrences of `a` and `b`, in order.
pub open spec fn marks_of(s: Seq<usize>, a: usize, b: usize) -> Seq<usize>
    decreases s.len(),
{
    if s.len() == 0 {
        Seq::empty()
    } else {
        let rest = marks_of(s.drop_last(), a, b);
        if s.last() == a || s.last() == b {
            rest.push(s.last())
        } else {
            rest
        }
    }
}

/// `s` with every run of equal consecutive elements collapsed to its first
/// element, as `Vec::dedup` leaves it.
pub open spec fn collapsed(s: Seq<usize>) -> Seq<usize>
    decreases s.len(),
{
    if s.len() <= 1 {
        s
    } else {
        let rest = collapsed(s.drop_last());
        if s.last() == s[s.len() - 2] {
            rest
        } else {
            rest.push(s.last())
        }
    }
}

proof fn lemma_marks_of_occurrences(s: Seq<usize>, a: usize, b: usize)
    requires
        a != b,
    ensures
        marks_of(s, a, b).len() == occurrences(s, a) + occurrences(s, b),
    decreases s.len(),
{
    if s.len() > 0 {
        lemma_marks_of_occurrences(s.drop_last(), a, b);
    }
}

/// Whether the two occurrence pairs of `elem_a` and `elem_b` in `sequence`
/// interleave (alternate) rather than standing as two contiguous blocks:
/// the sequence is filtered down to the occurrences of the two marks, runs of
/// equal neighbours are collapsed, and at least four alternations must be
/// left.
///
/// The caller supplies a sequence holding exactly two occurrences of each of
/// the two (distinct) marks.
pub fn intersection_in_sequence(elem_a: usize, elem_b: usize, sequence: &[usize]) -> (r: bool)
    requires
        elem_a != elem_b,
        occurrences(sequence@, elem_a) == 2,
        occurrences(sequence@, elem_b) == 2,
    ensures
        r == (collapsed(marks_of(sequence@, elem_a, elem_b)).len() >= 4),
{
    let n: usize = sequence.len();
    let mut marks: Vec<usize> = Vec::new();
    let mut i: usize = 0;
    while i < n
        invariant
            n == sequence@.len(),
            0 <= i <= n,
            marks@ == marks_of(sequence@.take(i as int), elem_a, elem_b),
        decreases n - i,
    {
        assert(sequence@.take(i as int + 1).drop_last() == sequence@.take(i as int));
        let elem: usize = sequence[i];
        if elem == elem_a || elem == elem_b {
            marks.push(elem);
        }
        i += 1;
    }
    assert(sequence@.take(n as int) == sequence@);
    proof {
        lemma_marks_of_occurrences(sequence@, elem_a, elem_b);
    }
    assert(marks@.len() == 4);
    let mut distinct: Vec<usize> = Vec::new();
    let mut j: usize = 0;
    while j < marks.len()
        invariant
            distinct@ == collapsed(marks@.take(j as int)),
            0 <= j <= marks@.len(),
        decreases marks@.len() - j,
    {
        assert(marks@.take(j as int + 1).drop_last() == marks@.take(j as int));
        let elem: usize = marks[j];
        if j == 0 || elem != marks[j - 1] {
            distinct.push(elem);
        }
        j += 1;
    }
    assert(marks@.take(marks@.len() as int) == marks@);
    distinct.len() >= 4
}

/// Produces the closed cycle of adjacent pairs of `sequence`: each element
/// paired with its successor, the last one wrapping around to the first.
/// An empty sequence yields no pairs.
pub fn wrap_pairs<T: Copy>(sequence: &[T]) -> (r: Vec<(T, T)>)
    ensures
        r@.len() == sequence@.len(),
        forall|i: int|
            0 <= i < sequence@.len() ==> #[trigger] r@[i] == (
                sequence@[i],
                sequence@[(i + 1) % (sequence@.len() as int)],
            ),
{
    let n: usize = sequence.len();
    let mut r: Vec<(T, T)> = Vec::new();
    let mut i: usize = 0;
    while i < n
        invariant
            n == sequence@.len(),
            0 <= i <= n,
            r@.len() == i,
            forall|j: int|
                0 <= j < i ==> #[trigger] r@[j] == (sequence@[j], sequence@[(j + 1) % (n as int)]),
        decreases n - i,
    {
        let next: usize = if i + 1 == n {
            0
        } else {
            i + 1
        };
        proof {
            if i + 1 == n {
                vstd::arithmetic::div_mod::lemma_mod_self_0(n as int);
            } else {
                vstd::arithmetic::div_mod::lemma_small_mod((i + 1) as nat, n as nat);
            }
        }
        r.push((sequence[i], sequence[next]));
        i += 1;
    }
    r
}

} // verus!
