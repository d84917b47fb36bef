//! The mathematical model of one step of the generator: the
//! lexicographic successor of a sequence, computed from the element
//! type's comparison predicate.

use vstd::prelude::*;
use vstd::std_specs::cmp::PartialOrdSpec;
use core::cmp::Ordering;

verus! {

/// The strict order the algorithm scans with: what `a < b` returns when
/// the element type's `PartialOrd` obeys its own specification.
pub open spec fn lt_spec<T: PartialOrd>(a: T, b: T) -> bool {
    a.partial_cmp_spec(&b) == Some(Ordering::Less)
}

/// The right-most index `k <= i` at which `s` ascends (`s[k] < s[k+1]`),
/// or `-1` when no pair at or below `i` ascends.
pub open spec fn pivot_from<T: PartialOrd>(s: Seq<T>, i: int) -> int
    decreases i + 1,
{
    if i < 0 {
        -1
    } else if lt_spec(s[i], s[i + 1]) {
        i
    } else {
        pivot_from(s, i - 1)
    }
}

/// The right-most ascent of the whole sequence, or `-1` when the
/// sequence is non-ascending and so is the last permutation.
pub open spec fn pivot<T: PartialOrd>(s: Seq<T>) -> int {
    pivot_from(s, s.len() - 2)
}

/// The right-most index in `(i, j]` whose element is strictly greater
/// than `s[i]`, defaulting to `i + 1` when none is found.
pub open spec fn swap_from<T: PartialOrd>(s: Seq<T>, i: int, j: int) -> int
    decreases j - i,
{
    if j <= i + 1 {
        i + 1
    } else if lt_spec(s[i], s[j]) {
        j
    } else {
        swap_from(s, i, j - 1)
    }
}

/// The index whose element the pivot's is exchanged with: the
/// right-most element of the suffix greater than the pivot's.
pub open spec fn swap_index<T: PartialOrd>(s: Seq<T>) -> int {
    swap_from(s, pivot(s), s.len() - 1)
}

/// The lexicographic successor of `s`: exchange the pivot with the
/// right-most greater element of the suffix, then reverse the suffix;
/// `None` when `s` has no ascent and the traversal is over.
pub open spec fn next_perm<T: PartialOrd>(s: Seq<T>) -> Option<Seq<T>> {
    let i = pivot(s);
    if i < 0 {
        None
    } else {
        let j = swap_index(s);
        let t = s.update(i, s[j]).update(j, s[i]);
        Some(t.take(i + 1) + t.skip(i + 1).reverse())
    }
}

/// `s` and `u` agree at every position before `k`.
pub open spec fn eq_prefix<T>(s: Seq<T>, u: Seq<T>, k: int) -> bool {
    forall|m: int| 0 <= m < k ==> s[m] == u[m]
}

/// `s` comes lexicographically before `u` (for equal lengths): the two
/// agree on a prefix, and at the first position after it `s` holds the
/// strictly smaller element.
pub open spec fn lex_lt<T: PartialOrd>(s: Seq<T>, u: Seq<T>) -> bool {
    exists|k: int|
        0 <= k < s.len() && 0 <= k < u.len() && eq_prefix(s, u, k) && #[trigger] lt_spec(
            s[k],
            u[k],
        )
}

/// Where the right-most ascent search lands: `pivot_from(s, i)` is an
/// ascent (when one exists at or below `i`), and every pair above it
/// up to `i` is non-ascending.
pub proof fn lemma_pivot_from_props<T: PartialOrd>(s: Seq<T>, i: int)
    ensures
        -1 <= pivot_from(s, i),
        pivot_from(s, i) >= 0 ==> pivot_from(s, i) <= i,
        pivot_from(s, i) >= 0 ==> lt_spec(s[pivot_from(s, i)], s[pivot_from(s, i) + 1]),
        forall|k: int| pivot_from(s, i) < k <= i ==> !#[trigger] lt_spec(s[k], s[k + 1]),
    decreases i + 1,
{
    if i >= 0 && !lt_spec(s[i], s[i + 1]) {
        lemma_pivot_from_props(s, i - 1);
    }
}

/// Where the swap search lands: the element at `swap_from(s, i, j)` is
/// strictly greater than `s[i]` (provided the pair at `i` ascends),
/// and every element to its right up to `j` is not.
pub proof fn lemma_swap_from_props<T: PartialOrd>(s: Seq<T>, i: int, j: int)
    requires
        i + 1 <= j,
    ensures
        i + 1 <= swap_from(s, i, j) <= j,
        lt_spec(s[i], s[i + 1]) ==> lt_spec(s[i], s[swap_from(s, i, j)]),
        forall|k: int| swap_from(s, i, j) < k <= j ==> !#[trigger] lt_spec(s[i], s[k]),
    decreases j - i,
{
    if j > i + 1 && !lt_spec(s[i], s[j]) {
        lemma_swap_from_props(s, i, j - 1);
    }
}

/// Every successor is a permutation of the same elements: one step of
/// the traversal neither gains nor loses an element, and keeps the
/// length.
pub proof fn lemma_next_perm_preserves_multiset<T: PartialOrd>(s: Seq<T>)
    requires
        next_perm(s) is Some,
    ensures
        next_perm(s).unwrap().len() == s.len(),
        next_perm(s).unwrap().to_multiset() == s.to_multiset(),
{
    let i = pivot(s);
    lemma_pivot_from_props(s, s.len() - 2);
    let j = swap_index(s);
    lemma_swap_from_props(s, i, s.len() - 1);
    let t = s.update(i, s[j]).update(j, s[i]);
    lemma_swap_preserves_multiset(s, i, j);
    let u = t.take(i + 1) + t.skip(i + 1).reverse();
    assert(t.take(i + 1) + t.skip(i + 1) =~= t);
    vstd::seq_lib::lemma_multiset_commutative(t.take(i + 1), t.skip(i + 1));
    vstd::seq_lib::lemma_multiset_commutative(t.take(i + 1), t.skip(i + 1).reverse());
    t.skip(i + 1).lemma_reverse_to_multiset();
    assert(u.to_multiset() =~= s.to_multiset());
}

/// Every successor is lexicographically greater than its predecessor:
/// the prefix before the pivot is unchanged and the pivot's element
/// strictly grows.
pub proof fn lemma_next_perm_lex_increases<T: PartialOrd>(s: Seq<T>)
    requires
        next_perm(s) is Some,
    ensures
        lex_lt(s, next_perm(s).unwrap()),
{
    let i = pivot(s);
    lemma_pivot_from_props(s, s.len() - 2);
    let j = swap_index(s);
    lemma_swap_from_props(s, i, s.len() - 1);
    let t = s.update(i, s[j]).update(j, s[i]);
    let u = t.take(i + 1) + t.skip(i + 1).reverse();
    assert(eq_prefix(s, u, i));
    assert(u[i] == s[j]);
    assert(lt_spec(s[i], u[i]));
}

/// The traversal ends exactly on the arrangement with no ascent: the
/// successor is `None` iff no adjacent pair of the sequence ascends.
pub proof fn lemma_exhausted_iff_no_ascent<T: PartialOrd>(s: Seq<T>)
    ensures
        next_perm(s) is None <==> (forall|k: int|
            0 <= k < s.len() - 1 ==> !#[trigger] lt_spec(s[k], s[k + 1])),
{
    lemma_pivot_from_props(s, s.len() - 2);
}

/// Under a total order with all-distinct elements, the arrangement the
/// traversal ends on is the fully descending one.
pub proof fn lemma_exhausted_is_descending<T: PartialOrd>(s: Seq<T>)
    requires
        next_perm(s) is None,
        // the order is total on the elements: incomparable ones are equal
        forall|x: int, y: int|
            0 <= x < s.len() && 0 <= y < s.len() && !lt_spec(s[x], s[y]) && !#[trigger] lt_spec(
                s[y],
                s[x],
            ) ==> s[x] == s[y],
        // the elements are pairwise distinct
        forall|x: int, y: int| 0 <= x < y < s.len() ==> s[x] != s[y],
    ensures
        forall|k: int| 0 <= k < s.len() - 1 ==> #[trigger] lt_spec(s[k + 1], s[k]),
{
    lemma_exhausted_iff_no_ascent(s);
    assert forall|k: int| 0 <= k < s.len() - 1 implies #[trigger] lt_spec(s[k + 1], s[k]) by {
        assert(!lt_spec(s[k], s[k + 1]));
        assert(s[k] != s[k + 1]);
    }
}

/// Exchanging the elements at two positions leaves a sequence's
/// multiset of elements unchanged.
pub proof fn lemma_swap_preserves_multiset<T>(s: Seq<T>, i: int, j: int)
    requires
        0 <= i < s.len(),
        0 <= j < s.len(),
    ensures
        s.update(i, s[j]).update(j, s[i]).to_multiset() == s.to_multiset(),
{
    broadcast use vstd::seq_lib::to_multiset_update;
    broadcast use vstd::seq_lib::to_multiset_contains;
    broadcast use vstd::multiset::group_multiset_axioms;
    if i == j {
        assert(s.update(i, s[j]).update(j, s[i]) =~= s);
    } else {
        let t1 = s.update(i, s[j]);
        assert(t1[j] == s[j]);
        assert(s.contains(s[i]));
        assert(s.contains(s[j]));
        assert(t1.update(j, s[i]).to_multiset() =~= s.to_multiset());
    }
}

} // verus!
