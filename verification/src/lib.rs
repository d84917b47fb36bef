//! Lazy generation of the distinct permutations of a sorted sequence,
//! in lexicographically increasing order.
//!
//! [`PermuteSorted`] holds the permutation it will hand out next; each
//! retrieval returns that sequence and advances, in place, to its
//! lexicographic successor, until the non-ascending arrangement has
//! been handed out and the generator is exhausted.

pub mod succ;

use vstd::prelude::*;

verus! {

use crate::succ::lemma_swap_preserves_multiset;
use crate::succ::next_perm;
use crate::succ::pivot;
use crate::succ::pivot_from;
use crate::succ::swap_from;
use crate::succ::swap_index;
use vstd::std_specs::cmp::PartialOrdSpec;

/// Generates the permutations of its initial sequence in increasing
/// lexicographic order, one per retrieval, without materializing them
/// all.
pub struct PermuteSorted<T> {
    next_val: Option<Vec<T>>,
}

impl<T> View for PermuteSorted<T> {
    type V = Option<Seq<T>>;

    closed spec fn view(&self) -> Option<Seq<T>> {
        match self.next_val {
            Some(v) => Some(v@),
            None => None,
        }
    }
}

impl<T: Copy + PartialOrd> PermuteSorted<T> {
    /// Must pass `next_val` presorted in non-decreasing order: the
    /// traversal starts from exactly this sequence, and only for a
    /// sorted start does it visit every distinct permutation.
    pub fn new(next_val: Vec<T>) -> (r: Self)
        ensures
            r@ == Some(next_val@),
    {
        PermuteSorted { next_val: Some(next_val) }
    }

    /// Returns the permutation the generator holds and advances it, in
    /// place, to the lexicographic successor; returns `None` forever
    /// once the last (non-ascending) permutation has been handed out.
    ///
    /// Whatever the element comparisons return, every retained state is
    /// a rearrangement of the same elements; when the comparison obeys
    /// its `PartialOrd` specification, the new state is exactly the
    /// successor that `next_perm` describes.
    pub fn next(&mut self) -> (r: Option<Vec<T>>)
        ensures
            old(self)@ is None ==> r is None && final(self)@ is None,
            old(self)@ matches Some(s) ==> {
                &&& r matches Some(v) && v@ == s
                &&& (final(self)@ matches Some(s2) ==> s2.len() == s.len() && s2.to_multiset()
                    == s.to_multiset())
                &&& (T::obeys_partial_cmp_spec() ==> final(self)@ == next_perm(s))
            },
    {
        let taken = self.next_val.take();
        match taken {
            None => None,
            Some(val) => {
                let ghost s = val@;
                let n = val.len();
                // the copy advances to the successor; `val` itself is
                // what this retrieval hands back
                let mut copy: Vec<T> = Vec::new();
                let mut k: usize = 0;
                while k < n
                    invariant
                        n == val@.len(),
                        k <= n,
                        copy@.len() == k,
                        forall|m: int| 0 <= m < k ==> copy@[m] == val@[m],
                    decreases n - k,
                {
                    copy.push(val[k]);
                    k += 1;
                }
                proof {
                    assert(copy@ =~= s);
                }
                let mut found = false;
                let mut piv: usize = 0;
                if n >= 2 {
                    let mut i: usize = n - 1;
                    while 1 <= i
                        invariant_except_break
                            n == s.len(),
                            copy@ == s,
                            !found,
                            1 <= n,
                            i <= n - 1,
                            T::obeys_partial_cmp_spec() ==> pivot(s) == pivot_from(s, i as int - 1),
                        ensures
                            copy@ == s,
                            n == s.len(),
                            found ==> piv < n - 1,
                            T::obeys_partial_cmp_spec() ==> {
                                &&& (found ==> pivot(s) == piv)
                                &&& (!found ==> pivot(s) == -1)
                            },
                        decreases i,
                    {
                        if copy[i - 1] < copy[i] {
                            found = true;
                            piv = i - 1;
                            break;
                        }
                        i -= 1;
                    }
                }
                self.next_val = if found {
                    // right-most element of the suffix strictly greater
                    // than the pivot's, scanning forward
                    let mut sw: usize = piv + 1;
                    let mut j: usize = piv + 1;
                    while j < n
                        invariant
                            n == s.len(),
                            copy@ == s,
                            piv < n - 1,
                            piv + 1 <= j <= n,
                            piv + 1 <= sw <= n - 1,
                            T::obeys_partial_cmp_spec() ==> sw == swap_from(
                                s,
                                piv as int,
                                j as int - 1,
                            ),
                        decreases n - j,
                    {
                        if copy[piv] < copy[j] {
                            sw = j;
                        }
                        j += 1;
                    }
                    let pv = copy[piv];
                    let sv = copy[sw];
                    copy.set(piv, sv);
                    copy.set(sw, pv);
                    let ghost t = s.update(piv as int, s[sw as int]).update(sw as int, s[piv as int]);
                    proof {
                        assert(copy@ =~= t);
                        lemma_swap_preserves_multiset(s, piv as int, sw as int);
                    }
                    // reverse the suffix behind the pivot in place
                    let mut lo: usize = piv + 1;
                    let mut hi: usize = n - 1;
                    while lo < hi
                        invariant
                            n == s.len(),
                            n == copy@.len(),
                            piv + 1 <= lo,
                            hi <= n - 1,
                            lo + hi == piv + n,
                            copy@.to_multiset() == s.to_multiset(),
                            forall|m: int| 0 <= m <= piv ==> copy@[m] == t[m],
                            forall|m: int| piv < m < lo ==> copy@[m] == t[piv + n - m],
                            forall|m: int| lo <= m <= hi ==> copy@[m] == t[m],
                            forall|m: int| hi < m < n ==> copy@[m] == t[piv + n - m],
                        decreases hi + 1 - lo,
                    {
                        let ghost c = copy@;
                        let x = copy[lo];
                        let y = copy[hi];
                        copy.set(lo, y);
                        copy.set(hi, x);
                        proof {
                            lemma_swap_preserves_multiset(c, lo as int, hi as int);
                        }
                        lo += 1;
                        hi -= 1;
                    }
                    proof {
                        let u = t.take(piv as int + 1) + t.skip(piv as int + 1).reverse();
                        assert(copy@ =~= u);
                        if T::obeys_partial_cmp_spec() {
                            assert(swap_index(s) == sw);
                            assert(next_perm(s) == Some(u));
                        }
                    }
                    Some(copy)
                } else {
                    None
                };
                Some(val)
            }
        }
    }
}

} // verus!
