//! Quicksort with the Lomuto partition scheme.

use vstd::prelude::*;
use vstd::seq_lib::lemma_multiset_commutative;
use crate::order::{all_above, all_at_most, is_permutation, lemma_permutation_keeps_lower_bound,
    lemma_permutation_keeps_upper_bound, lemma_swap_is_permutation, sorted};

verus! {

/// Exchanges the elements at positions `i` and `j`.
fn swap_at(arr: &mut [u16], i: usize, j: usize)
    requires
        i < old(arr)@.len(),
        j < old(arr)@.len(),
    ensures
        final(arr)@ == old(arr)@.update(i as int, old(arr)@[j as int]).update(
            j as int,
            old(arr)@[i as int],
        ),
{
    let a = arr[i];
    let b = arr[j];
    arr[i] = b;
    arr[j] = a;
}


/// Keeps the elements that are at most `pivot`.
pub open spec fn at_most(pivot: u16) -> spec_fn(u16) -> bool {
    |x: u16| x <= pivot
}

/// `s` with the elements at positions `i` and `j` exchanged.
pub open spec fn swapped(s: Seq<u16>, i: int, j: int) -> Seq<u16> {
    s.update(i, s[j]).update(j, s[i])
}

/// The sequence and the boundary after the Lomuto scan has looked at the
/// first `j` elements: each element at most `pivot` is swapped to the
/// boundary, which then moves one place on.
pub open spec fn lomuto_scan(s: Seq<u16>, pivot: u16, j: nat) -> (Seq<u16>, int)
    decreases j,
{
    if j == 0 {
        (s, 0)
    } else {
        let (t, boundary) = lomuto_scan(s, pivot, (j - 1) as nat);
        if t[j - 1] <= pivot {
            (swapped(t, j - 1, boundary), boundary + 1)
        } else {
            (t, boundary)
        }
    }
}

/// The result of the Lomuto partition of a nonempty `s`: the scan of all but
/// the last element around the last one, then the last one swapped to the
/// boundary. The second component is the boundary.
pub open spec fn lomuto_partition(s: Seq<u16>) -> (Seq<u16>, int) {
    let (t, boundary) = lomuto_scan(s, s.last(), (s.len() - 1) as nat);
    (swapped(t, boundary, s.len() - 1), boundary)
}

/// Lomuto partition around the last element (the pivot).
///
/// The elements of `arr[..len - 1]` that are at most the pivot end up, in
/// their original order, in front of the pivot; the others end up behind it.
/// Returns the pivot's new position, which is the number of elements in front
/// of it.
pub fn partition(arr: &mut [u16]) -> (pivot_idx: usize)
    requires
        old(arr)@.len() >= 1,
    ensures
        (final(arr)@, pivot_idx as int) == lomuto_partition(old(arr)@),
        final(arr)@.len() == old(arr)@.len(),
        pivot_idx < final(arr)@.len(),
        is_permutation(old(arr)@, final(arr)@),
        final(arr)@[pivot_idx as int] == old(arr)@.last(),
        final(arr)@.subrange(0, pivot_idx as int) == old(arr)@.drop_last().filter(
            at_most(old(arr)@.last()),
        ),
        all_above(
            final(arr)@.subrange(pivot_idx as int + 1, final(arr)@.len() as int),
            old(arr)@.last(),
        ),
{
    let ghost orig = arr@;
    let right = arr.len() - 1;
    let pivot_val = arr[right];
    let mut pivot_idx: usize = 0;
    let mut j: usize = 0;
    while j < right
        invariant
            arr@.len() == orig.len(),
            right == orig.len() - 1,
            pivot_val == orig[right as int],
            pivot_idx <= j <= right,
            is_permutation(orig, arr@),
            arr@.subrange(0, pivot_idx as int) == orig.subrange(0, j as int).filter(
                at_most(pivot_val),
            ),
            forall|k: int| pivot_idx <= k < j ==> arr@[k] > pivot_val,
            forall|k: int| j <= k < orig.len() ==> arr@[k] == orig[k],
            (arr@, pivot_idx as int) == lomuto_scan(orig, pivot_val, j as nat),
        decreases right - j,
    {
        let ghost before = arr@;
        proof {
            let taken = orig.subrange(0, j as int);
            assert(orig.subrange(0, j as int + 1) == taken.push(orig[j as int]));
            taken.lemma_filter_push(orig[j as int], at_most(pivot_val));
        }
        if arr[j] <= pivot_val {
            proof {
                lemma_swap_is_permutation(arr@, j as int, pivot_idx as int);
            }
            swap_at(arr, j, pivot_idx);
            proof {
                assert(arr@.subrange(0, pivot_idx as int + 1) == before.subrange(
                    0,
                    pivot_idx as int,
                ).push(orig[j as int]));
            }
            pivot_idx += 1;
        }
        j += 1;
    }
    proof {
        assert(orig.subrange(0, right as int) == orig.drop_last());
        lemma_swap_is_permutation(arr@, pivot_idx as int, right as int);
    }
    let ghost before = arr@;
    swap_at(arr, pivot_idx, right);
    proof {
        assert(arr@.subrange(0, pivot_idx as int) == before.subrange(0, pivot_idx as int));
    }
    pivot_idx
}


/// Concatenating a sorted run of elements at most `pivot`, the pivot, and a
/// sorted run of elements above it gives a sorted sequence.
pub proof fn lemma_sorted_around_pivot(left: Seq<u16>, pivot: u16, right: Seq<u16>)
    requires
        sorted(left),
        sorted(right),
        all_at_most(left, pivot),
        all_above(right, pivot),
    ensures
        sorted(left + seq![pivot] + right),
{
    let s = left + seq![pivot] + right;
    assert forall|i: int, j: int| 0 <= i <= j < s.len() implies s[i] <= s[j] by {
        let n = left.len() as int;
        if j < n {
            assert(s[i] == left[i] && s[j] == left[j]);
        } else if i > n {
            assert(s[i] == right[i - n - 1] && s[j] == right[j - n - 1]);
        } else {
            if i < n {
                assert(s[i] == left[i]);
            }
            if j > n {
                assert(s[j] == right[j - n - 1]);
            }
        }
    }
}

/// Sorts `arr` in place, in ascending order.
pub fn sequential(arr: &mut [u16])
    ensures
        sorted(final(arr)@),
        is_permutation(old(arr)@, final(arr)@),
    decreases old(arr)@.len(),
{
    if arr.len() > 1 {
        let ghost orig = arr@;
        let div = partition(arr);
        let ghost parted = arr@;
        let ghost pivot = orig.last();
        proof {
            assert(all_at_most(parted.subrange(0, div as int), pivot));
        }
        let (left, rest) = arr.split_at_mut(div);
        let ghost left0 = left@;
        let ghost rest0 = rest@;
        sequential(left);
        let (mid, right) = rest.split_at_mut(1);
        let ghost right0 = right@;
        sequential(right);
        proof {
            assert(left0 == parted.subrange(0, div as int));
            assert(right0 == parted.subrange(div as int + 1, parted.len() as int));
            assert(mid@ == seq![pivot]);
            lemma_permutation_keeps_upper_bound(left0, left@, pivot);
            lemma_permutation_keeps_lower_bound(right0, right@, pivot);
            lemma_sorted_around_pivot(left@, pivot, right@);
            assert(parted == left0 + seq![pivot] + right0);
            lemma_multiset_commutative(left@ + seq![pivot], right@);
            lemma_multiset_commutative(left@, seq![pivot]);
            lemma_multiset_commutative(left0 + seq![pivot], right0);
            lemma_multiset_commutative(left0, seq![pivot]);
            assert(is_permutation(parted, left@ + seq![pivot] + right@));
        }
        let ghost sorted_left = left@;
        let ghost sorted_right = right@;
        assert(arr@ == sorted_left + seq![pivot] + sorted_right);
    }
}

} // verus!
