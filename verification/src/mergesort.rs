//! Top-down mergesort.

use vstd::prelude::*;
use vstd::seq_lib::lemma_multiset_commutative;
use crate::order::{is_permutation, sorted, SortKey};

verus! {

/// The merge of `a` and `b`: repeatedly take the smaller of the two front
/// elements, the front of `a` when they are equal, until both are used up.
pub open spec fn merge_seq<T: SortKey>(a: Seq<T>, b: Seq<T>) -> Seq<T>
    decreases a.len() + b.len(),
{
    if a.len() == 0 {
        b
    } else if b.len() == 0 {
        a
    } else if a[0].key() <= b[0].key() {
        seq![a[0]] + merge_seq(a.drop_first(), b)
    } else {
        seq![b[0]] + merge_seq(a, b.drop_first())
    }
}

/// A merge holds the elements of both inputs: it is a rearrangement of their
/// concatenation.
pub proof fn lemma_merge_is_permutation<T: SortKey>(a: Seq<T>, b: Seq<T>)
    ensures
        merge_seq(a, b).len() == a.len() + b.len(),
        is_permutation(a + b, merge_seq(a, b)),
    decreases a.len() + b.len(),
{
    if a.len() == 0 {
        assert(a + b == b);
    } else if b.len() == 0 {
        assert(a + b == a);
    } else if a[0].key() <= b[0].key() {
        lemma_merge_is_permutation(a.drop_first(), b);
        assert(a + b == seq![a[0]] + (a.drop_first() + b));
        lemma_multiset_commutative(seq![a[0]], a.drop_first() + b);
        lemma_multiset_commutative(seq![a[0]], merge_seq(a.drop_first(), b));
    } else {
        lemma_merge_is_permutation(a, b.drop_first());
        assert(b == seq![b[0]] + b.drop_first());
        lemma_multiset_commutative(a, b);
        lemma_multiset_commutative(a, b.drop_first());
        lemma_multiset_commutative(seq![b[0]], b.drop_first());
        lemma_multiset_commutative(seq![b[0]], merge_seq(a, b.drop_first()));
        broadcast use vstd::multiset::group_multiset_axioms;
        assert((a + b).to_multiset() =~= seq![b[0]].to_multiset().add(
            (a + b.drop_first()).to_multiset(),
        ));
    }
}

/// The first element of a nonempty merge is the front of one of its inputs.
proof fn lemma_merge_head<T: SortKey>(a: Seq<T>, b: Seq<T>)
    requires
        a.len() + b.len() > 0,
    ensures
        merge_seq(a, b).len() > 0,
        (a.len() > 0 && merge_seq(a, b)[0] == a[0]) || (b.len() > 0 && merge_seq(a, b)[0]
            == b[0]),
{
    lemma_merge_is_permutation(a, b);
}

/// Merging two sorted sequences gives a sorted sequence.
pub proof fn lemma_merge_sorted<T: SortKey>(a: Seq<T>, b: Seq<T>)
    requires
        sorted(a),
        sorted(b),
    ensures
        sorted(merge_seq(a, b)),
    decreases a.len() + b.len(),
{
    if a.len() == 0 || b.len() == 0 {
    } else {
        let (x, rest_a, rest_b) = if a[0].key() <= b[0].key() {
            (a[0], a.drop_first(), b)
        } else {
            (b[0], a, b.drop_first())
        };
        lemma_merge_sorted(rest_a, rest_b);
        let t = merge_seq(rest_a, rest_b);
        if t.len() > 0 {
            lemma_merge_head(rest_a, rest_b);
            assert(x.key() <= t[0].key());
        }
        let s = merge_seq(a, b);
        assert(s == seq![x] + t);
        assert forall|i: int, j: int| 0 <= i <= j < s.len() implies s[i].key() <= s[j].key() by {
            if i > 0 {
                assert(s[i] == t[i - 1] && s[j] == t[j - 1]);
            } else if j > 0 {
                assert(s[j] == t[j - 1]);
                assert(t[0].key() <= t[j - 1].key());
            }
        }
    }
}

/// Merges the runs `arr[..div]` and `arr[div..]` in place; when both runs are
/// sorted the whole of `arr` ends up sorted.
pub fn merge<T: SortKey>(arr: &mut [T], div: usize)
    requires
        div <= old(arr)@.len(),
    ensures
        final(arr)@ == merge_seq(
            old(arr)@.subrange(0, div as int),
            old(arr)@.subrange(div as int, old(arr)@.len() as int),
        ),
{
    let arr1 = vstd::slice::slice_to_vec(vstd::slice::slice_subrange(arr, 0, div));
    let arr2 = vstd::slice::slice_to_vec(vstd::slice::slice_subrange(arr, div, arr.len()));
    let ghost a = arr1@;
    let ghost b = arr2@;
    let ghost whole = merge_seq(a, b);
    proof {
        lemma_merge_is_permutation(a, b);
    }

    let arr1len = arr1.len();
    let arr2len = arr2.len();

    let mut idx1: usize = 0;
    let mut idx2: usize = 0;

    let n = arr.len();
    let mut i: usize = 0;
    proof {
        assert(a.skip(0) == a);
        assert(b.skip(0) == b);
        assert(arr@.subrange(0, 0) + whole == whole);
    }
    while i < n
        invariant
            n == arr@.len(),
            arr1@ == a,
            arr2@ == b,
            a.len() + b.len() == n,
            whole.len() == n,
            arr1len == a.len(),
            arr2len == b.len(),
            idx1 <= arr1len,
            idx2 <= arr2len,
            i == idx1 + idx2,
            i <= n,
            arr@.subrange(0, i as int) + merge_seq(a.skip(idx1 as int), b.skip(idx2 as int))
                == whole,
        decreases n - i,
    {
        let ghost rest_a = a.skip(idx1 as int);
        let ghost rest_b = b.skip(idx2 as int);
        proof {
            lemma_merge_is_permutation(rest_a, rest_b);
        }
        if idx2 >= arr2len || (idx1 < arr1len && arr1[idx1].le(&arr2[idx2])) {
            proof {
                assert(rest_a.drop_first() == a.skip(idx1 + 1));
                assert(merge_seq(rest_a, rest_b) == seq![a[idx1 as int]] + merge_seq(
                    rest_a.drop_first(),
                    rest_b,
                ));
            }
            let ghost prev = arr@;
            arr[i] = arr1[idx1];
            proof {
                assert(arr@.subrange(0, i as int + 1) == prev.subrange(0, i as int).push(
                    a[idx1 as int],
                ));
            }
            idx1 += 1;
        } else {
            proof {
                assert(rest_b.drop_first() == b.skip(idx2 + 1));
                assert(merge_seq(rest_a, rest_b) == seq![b[idx2 as int]] + merge_seq(
                    rest_a,
                    rest_b.drop_first(),
                ));
            }
            let ghost prev = arr@;
            arr[i] = arr2[idx2];
            proof {
                assert(arr@.subrange(0, i as int + 1) == prev.subrange(0, i as int).push(
                    b[idx2 as int],
                ));
            }
            idx2 += 1;
        }
        i += 1;
    }
    proof {
        assert(a.skip(idx1 as int).len() == 0);
        assert(b.skip(idx2 as int).len() == 0);
        assert(arr@.subrange(0, n as int) == arr@);
    }
}

/// Merging two sorted runs that together rearrange `s` gives `s` sorted.
pub proof fn lemma_merge_sorted_runs<T: SortKey>(s: Seq<T>, left: Seq<T>, right: Seq<T>, div: int)
    requires
        0 <= div <= s.len(),
        sorted(left),
        sorted(right),
        is_permutation(s.subrange(0, div), left),
        is_permutation(s.subrange(div, s.len() as int), right),
    ensures
        sorted(merge_seq(left, right)),
        is_permutation(s, merge_seq(left, right)),
{
    lemma_merge_sorted(left, right);
    lemma_merge_is_permutation(left, right);
    assert(s == s.subrange(0, div) + s.subrange(div, s.len() as int));
    lemma_multiset_commutative(s.subrange(0, div), s.subrange(div, s.len() as int));
    lemma_multiset_commutative(left, right);
}

/// Sorts `arr` in place, in ascending order.
pub fn sequential<T: SortKey>(arr: &mut [T])
    ensures
        sorted(final(arr)@),
        is_permutation(old(arr)@, final(arr)@),
    decreases old(arr)@.len(),
{
    let arrlen = arr.len();
    if arrlen > 1 {
        let ghost orig = arr@;
        let div = arrlen / 2;
        let (left, right) = arr.split_at_mut(div);
        sequential(left);
        sequential(right);
        let ghost sorted_left = left@;
        let ghost sorted_right = right@;
        assert(arr@ == sorted_left + sorted_right);
        proof {
            vstd::seq_lib::to_multiset_len(sorted_left);
            vstd::seq_lib::to_multiset_len(orig.subrange(0, div as int));
            vstd::seq_lib::to_multiset_len(sorted_right);
            vstd::seq_lib::to_multiset_len(orig.subrange(div as int, arrlen as int));
            assert(sorted_left == arr@.subrange(0, div as int));
            assert(sorted_right == arr@.subrange(div as int, arrlen as int));
            lemma_merge_sorted_runs(orig, sorted_left, sorted_right, div as int);
        }
        merge(arr, div);
    }
}

} // verus!
