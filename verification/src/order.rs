//! What it means for a sequence of keys to be sorted, and for one sequence to
//! be a rearrangement of another, with the facts that the sorting modules use.

use vstd::prelude::*;
use vstd::relations::{sorted_by, total_ordering};
use vstd::seq_lib::lemma_sorted_unique;

verus! {

broadcast use vstd::seq_lib::group_to_multiset_ensures;

/// A key that the sorts can order: an unsigned integer, compared by its
/// value.
pub trait SortKey: Copy + Sized {
    /// The value of the key.
    spec fn key(self) -> int;

    /// Different keys have different values.
    proof fn lemma_key_injective(a: Self, b: Self)
        requires
            a.key() == b.key(),
        ensures
            a == b,
    ;

    /// Whether `self` comes no later than `other`.
    fn le(&self, other: &Self) -> (answer: bool)
        ensures
            answer == (self.key() <= other.key()),
    ;
}

impl SortKey for u16 {
    open spec fn key(self) -> int {
        self as int
    }

    proof fn lemma_key_injective(a: Self, b: Self) {
    }

    fn le(&self, other: &Self) -> (answer: bool) {
        *self <= *other
    }
}

impl SortKey for u32 {
    open spec fn key(self) -> int {
        self as int
    }

    proof fn lemma_key_injective(a: Self, b: Self) {
    }

    fn le(&self, other: &Self) -> (answer: bool) {
        *self <= *other
    }
}

/// Every element is at most every element that follows it.
pub open spec fn sorted<T: SortKey>(s: Seq<T>) -> bool {
    forall|i: int, j: int| 0 <= i <= j < s.len() ==> s[i].key() <= s[j].key()
}

/// `b` holds exactly the elements of `a`, each as many times, in any order.
pub open spec fn is_permutation<T>(a: Seq<T>, b: Seq<T>) -> bool {
    a.to_multiset() == b.to_multiset()
}

/// Every element of `s` is at most `bound`.
pub open spec fn all_at_most(s: Seq<u16>, bound: u16) -> bool {
    forall|k: int| 0 <= k < s.len() ==> s[k] <= bound
}

/// Every element of `s` is greater than `bound`.
pub open spec fn all_above(s: Seq<u16>, bound: u16) -> bool {
    forall|k: int| 0 <= k < s.len() ==> s[k] > bound
}

spec fn leq_key<T: SortKey>() -> spec_fn(T, T) -> bool {
    |x: T, y: T| x.key() <= y.key()
}

/// Two sorted arrangements of the same elements are the same sequence: every
/// correct sort of an input gives one and the same result.
pub proof fn lemma_sorted_permutation_unique<T: SortKey>(a: Seq<T>, b: Seq<T>)
    requires
        sorted(a),
        sorted(b),
        is_permutation(a, b),
    ensures
        a == b,
{
    let leq = leq_key::<T>();
    assert forall|x: T, y: T| #[trigger] leq(x, y) && #[trigger] leq(y, x) implies x == y by {
        T::lemma_key_injective(x, y);
    }
    assert(total_ordering(leq));
    assert(sorted_by(a, leq)) by {
        assert forall|i: int, j: int| 0 <= i < j < a.len() implies #[trigger] leq(a[i], a[j]) by {}
    }
    assert(sorted_by(b, leq)) by {
        assert forall|i: int, j: int| 0 <= i < j < b.len() implies #[trigger] leq(b[i], b[j]) by {}
    }
    lemma_sorted_unique(a, b, leq);
}

/// A rearrangement keeps any bound that holds of every element.
pub proof fn lemma_permutation_keeps_upper_bound(a: Seq<u16>, b: Seq<u16>, bound: u16)
    requires
        is_permutation(a, b),
        all_at_most(a, bound),
    ensures
        all_at_most(b, bound),
{
    assert forall|k: int| 0 <= k < b.len() implies b[k] <= bound by {
        let x = b[k];
        assert(b.contains(x));
        assert(b.to_multiset().count(x) > 0);
        assert(a.to_multiset().count(x) > 0);
        assert(a.contains(x));
    }
}

/// A rearrangement keeps any strict lower bound that holds of every element.
pub proof fn lemma_permutation_keeps_lower_bound(a: Seq<u16>, b: Seq<u16>, bound: u16)
    requires
        is_permutation(a, b),
        all_above(a, bound),
    ensures
        all_above(b, bound),
{
    assert forall|k: int| 0 <= k < b.len() implies b[k] > bound by {
        let x = b[k];
        assert(b.contains(x));
        assert(b.to_multiset().count(x) > 0);
        assert(a.to_multiset().count(x) > 0);
        assert(a.contains(x));
    }
}

/// Swapping two positions rearranges a sequence.
pub proof fn lemma_swap_is_permutation<T>(s: Seq<T>, i: int, j: int)
    requires
        0 <= i < s.len(),
        0 <= j < s.len(),
    ensures
        is_permutation(s, s.update(i, s[j]).update(j, s[i])),
{
    let t = s.update(i, s[j]);
    assert(t.to_multiset() == s.to_multiset().insert(s[j]).remove(s[i]));
    assert(t.update(j, s[i]).to_multiset() == t.to_multiset().insert(s[i]).remove(t[j]));
    assert(t[j] == s[j]);
    broadcast use vstd::multiset::group_multiset_axioms;
    assert(s.to_multiset().count(s[i]) > 0);
    assert(s.to_multiset().count(s[j]) > 0);
    assert(t.update(j, s[i]).to_multiset() =~= s.to_multiset());
}

/// Any stretch of a sorted sequence is sorted.
pub proof fn lemma_sorted_subrange<T: SortKey>(s: Seq<T>, lo: int, hi: int)
    requires
        sorted(s),
        0 <= lo <= hi <= s.len(),
    ensures
        sorted(s.subrange(lo, hi)),
{
    let t = s.subrange(lo, hi);
    assert forall|i: int, j: int| 0 <= i <= j < t.len() implies t[i].key() <= t[j].key() by {
        assert(t[i] == s[lo + i] && t[j] == s[lo + j]);
    }
}

/// Tells whether `arr` is sorted in ascending order.
pub fn is_sorted<T: SortKey>(arr: &[T]) -> (answer: bool)
    ensures
        answer == sorted(arr@),
{
    let n = arr.len();
    let mut i: usize = 1;
    if n == 0 {
        return true;
    }
    while i < n
        invariant
            n == arr@.len(),
            1 <= i <= n,
            forall|a: int, b: int| 0 <= a <= b < i ==> arr@[a].key() <= arr@[b].key(),
        decreases n - i,
    {
        if !arr[i - 1].le(&arr[i]) {
            return false;
        }
        assert forall|a: int, b: int| 0 <= a <= b < i + 1 implies arr@[a].key() <= arr@[b].key() by {
            if b == i && a < i {
                assert(arr@[a].key() <= arr@[i - 1].key());
            }
        }
        i += 1;
    }
    true
}

} // verus!
