//! The input of the sorting benchmark: distinct keys drawn at random.

use vstd::prelude::*;
use crate::random::{shuffle_u16, thread_rng};

verus! {

/// Smallest key that can be drawn.
pub const NUM_VAL_MIN: u16 = 1;

/// Largest key that can be drawn.
pub const NUM_VAL_MAX: u16 = 10_000;

/// Number of keys drawn.
pub const NUM_AMOUNT: usize = 1000;

/// The first `NUM_AMOUNT` keys of `shuffled`.
pub fn first_keys(shuffled: &Vec<u16>) -> (arr: [u16; NUM_AMOUNT])
    requires
        shuffled@.len() >= NUM_AMOUNT,
    ensures
        arr@ == shuffled@.take(NUM_AMOUNT as int),
{
    let mut arr = [0u16; NUM_AMOUNT];
    let mut i: usize = 0;
    while i < NUM_AMOUNT
        invariant
            shuffled@.len() >= NUM_AMOUNT,
            arr@.len() == NUM_AMOUNT,
            i <= NUM_AMOUNT,
            forall|k: int| 0 <= k < i ==> arr@[k] == shuffled@[k],
        decreases NUM_AMOUNT - i,
    {
        arr[i] = shuffled[i];
        i += 1;
    }
    assert(arr@ == shuffled@.take(NUM_AMOUNT as int));
    arr
}

/// Draws `NUM_AMOUNT` distinct keys from `NUM_VAL_MIN..=NUM_VAL_MAX`: the
/// whole range is shuffled and its first `NUM_AMOUNT` keys are kept.
pub fn generate_input() -> (arr: [u16; NUM_AMOUNT])
    ensures
        arr@.no_duplicates(),
        forall|k: int| 0 <= k < NUM_AMOUNT ==> NUM_VAL_MIN <= #[trigger] arr@[k] <= NUM_VAL_MAX,
{
    let mut all_numbers: Vec<u16> = Vec::new();
    let mut v: u16 = NUM_VAL_MIN;
    while v <= NUM_VAL_MAX
        invariant
            NUM_VAL_MIN <= v <= NUM_VAL_MAX + 1,
            all_numbers@.len() == v - NUM_VAL_MIN,
            forall|k: int| 0 <= k < all_numbers@.len() ==> #[trigger] all_numbers@[k] == k
                + NUM_VAL_MIN,
        decreases NUM_VAL_MAX + 1 - v,
    {
        all_numbers.push(v);
        v += 1;
    }
    let ghost ordered = all_numbers@;
    assert(ordered.no_duplicates());
    let mut rng = thread_rng();
    shuffle_u16(&mut all_numbers, &mut rng);
    proof {
        ordered.lemma_multiset_has_no_duplicates();
        all_numbers@.lemma_multiset_has_no_duplicates_conv();
        assert forall|k: int| 0 <= k < all_numbers@.len() implies NUM_VAL_MIN
            <= #[trigger] all_numbers@[k] <= NUM_VAL_MAX by {
            let x = all_numbers@[k];
            vstd::seq_lib::to_multiset_contains(all_numbers@, x);
            vstd::seq_lib::to_multiset_contains(ordered, x);
            assert(all_numbers@.contains(x));
        }
        vstd::seq_lib::to_multiset_len(all_numbers@);
        vstd::seq_lib::to_multiset_len(ordered);
    }
    first_keys(&all_numbers)
}

} // verus!
