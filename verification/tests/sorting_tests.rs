use parallel_labs::distributed_sort::{chunk_bounds, merge_chunks};
use parallel_labs::order::is_sorted;
use parallel_labs::sorting::{first_keys, generate_input, NUM_AMOUNT, NUM_VAL_MAX, NUM_VAL_MIN};
use parallel_labs::{mergesort, quicksort};

fn pseudo_random(n: usize, seed: u32) -> Vec<u16> {
    let mut x = seed;
    let mut out = Vec::new();
    for _ in 0..n {
        x = x.wrapping_mul(1_103_515_245).wrapping_add(12_345);
        out.push((x >> 16) as u16 % 500);
    }
    out
}

#[test]
fn partition_follows_lomuto() {
    let mut arr = vec![3u16, 7, 1, 8, 2, 5];
    let idx = quicksort::partition(&mut arr);
    assert_eq!(idx, 3);
    assert_eq!(arr, vec![3, 1, 2, 5, 7, 8]);
}

#[test]
fn partition_single_element() {
    let mut arr = vec![42u16];
    assert_eq!(quicksort::partition(&mut arr), 0);
    assert_eq!(arr, vec![42]);
}

#[test]
fn partition_pivot_smallest_and_largest() {
    let mut arr = vec![4u16, 6, 5, 1];
    assert_eq!(quicksort::partition(&mut arr), 0);
    assert_eq!(arr[0], 1);
    let mut arr = vec![4u16, 6, 5, 9];
    assert_eq!(quicksort::partition(&mut arr), 3);
    assert_eq!(arr, vec![4, 6, 5, 9]);
}

#[test]
fn quicksort_sorts_example() {
    let mut arr = vec![5u16, 3, 8, 1, 9, 2, 8];
    quicksort::sequential(&mut arr);
    assert_eq!(arr, vec![1, 2, 3, 5, 8, 8, 9]);
}

#[test]
fn quicksort_empty_and_single() {
    let mut empty: Vec<u16> = vec![];
    quicksort::sequential(&mut empty);
    assert!(empty.is_empty());
    let mut one = vec![7u16];
    quicksort::sequential(&mut one);
    assert_eq!(one, vec![7]);
}

#[test]
fn merge_sorted_halves() {
    let mut arr = vec![1u16, 4, 7, 2, 3, 9];
    mergesort::merge(&mut arr, 3);
    assert_eq!(arr, vec![1, 2, 3, 4, 7, 9]);
}

#[test]
fn merge_prefers_left_on_ties_and_takes_fronts() {
    let mut arr = vec![3u16, 1, 2];
    mergesort::merge(&mut arr, 2);
    assert_eq!(arr, vec![2, 3, 1]);
}

#[test]
fn merge_with_empty_side() {
    let mut arr = vec![5u16, 1, 3];
    mergesort::merge(&mut arr, 0);
    assert_eq!(arr, vec![5, 1, 3]);
    let mut arr = vec![5u16, 1, 3];
    mergesort::merge(&mut arr, 3);
    assert_eq!(arr, vec![5, 1, 3]);
}

#[test]
fn mergesort_sorts_example() {
    let mut arr = vec![9u16, 0, 4, 4, 65535, 2, 7];
    mergesort::sequential(&mut arr);
    assert_eq!(arr, vec![0, 2, 4, 4, 7, 9, 65535]);
}

#[test]
fn all_sorts_agree() {
    let orig = pseudo_random(1000, 7);
    let mut expected = orig.clone();
    expected.sort();
    let mut q = orig.clone();
    quicksort::sequential(&mut q);
    let mut m = orig.clone();
    mergesort::sequential(&mut m);
    assert_eq!(q, expected);
    assert_eq!(m, expected);
}

#[test]
fn is_sorted_answers() {
    assert!(is_sorted::<u16>(&[]));
    assert!(is_sorted(&[3u16]));
    assert!(is_sorted(&[1u32, 1, 2, 9]));
    assert!(!is_sorted(&[1u16, 3, 2]));
}

#[test]
fn generated_input_is_distinct_and_in_range() {
    let arr = generate_input();
    assert_eq!(arr.len(), NUM_AMOUNT);
    let mut seen = vec![false; NUM_VAL_MAX as usize + 1];
    for &x in arr.iter() {
        assert!(NUM_VAL_MIN <= x && x <= NUM_VAL_MAX);
        assert!(!seen[x as usize]);
        seen[x as usize] = true;
    }
    let untouched: Vec<u16> = (NUM_VAL_MIN..=NUM_VAL_MAX).take(NUM_AMOUNT).collect();
    assert_ne!(arr.to_vec(), untouched);
}

#[test]
fn chunk_bounds_cut_evenly_with_remainder_last() {
    assert_eq!(chunk_bounds(100, 7, 0), (0, 14));
    assert_eq!(chunk_bounds(100, 7, 3), (42, 56));
    assert_eq!(chunk_bounds(100, 7, 6), (84, 100));
    assert_eq!(chunk_bounds(5, 7, 6), (0, 5));
    assert_eq!(chunk_bounds(5, 7, 2), (0, 0));
}

#[test]
fn merge_chunks_sorts_sorted_chunks() {
    let n = 7;
    let mut arr = pseudo_random(103, 3);
    for k in 0..n {
        let (s, e) = chunk_bounds(arr.len(), n, k);
        mergesort::sequential(&mut arr[s..e]);
    }
    let mut expected = arr.clone();
    expected.sort();
    merge_chunks(&mut arr, n);
    assert_eq!(arr, expected);
}

#[test]
fn merge_chunks_leaves_tail_when_remainder_too_long() {
    // 13 keys in 7 chunks: chunks of one key, the last one of seven keys; the
    // rounds take in only eight keys.
    let mut arr = vec![20u16, 19, 18, 17, 16, 15, 0, 1, 2, 3, 4, 5, 6];
    merge_chunks(&mut arr, 7);
    assert_eq!(arr, vec![0, 1, 15, 16, 17, 18, 19, 20, 2, 3, 4, 5, 6]);
    assert!(!is_sorted(&arr));
}

#[test]
fn first_keys_takes_the_front() {
    let shuffled: Vec<u16> = (0..1500u16).rev().collect();
    let arr = first_keys(&shuffled);
    assert_eq!(arr.len(), NUM_AMOUNT);
    assert_eq!(arr[0], 1499);
    assert_eq!(arr[NUM_AMOUNT - 1], 500);
}

#[test]
fn partition_right_side_order() {
    let mut arr = vec![8u16, 9, 1, 7, 2, 5];
    // Lomuto: 1 swaps with 8, 2 swaps with 9, then the pivot with 7.
    assert_eq!(quicksort::partition(&mut arr), 2);
    assert_eq!(arr, vec![1, 2, 5, 7, 9, 8]);
}

#[test]
fn mergesort_sorts_u32_keys() {
    let mut arr = vec![4_000_000_000u32, 7, 70_000, 0, 7];
    mergesort::sequential(&mut arr);
    assert_eq!(arr, vec![0, 7, 7, 70_000, 4_000_000_000]);
}

#[test]
fn merge_chunks_sorts_u32_chunks() {
    let n = 3;
    let mut arr: Vec<u32> = pseudo_random(20, 11).into_iter().map(|x| x as u32 * 100_000).collect();
    for k in 0..n {
        let (s, e) = chunk_bounds(arr.len(), n, k);
        mergesort::sequential(&mut arr[s..e]);
    }
    let mut expected = arr.clone();
    expected.sort();
    merge_chunks(&mut arr, n);
    assert_eq!(arr, expected);
    assert!(is_sorted(&arr));
}
