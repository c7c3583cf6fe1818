//! The arithmetic and the final merge of the distributed mergesort: the input
//! is cut into one chunk per worker, each worker sorts its chunk, and the
//! coordinator merges the sorted chunks into a growing sorted prefix.

use vstd::prelude::*;
use vstd::seq_lib::lemma_multiset_commutative;
use crate::mergesort::{lemma_merge_is_permutation, lemma_merge_sorted, merge, merge_seq};
use crate::order::{is_permutation, lemma_sorted_subrange, sorted, SortKey};
use crate::random::random_u32;
use rand::rngs::ThreadRng;

verus! {

/// Number of elements in each chunk but the last, which also takes the rest.
pub open spec fn spec_chunk_size(len: int, n_chunks: int) -> int {
    len / n_chunks
}

/// First index of chunk `k`.
pub open spec fn spec_chunk_start(len: int, n_chunks: int, k: int) -> int {
    k * spec_chunk_size(len, n_chunks)
}

/// One past the last index of chunk `k`; the last chunk runs to the end.
pub open spec fn spec_chunk_end(len: int, n_chunks: int, k: int) -> int {
    if k == n_chunks - 1 {
        len
    } else {
        (k + 1) * spec_chunk_size(len, n_chunks)
    }
}

/// Every one of the `n_chunks` chunks of `s` is sorted.
pub open spec fn chunks_sorted<T: SortKey>(s: Seq<T>, n_chunks: int) -> bool {
    forall|k: int|
        0 <= k < n_chunks ==> #[trigger] sorted(
            s.subrange(
                spec_chunk_start(s.len() as int, n_chunks, k),
                spec_chunk_end(s.len() as int, n_chunks, k),
            ),
        )
}

proof fn lemma_chunk_arith(len: int, n: int, k: int)
    requires
        0 <= k < n,
        0 <= len,
    ensures
        0 <= spec_chunk_size(len, n) <= len,
        n * spec_chunk_size(len, n) <= len,
        0 <= spec_chunk_start(len, n, k) <= (n - 1) * spec_chunk_size(len, n),
        spec_chunk_start(len, n, k) <= spec_chunk_end(len, n, k) <= len,
        k < n - 1 ==> spec_chunk_end(len, n, k) <= (n - 1) * spec_chunk_size(len, n),
{
    let c = len / n;
    vstd::arithmetic::div_mod::lemma_fundamental_div_mod(len, n);
    assert(0 <= c <= len) by {
        vstd::arithmetic::div_mod::lemma_div_is_ordered_by_denominator(len, 1, n);
    }
    assert(n * c <= len) by (nonlinear_arith)
        requires
            len == n * c + len % n,
            0 <= len % n,
    ;
    assert(0 <= k * c <= (n - 1) * c) by (nonlinear_arith)
        requires
            0 <= k < n,
            0 <= c,
    ;
    assert((n - 1) * c <= n * c) by (nonlinear_arith)
        requires
            0 <= c,
    ;
    if k < n - 1 {
        assert(k * c <= (k + 1) * c <= (n - 1) * c) by (nonlinear_arith)
            requires
                0 <= k < n - 1,
                0 <= c,
        ;
    }
}

/// The half-open range of positions of `arr` that worker chunk `k` of
/// `n_chunks` covers: chunks of `len / n_chunks` elements, the last one
/// running to the end.
pub fn chunk_bounds(len: usize, n_chunks: usize, k: usize) -> (bounds: (usize, usize))
    requires
        k < n_chunks,
    ensures
        bounds.0 == spec_chunk_start(len as int, n_chunks as int, k as int),
        bounds.1 == spec_chunk_end(len as int, n_chunks as int, k as int),
        bounds.0 <= bounds.1 <= len,
{
    proof {
        lemma_chunk_arith(len as int, n_chunks as int, k as int);
    }
    let chunk_size = len / n_chunks;
    let start = k * chunk_size;
    proof {
        assert((k + 1) * chunk_size == k * chunk_size + chunk_size) by (nonlinear_arith);
    }
    let end = if k == n_chunks - 1 {
        len
    } else {
        start + chunk_size
    };
    (start, end)
}

/// One round of the final merge: merge the sorted prefix `s[..merged]` with
/// `s[merged..end]`, leaving the rest as it is.
pub open spec fn merge_round<T: SortKey>(s: Seq<T>, merged: int, end: int) -> Seq<T> {
    merge_seq(s.subrange(0, merged), s.subrange(merged, end)) + s.subrange(end, s.len() as int)
}

/// The sequence and the length of the merged prefix after `rounds` rounds of
/// the final merge with chunk size `c`; each round takes in the next `c`
/// elements, or what is left of them.
pub open spec fn merge_rounds<T: SortKey>(s: Seq<T>, c: int, rounds: nat) -> (Seq<T>, int)
    decreases rounds,
{
    if rounds == 0 {
        (s, if c <= s.len() { c } else { s.len() as int })
    } else {
        let (prev, merged) = merge_rounds(s, c, (rounds - 1) as nat);
        let end = if merged + c <= s.len() { merged + c } else { s.len() as int };
        (merge_round(prev, merged, end), end)
    }
}

/// The chunks cover the input in a way the final merge can take in: what the
/// last chunk holds beyond a full chunk is no longer than a full chunk.
pub open spec fn remainder_fits(len: int, n_chunks: int) -> bool {
    len % n_chunks <= len / n_chunks
}

/// In round `t` (counting from 1) the final merge takes in a stretch that
/// lies inside one chunk, so it is sorted when the chunks are.
proof fn lemma_round_block_sorted<T: SortKey>(s: Seq<T>, n: int, t: int, end: int)
    requires
        1 <= t <= n,
        chunks_sorted(s, n),
        t * spec_chunk_size(s.len() as int, n) <= end,
        end == if t * spec_chunk_size(s.len() as int, n) + spec_chunk_size(s.len() as int, n)
            <= s.len() {
            t * spec_chunk_size(s.len() as int, n) + spec_chunk_size(s.len() as int, n)
        } else {
            s.len() as int
        },
    ensures
        sorted(s.subrange(t * spec_chunk_size(s.len() as int, n), end)),
{
    let len = s.len() as int;
    let c = spec_chunk_size(len, n);
    let k = if t < n - 1 { t } else { n - 1 };
    lemma_chunk_arith(len, n, k);
    let lo = spec_chunk_start(len, n, k);
    let hi = spec_chunk_end(len, n, k);
    assert(sorted(s.subrange(lo, hi)));
    if t < n - 1 {
        assert((t + 1) * c == t * c + c) by (nonlinear_arith);
        assert(lo == t * c);
        assert(end == hi);
    } else {
        assert((n - 1) * c <= t * c) by (nonlinear_arith)
            requires
                n - 1 <= t,
                0 <= c,
        ;
        assert(t * c <= n * c) by (nonlinear_arith)
            requires
                t <= n,
                0 <= c,
        ;
    }
    lemma_sorted_subrange(s.subrange(lo, hi), t * c - lo, end - lo);
    assert(s.subrange(lo, hi).subrange(t * c - lo, end - lo) == s.subrange(t * c, end));
}

/// Merges the sorted chunks of `arr` into one sorted sequence, as the
/// coordinator of the distributed mergesort does once every worker has sent
/// its chunk back: the prefix starts as the first chunk, and each of
/// `n_chunks` rounds merges the next `len / n_chunks` elements (or what is
/// left of them) into it.
pub fn merge_chunks<T: SortKey>(arr: &mut [T], n_chunks: usize)
    requires
        n_chunks > 0,
    ensures
        final(arr)@ == merge_rounds(
            old(arr)@,
            spec_chunk_size(old(arr)@.len() as int, n_chunks as int),
            n_chunks as nat,
        ).0,
        is_permutation(old(arr)@, final(arr)@),
        chunks_sorted(old(arr)@, n_chunks as int) && remainder_fits(
            old(arr)@.len() as int,
            n_chunks as int,
        ) ==> sorted(final(arr)@),
{
    let ghost orig = arr@;
    let len = arr.len();
    let chunk_size = len / n_chunks;
    let ghost good = chunks_sorted(orig, n_chunks as int) && remainder_fits(
        len as int,
        n_chunks as int,
    );
    proof {
        lemma_chunk_arith(len as int, n_chunks as int, 0);
        if good {
            assert(sorted(orig.subrange(0, spec_chunk_end(len as int, n_chunks as int, 0))));
            lemma_sorted_subrange(
                orig.subrange(0, spec_chunk_end(len as int, n_chunks as int, 0)),
                0,
                chunk_size as int,
            );
            assert(orig.subrange(0, spec_chunk_end(len as int, n_chunks as int, 0)).subrange(
                0,
                chunk_size as int,
            ) == orig.subrange(0, chunk_size as int));
        }
        assert(chunk_size * 1 == chunk_size);
    }
    let mut merged_size = chunk_size;
    let mut round: usize = 0;
    while round < n_chunks
        invariant
            arr@.len() == len,
            len == orig.len(),
            chunk_size == spec_chunk_size(len as int, n_chunks as int),
            n_chunks * chunk_size <= len,
            round <= n_chunks,
            (arr@, merged_size as int) == merge_rounds(orig, chunk_size as int, round as nat),
            is_permutation(orig, arr@),
            merged_size <= len,
            arr@.subrange(merged_size as int, len as int) == orig.subrange(
                merged_size as int,
                len as int,
            ),
            good == (chunks_sorted(orig, n_chunks as int) && remainder_fits(
                len as int,
                n_chunks as int,
            )),
            good ==> sorted(arr@.subrange(0, merged_size as int)),
            merged_size == if (round + 1) * chunk_size <= len {
                (round + 1) * chunk_size
            } else {
                len as int
            },
        decreases n_chunks - round,
    {
        let ghost prev = arr@;
        let end = if merged_size <= len - chunk_size {
            merged_size + chunk_size
        } else {
            len
        };
        proof {
            assert((round + 2) * chunk_size == (round + 1) * chunk_size + chunk_size)
                by (nonlinear_arith);
            assert((round + 1) * chunk_size <= n_chunks * chunk_size) by (nonlinear_arith)
                requires
                    round + 1 <= n_chunks,
                    0 <= chunk_size,
            ;
            if good {
                lemma_round_block_sorted(orig, n_chunks as int, round + 1, end as int);
                assert(prev.subrange(merged_size as int, end as int) == orig.subrange(
                    merged_size as int,
                    end as int,
                ));
                lemma_merge_sorted(
                    prev.subrange(0, merged_size as int),
                    prev.subrange(merged_size as int, end as int),
                );
            }
            lemma_merge_is_permutation(
                prev.subrange(0, merged_size as int),
                prev.subrange(merged_size as int, end as int),
            );
            assert(prev.subrange(0, end as int) == prev.subrange(0, merged_size as int)
                + prev.subrange(merged_size as int, end as int));
            assert(prev == prev.subrange(0, end as int) + prev.subrange(end as int, len as int));
        }
        let (left, _rest) = arr.split_at_mut(end);
        let ghost left0 = left@;
        proof {
            assert(left0 == prev.subrange(0, end as int));
            assert(left0.subrange(0, merged_size as int) == prev.subrange(0, merged_size as int));
            assert(left0.subrange(merged_size as int, end as int) == prev.subrange(
                merged_size as int,
                end as int,
            ));
        }
        merge(left, merged_size);
        let ghost merged_left = left@;
        proof {
            assert(merged_left == merge_seq(
                prev.subrange(0, merged_size as int),
                prev.subrange(merged_size as int, end as int),
            ));
        }
        assert(arr@ == merged_left + prev.subrange(end as int, len as int));
        proof {
            assert(arr@ == merge_round(prev, merged_size as int, end as int));
            lemma_multiset_commutative(merged_left, prev.subrange(end as int, len as int));
            lemma_multiset_commutative(
                prev.subrange(0, end as int),
                prev.subrange(end as int, len as int),
            );
            assert(arr@.subrange(0, end as int) == merged_left);
            assert(prev.subrange(end as int, len as int) == prev.subrange(
                merged_size as int,
                len as int,
            ).subrange(end - merged_size, len - merged_size));
            assert(orig.subrange(end as int, len as int) == orig.subrange(
                merged_size as int,
                len as int,
            ).subrange(end - merged_size, len - merged_size));
            assert(arr@.subrange(end as int, len as int) == orig.subrange(end as int, len as int));
        }
        merged_size = end;
        round += 1;
    }
    proof {
        if good {
            vstd::arithmetic::div_mod::lemma_fundamental_div_mod(len as int, n_chunks as int);
            assert((n_chunks + 1) * chunk_size >= len) by (nonlinear_arith)
                requires
                    len == n_chunks * chunk_size + len % n_chunks,
                    len % n_chunks <= chunk_size,
            ;
            assert(arr@.subrange(0, len as int) == arr@);
        }
    }
}

/// Number of keys the distributed benchmark sorts.
pub const INPUT_SIZE: usize = 100_000_000;

/// Draws `INPUT_SIZE` keys at random; any key may come out any number of times.
pub fn generate_input(rng: &mut ThreadRng) -> (arr: Vec<u32>)
    ensures
        arr@.len() == INPUT_SIZE,
{
    let mut arr: Vec<u32> = Vec::new();
    let mut i: usize = 0;
    while i < INPUT_SIZE
        invariant
            arr@.len() == i,
            i <= INPUT_SIZE,
        decreases INPUT_SIZE - i,
    {
        arr.push(random_u32(rng));
        i += 1;
    }
    arr
}

} // verus!
