//! Multiplication of square matrices: entry `(r, c)` of the product is the
//! dot product of row `r` of the left factor with column `c` of the right
//! one, computed as the dot product with row `c` of its transpose.

use vstd::prelude::*;
use crate::matrix::{col, entry, lemma_index_in_bounds, lemma_index_injective, row, SquareMx};

verus! {

/// `a[0] * b[0] + ... + a[k - 1] * b[k - 1]`.
pub open spec fn dot_upto(a: Seq<u32>, b: Seq<u32>, k: nat) -> int
    decreases k,
{
    if k == 0 {
        0
    } else {
        dot_upto(a, b, (k - 1) as nat) + a[k - 1] * b[k - 1]
    }
}

/// The dot product of `a` and `b`, taken over the length of the shorter one.
pub open spec fn dot(a: Seq<u32>, b: Seq<u32>) -> int {
    dot_upto(a, b, if a.len() <= b.len() { a.len() } else { b.len() })
}

/// A partial dot product reads only the elements it covers.
proof fn lemma_dot_upto_prefix(a: Seq<u32>, b: Seq<u32>, a2: Seq<u32>, b2: Seq<u32>, k: nat)
    requires
        k <= a.len(),
        k <= b.len(),
        k <= a2.len(),
        k <= b2.len(),
        forall|i: int| 0 <= i < k ==> a[i] == a2[i] && b[i] == b2[i],
    ensures
        dot_upto(a, b, k) == dot_upto(a2, b2, k),
    decreases k,
{
    if k > 0 {
        lemma_dot_upto_prefix(a, b, a2, b2, (k - 1) as nat);
    }
}

/// The dot product of two empty sequences is zero.
pub proof fn lemma_dot_empty()
    ensures
        dot(Seq::<u32>::empty(), Seq::<u32>::empty()) == 0,
{
}

/// Extending two sequences of equal length by one element each adds the
/// product of the two new elements, once, to their dot product.
pub proof fn lemma_dot_push(a: Seq<u32>, b: Seq<u32>, x: u32, y: u32)
    requires
        a.len() == b.len(),
    ensures
        dot(a.push(x), b.push(y)) == dot(a, b) + x * y,
{
    let n = a.len();
    lemma_dot_upto_prefix(a.push(x), b.push(y), a, b, n);
    assert(a.push(x)[n as int] == x);
    assert(b.push(y)[n as int] == y);
}

/// The dot product of `a` with the sequence that is 1 at position `c` and 0
/// elsewhere picks out `a[c]`; the first `k` terms pick it out when `c < k`.
proof fn lemma_dot_upto_unit(a: Seq<u32>, e: Seq<u32>, c: int, k: nat)
    requires
        k <= a.len(),
        k <= e.len(),
        0 <= c,
        forall|i: int| 0 <= i < k ==> e[i] == (if i == c { 1u32 } else { 0u32 }),
    ensures
        dot_upto(a, e, k) == if c < k { a[c] as int } else { 0 },
    decreases k,
{
    if k > 0 {
        lemma_dot_upto_unit(a, e, c, (k - 1) as nat);
        let x = a[k - 1];
        if k - 1 == c {
            assert(x * 1 == x) by (nonlinear_arith);
        } else {
            assert(x * 0 == 0) by (nonlinear_arith);
        }
    }
}

/// The same with the unit sequence on the left.
proof fn lemma_dot_upto_unit_left(e: Seq<u32>, b: Seq<u32>, c: int, k: nat)
    requires
        k <= e.len(),
        k <= b.len(),
        0 <= c,
        forall|i: int| 0 <= i < k ==> e[i] == (if i == c { 1u32 } else { 0u32 }),
    ensures
        dot_upto(e, b, k) == if c < k { b[c] as int } else { 0 },
    decreases k,
{
    if k > 0 {
        lemma_dot_upto_unit_left(e, b, c, (k - 1) as nat);
        let y = b[k - 1];
        if k - 1 == c {
            assert(1 * y == y) by (nonlinear_arith);
        } else {
            assert(0 * y == 0) by (nonlinear_arith);
        }
    }
}

/// `id` is the `dim` x `dim` identity matrix: ones on the diagonal, zeroes
/// elsewhere.
pub open spec fn is_identity(id: Seq<u32>, dim: int) -> bool {
    &&& id.len() == dim * dim
    &&& forall|r: int, c: int|
        0 <= r < dim && 0 <= c < dim ==> #[trigger] entry(id, dim, r, c) == if r == c {
            1u32
        } else {
            0u32
        }
}

/// Multiplying by the identity on the right gives back the matrix: each
/// entry of the product is the matching entry of `m`.
pub proof fn lemma_product_identity_right(m: Seq<u32>, id: Seq<u32>, dim: int, r: int, c: int)
    requires
        m.len() == dim * dim,
        is_identity(id, dim),
        0 <= r < dim,
        0 <= c < dim,
    ensures
        product_entry(m, id, dim, r, c) == entry(m, dim, r, c),
{
    let rr = row(m, dim, r);
    let cc = col(id, dim, c);
    lemma_index_in_bounds(dim, r, 0);
    assert forall|i: int| 0 <= i < dim implies cc[i] == (if i == c { 1u32 } else { 0u32 }) by {
        lemma_index_in_bounds(dim, i, c);
        assert(cc[i] == entry(id, dim, i, c));
    }
    lemma_dot_upto_unit(rr, cc, c, dim as nat);
    assert(rr[c] == entry(m, dim, r, c));
}

/// Multiplying by the identity on the left gives back the matrix.
pub proof fn lemma_product_identity_left(id: Seq<u32>, m: Seq<u32>, dim: int, r: int, c: int)
    requires
        m.len() == dim * dim,
        is_identity(id, dim),
        0 <= r < dim,
        0 <= c < dim,
    ensures
        product_entry(id, m, dim, r, c) == entry(m, dim, r, c),
{
    let rr = row(id, dim, r);
    let cc = col(m, dim, c);
    lemma_index_in_bounds(dim, r, 0);
    assert forall|i: int| 0 <= i < dim implies rr[i] == (if i == r { 1u32 } else { 0u32 }) by {
        lemma_index_in_bounds(dim, r, i);
        assert(rr[i] == entry(id, dim, r, i));
    }
    lemma_dot_upto_unit_left(rr, cc, r, dim as nat);
    lemma_index_in_bounds(dim, r, c);
    assert(cc[r] == entry(m, dim, r, c));
}

/// Partial dot products only grow, and every term is at most their sum.
proof fn lemma_dot_upto_monotone(a: Seq<u32>, b: Seq<u32>, i: nat, k: nat)
    requires
        i < k,
        k <= a.len(),
        k <= b.len(),
    ensures
        0 <= dot_upto(a, b, i),
        dot_upto(a, b, i) + a[i as int] * b[i as int] <= dot_upto(a, b, k),
    decreases k,
{
    assert(a[k - 1] * b[k - 1] >= 0) by (nonlinear_arith)
        requires
            a[k - 1] >= 0,
            b[k - 1] >= 0,
    ;
    if i + 1 < k {
        lemma_dot_upto_monotone(a, b, i, (k - 1) as nat);
    } else if i > 0 {
        lemma_dot_upto_monotone(a, b, (i - 1) as nat, i);
    }
}

/// The dot product of `a` and `b`, over the length of the shorter one.
fn dot_product(a: &[u32], b: &[u32]) -> (sum: u32)
    requires
        dot(a@, b@) <= u32::MAX,
    ensures
        sum == dot(a@, b@),
{
    let n = if a.len() <= b.len() {
        a.len()
    } else {
        b.len()
    };
    let mut sum: u32 = 0;
    let mut i: usize = 0;
    while i < n
        invariant
            n <= a@.len(),
            n <= b@.len(),
            n == if a@.len() <= b@.len() { a@.len() } else { b@.len() },
            dot_upto(a@, b@, n as nat) <= u32::MAX,
            i <= n,
            sum == dot_upto(a@, b@, i as nat),
        decreases n - i,
    {
        proof {
            lemma_dot_upto_monotone(a@, b@, i as nat, n as nat);
        }
        sum = sum + a[i] * b[i];
        i += 1;
    }
    sum
}

/// The common dimension of two matrices, when they have one.
pub fn check_and_get_eq_dim(mx1: &SquareMx, mx2: &SquareMx) -> (dim: Option<usize>)
    ensures
        dim == (if mx1.dim == mx2.dim {
            Some(mx1.dim)
        } else {
            None
        }),
{
    if mx1.dim == mx2.dim {
        return Some(mx1.dim);
    }
    None
}

/// Entry `(r, c)` of the product of the `dim` x `dim` matrices `m1` and `m2`.
pub open spec fn product_entry(m1: Seq<u32>, m2: Seq<u32>, dim: int, r: int, c: int) -> int {
    dot(row(m1, dim, r), col(m2, dim, c))
}

/// Every entry of the product of `mx1` and `mx2` fits in a `u32`.
pub open spec fn product_fits(mx1: &SquareMx, mx2: &SquareMx) -> bool {
    forall|r: int, c: int|
        0 <= r < mx1.dim && 0 <= c < mx1.dim ==> #[trigger] product_entry(
            mx1.items@,
            mx2.items@,
            mx1.dim as int,
            r,
            c,
        ) <= u32::MAX
}

/// Row `c` of the transpose is column `c` of the matrix.
proof fn lemma_transpose_row_is_col(t: Seq<u32>, m: Seq<u32>, dim: int, c: int)
    requires
        0 <= c < dim,
        t.len() == dim * dim,
        m.len() >= dim * dim,
        forall|r: int, c: int|
            0 <= r < dim && 0 <= c < dim ==> #[trigger] entry(t, dim, c, r) == entry(m, dim, r, c),
    ensures
        row(t, dim, c) == col(m, dim, c),
{
    assert forall|k: int| 0 <= k < dim implies row(t, dim, c)[k] == col(m, dim, c)[k] by {
        lemma_index_in_bounds(dim, c, k);
        assert(entry(t, dim, c, k) == entry(m, dim, k, c));
    }
    lemma_index_in_bounds(dim, c, 0);
}

/// The product of two matrices of the same dimension; when the dimensions
/// differ, the empty matrix.
pub fn sequential(mx1: &SquareMx, mx2: &SquareMx) -> (result: SquareMx)
    requires
        mx1.dim == mx2.dim ==> {
            &&& mx1.dim * mx1.dim <= mx1.items@.len()
            &&& mx2.dim * mx2.dim <= mx2.items@.len()
            &&& product_fits(mx1, mx2)
        },
    ensures
        mx1.dim != mx2.dim ==> result.dim == 0 && result.items@.len() == 0,
        mx1.dim == mx2.dim ==> {
            &&& result.dim == mx1.dim
            &&& result.wf()
            &&& forall|r: int, c: int|
                0 <= r < mx1.dim && 0 <= c < mx1.dim ==> #[trigger] entry(
                    result.items@,
                    mx1.dim as int,
                    r,
                    c,
                ) == product_entry(mx1.items@, mx2.items@, mx1.dim as int, r, c)
        },
{
    let Some(dim) = check_and_get_eq_dim(mx1, mx2) else {
        return SquareMx::zeroes_square(0);
    };
    let ghost d = dim as int;
    let mx2t = mx2.get_transposed();
    // The item count is a usize: this bounds `dim * dim` below.
    let item_count = mx2t.items.len();
    assert(item_count == dim * dim);
    let mut result = SquareMx::zeroes_square(dim);
    let mut row_n: usize = 0;
    while row_n < dim
        invariant
            dim == mx1.dim,
            dim == mx2.dim,
            d == dim,
            mx2t.dim == dim,
            mx2t.wf(),
            forall|r: int, c: int|
                0 <= r < d && 0 <= c < d ==> #[trigger] entry(mx2t.items@, d, c, r) == entry(
                    mx2.items@,
                    d,
                    r,
                    c,
                ),
            dim * dim <= mx1.items@.len(),
            dim * dim <= mx2.items@.len(),
            product_fits(mx1, mx2),
            result.dim == dim,
            result.wf(),
            row_n <= dim,
            forall|r: int, c: int|
                0 <= r < row_n && 0 <= c < d ==> #[trigger] entry(result.items@, d, r, c)
                    == product_entry(mx1.items@, mx2.items@, d, r, c),
        decreases dim - row_n,
    {
        let mut col_n: usize = 0;
        while col_n < dim
            invariant
                dim == mx1.dim,
                dim == mx2.dim,
                d == dim,
                mx2t.dim == dim,
                mx2t.wf(),
                forall|r: int, c: int|
                    0 <= r < d && 0 <= c < d ==> #[trigger] entry(mx2t.items@, d, c, r) == entry(
                        mx2.items@,
                        d,
                        r,
                        c,
                    ),
                dim * dim <= mx1.items@.len(),
                dim * dim <= mx2.items@.len(),
                product_fits(mx1, mx2),
                result.dim == dim,
                result.wf(),
                row_n < dim,
                col_n <= dim,
                forall|r: int, c: int|
                    (0 <= r < row_n && 0 <= c < d) || (r == row_n && 0 <= c < col_n)
                        ==> #[trigger] entry(result.items@, d, r, c) == product_entry(
                        mx1.items@,
                        mx2.items@,
                        d,
                        r,
                        c,
                    ),
            decreases dim - col_n,
        {
            proof {
                lemma_index_in_bounds(d, row_n as int, col_n as int);
                lemma_index_in_bounds(d, row_n as int, 0);
                lemma_index_in_bounds(d, col_n as int, 0);
                lemma_transpose_row_is_col(mx2t.items@, mx2.items@, d, col_n as int);
                assert(product_entry(mx1.items@, mx2.items@, d, row_n as int, col_n as int)
                    <= u32::MAX);
            }
            let value = dot_product(mx1.get_row_slice(row_n), mx2t.get_row_slice(col_n));
            let ghost before = result.items@;
            *result.index_mut((row_n, col_n)) = value;
            proof {
                assert forall|r: int, c: int|
                    (0 <= r < row_n && 0 <= c < d) || (r == row_n && 0 <= c < col_n + 1)
                        implies #[trigger] entry(result.items@, d, r, c) == product_entry(
                        mx1.items@,
                        mx2.items@,
                        d,
                        r,
                        c,
                    ) by {
                    if !(r == row_n && c == col_n) {
                        lemma_index_in_bounds(d, r, c);
                        if r * d + c == row_n * d + col_n {
                            lemma_index_injective(d, r, c, row_n as int, col_n as int);
                        }
                        assert(entry(result.items@, d, r, c) == entry(before, d, r, c));
                    }
                }
            }
            col_n += 1;
        }
        row_n += 1;
    }
    result
}

/// The dot products of row `r` of `a` with rows `0..n_cols` of `b`.
pub open spec fn row_products(a: SquareMx, b: SquareMx, r: int, n_cols: int) -> Seq<u32> {
    Seq::new(
        n_cols as nat,
        |j: int| dot(row(a.items@, a.dim as int, r), row(b.items@, b.dim as int, j)) as u32,
    )
}

/// `row_products` for the rows `start..end` of `a`, one after another.
pub open spec fn chunk_products(a: SquareMx, b: SquareMx, n_cols: int, start: int, end: int) -> Seq<
    u32,
>
    decreases end - start,
{
    if end <= start {
        Seq::empty()
    } else {
        chunk_products(a, b, n_cols, start, end - 1) + row_products(a, b, end - 1, n_cols)
    }
}

/// Every dot product that `fill_result_chunk` computes fits in a `u32`.
pub open spec fn chunk_fits(a: SquareMx, b: SquareMx, n_cols: int, start: int, end: int) -> bool {
    forall|r: int, j: int|
        start <= r < end && 0 <= j < n_cols ==> #[trigger] dot(
            row(a.items@, a.dim as int, r),
            row(b.items@, b.dim as int, j),
        ) <= u32::MAX
}

/// Appends to `result_chunk`, row after row of `dim_range`, the dot products
/// of row `row_n` of `a` with rows `0..dim` of `b`: with `b` the transpose of
/// the right factor, these are rows `dim_range` of the product.
pub fn fill_result_chunk(
    a: &SquareMx,
    b: &SquareMx,
    dim: usize,
    dim_range: core::ops::Range<usize>,
    result_chunk: &mut Vec<u32>,
)
    requires
        dim_range.start < dim_range.end && dim > 0 ==> {
            &&& dim_range.end * a.dim <= a.items@.len()
            &&& dim * b.dim <= b.items@.len()
        },
        chunk_fits(*a, *b, dim as int, dim_range.start as int, dim_range.end as int),
    ensures
        final(result_chunk)@ == old(result_chunk)@ + chunk_products(
            *a,
            *b,
            dim as int,
            dim_range.start as int,
            dim_range.end as int,
        ),
{
    let start = dim_range.start;
    let end = dim_range.end;
    let ghost first = result_chunk@;
    let mut row_n = start;
    proof {
        assert(first + chunk_products(*a, *b, dim as int, start as int, start as int) == first);
    }
    while row_n < end
        invariant
            start <= row_n,
            start < end ==> row_n <= end,
            end <= start ==> row_n == start,
            start < end && dim > 0 ==> end * a.dim <= a.items@.len() && dim * b.dim
                <= b.items@.len(),
            chunk_fits(*a, *b, dim as int, start as int, end as int),
            result_chunk@ == first + chunk_products(*a, *b, dim as int, start as int, row_n as int),
        decreases end - row_n,
    {
        let ghost row_start = result_chunk@;
        let mut col_n: usize = 0;
        while col_n < dim
            invariant
                start <= row_n < end,
                dim > 0 ==> end * a.dim <= a.items@.len() && dim * b.dim <= b.items@.len(),
                chunk_fits(*a, *b, dim as int, start as int, end as int),
                col_n <= dim,
                result_chunk@ == row_start + row_products(*a, *b, row_n as int, dim as int).subrange(
                    0,
                    col_n as int,
                ),
            decreases dim - col_n,
        {
            proof {
                assert(row_n * a.dim + a.dim <= end * a.dim) by (nonlinear_arith)
                    requires
                        row_n + 1 <= end,
                        0 <= a.dim,
                ;
                assert(col_n * b.dim + b.dim <= dim * b.dim) by (nonlinear_arith)
                    requires
                        col_n + 1 <= dim,
                        0 <= b.dim,
                ;
                assert(dot(
                    row(a.items@, a.dim as int, row_n as int),
                    row(b.items@, b.dim as int, col_n as int),
                ) <= u32::MAX);
            }
            let value = dot_product(a.get_row_slice(row_n), b.get_row_slice(col_n));
            result_chunk.push(value);
            proof {
                assert(row_products(*a, *b, row_n as int, dim as int).subrange(0, col_n + 1)
                    == row_products(*a, *b, row_n as int, dim as int).subrange(
                    0,
                    col_n as int,
                ).push(value));
            }
            col_n += 1;
        }
        proof {
            assert(row_products(*a, *b, row_n as int, dim as int).subrange(0, dim as int)
                == row_products(*a, *b, row_n as int, dim as int));
        }
        row_n += 1;
    }
    proof {
        if end <= start {
            assert(chunk_products(*a, *b, dim as int, start as int, end as int) == Seq::<
                u32,
            >::empty());
            assert(chunk_products(*a, *b, dim as int, start as int, start as int) == Seq::<
                u32,
            >::empty());
        }
    }
}

/// `dim / parts`, rounded up: the number of rows each of `parts` workers
/// takes when the rows are shared out.
pub open spec fn spec_rows_per_part(dim: int, parts: int) -> int {
    dim / parts + if dim % parts == 0 { 0int } else { 1int }
}

/// Rows `0..dim` cut into consecutive blocks of `dim / parts` rows rounded up,
/// the last one possibly shorter: block `i` is
/// `i * len .. min((i + 1) * len, dim)`.
pub fn row_ranges(dim: usize, parts: usize) -> (ranges: Vec<(usize, usize)>)
    requires
        dim > 0,
        parts > 0,
    ensures
        ranges@.len() > 0,
        ranges@[0].0 == 0,
        ranges@.last().1 == dim,
        forall|i: int|
            0 <= i < ranges@.len() ==> {
                &&& (#[trigger] ranges@[i]).0 == i * spec_rows_per_part(dim as int, parts as int)
                &&& ranges@[i].1 == if (i + 1) * spec_rows_per_part(dim as int, parts as int)
                    <= dim {
                    (i + 1) * spec_rows_per_part(dim as int, parts as int)
                } else {
                    dim as int
                }
                &&& ranges@[i].0 < ranges@[i].1
            },
        forall|i: int| 0 <= i < ranges@.len() - 1 ==> #[trigger] ranges@[i].1 == ranges@[i + 1].0,
{
    let quotient = dim / parts;
    proof {
        vstd::arithmetic::div_mod::lemma_fundamental_div_mod(dim as int, parts as int);
        if dim % parts != 0 {
            assert(quotient < dim) by (nonlinear_arith)
                requires
                    dim == parts * quotient + dim % parts,
                    0 < dim % parts < parts,
            ;
        }
    }
    let len = quotient + if dim % parts == 0 {
        0
    } else {
        1
    };
    let ghost l = spec_rows_per_part(dim as int, parts as int);
    proof {
        vstd::arithmetic::div_mod::lemma_fundamental_div_mod(dim as int, parts as int);
        if dim % parts == 0 {
            assert(dim / parts > 0) by (nonlinear_arith)
                requires
                    dim == parts * (dim / parts) + dim % parts,
                    dim % parts == 0,
                    dim > 0,
            ;
        }
        assert(len <= dim) by (nonlinear_arith)
            requires
                dim == parts * (dim / parts) + dim % parts,
                0 <= dim % parts < parts,
                parts >= 1,
                len == dim / parts + if dim % parts == 0 { 0int } else { 1int },
        ;
    }
    let mut ranges: Vec<(usize, usize)> = Vec::new();
    let mut start: usize = 0;
    assert(0 * l == 0);
    let mut end: usize = 0;
    while start < dim
        invariant
            0 < len <= dim,
            l == len,
            start <= dim,
            start < dim ==> start == ranges@.len() * l,
            ranges@.len() == 0 ==> start == 0,
            ranges@.len() > 0 ==> ranges@.last().1 == start,
            forall|i: int|
                0 <= i < ranges@.len() ==> {
                    &&& (#[trigger] ranges@[i]).0 == i * l
                    &&& ranges@[i].1 == if (i + 1) * l <= dim {
                        (i + 1) * l
                    } else {
                        dim as int
                    }
                    &&& ranges@[i].0 < ranges@[i].1
                },
            forall|i: int|
                0 <= i < ranges@.len() - 1 ==> #[trigger] ranges@[i].1 == ranges@[i + 1].0,
            forall|i: int| 0 <= i < ranges@.len() - 1 ==> #[trigger] ranges@[i].1 < dim,
        decreases dim - start,
    {
        let end = if start <= dim - len {
            start + len
        } else {
            dim
        };
        let ghost k = ranges@.len() as int;
        proof {
            assert((k + 1) * l == k * l + l) by (nonlinear_arith);
        }
        ranges.push((start, end));
        start = end;
    }
    ranges
}

/// Row blocks computed one after another join up: the products for rows
/// `start..mid` followed by those for rows `mid..end` are the products for
/// rows `start..end`.
pub proof fn lemma_chunk_products_split(
    a: SquareMx,
    b: SquareMx,
    n_cols: int,
    start: int,
    mid: int,
    end: int,
)
    requires
        start <= mid <= end,
    ensures
        chunk_products(a, b, n_cols, start, end) == chunk_products(a, b, n_cols, start, mid)
            + chunk_products(a, b, n_cols, mid, end),
    decreases end - mid,
{
    if end == mid {
        assert(chunk_products(a, b, n_cols, mid, end) == Seq::<u32>::empty());
        assert(chunk_products(a, b, n_cols, start, mid) + Seq::<u32>::empty() == chunk_products(
            a,
            b,
            n_cols,
            start,
            mid,
        ));
    } else {
        lemma_chunk_products_split(a, b, n_cols, start, mid, end - 1);
        assert(chunk_products(a, b, n_cols, mid, end) == chunk_products(a, b, n_cols, mid, end - 1)
            + row_products(a, b, end - 1, n_cols));
    }
}

/// The products for rows `start..end` hold `n_cols` entries per row, and the
/// entry for row `r` and column `j` is the dot product of row `r` of `a` with
/// row `j` of `b`.
pub proof fn lemma_chunk_products_entry(a: SquareMx, b: SquareMx, n_cols: int, start: int, end: int)
    requires
        start <= end,
        0 <= n_cols,
    ensures
        chunk_products(a, b, n_cols, start, end).len() == (end - start) * n_cols,
        forall|r: int, j: int|
            start <= r < end && 0 <= j < n_cols ==> #[trigger] chunk_products(
                a,
                b,
                n_cols,
                start,
                end,
            )[(r - start) * n_cols + j] == dot(
                row(a.items@, a.dim as int, r),
                row(b.items@, b.dim as int, j),
            ) as u32,
    decreases end - start,
{
    if start < end {
        lemma_chunk_products_entry(a, b, n_cols, start, end - 1);
        let prev = chunk_products(a, b, n_cols, start, end - 1);
        assert((end - start) * n_cols == (end - 1 - start) * n_cols + n_cols) by (nonlinear_arith);
        assert forall|r: int, j: int| start <= r < end && 0 <= j < n_cols implies #[trigger] chunk_products(
            a,
            b,
            n_cols,
            start,
            end,
        )[(r - start) * n_cols + j] == dot(
            row(a.items@, a.dim as int, r),
            row(b.items@, b.dim as int, j),
        ) as u32 by {
            if r < end - 1 {
                assert((r - start) * n_cols + j < (end - 1 - start) * n_cols) by (nonlinear_arith)
                    requires
                        r + 1 <= end - 1,
                        start <= r,
                        0 <= j < n_cols,
                ;
                assert(0 <= (r - start) * n_cols) by (nonlinear_arith)
                    requires
                        start <= r,
                        0 <= n_cols,
                ;
            } else {
                assert((r - start) * n_cols == (end - 1 - start) * n_cols);
            }
        }
    } else {
        assert((end - start) * n_cols == 0) by (nonlinear_arith)
            requires
                start == end,
        ;
    }
}

/// The products for the consecutive row blocks `ranges`, one block after
/// another.
pub open spec fn chunks_over_ranges(
    a: SquareMx,
    b: SquareMx,
    n_cols: int,
    ranges: Seq<(usize, usize)>,
) -> Seq<u32>
    decreases ranges.len(),
{
    if ranges.len() == 0 {
        Seq::empty()
    } else {
        chunks_over_ranges(a, b, n_cols, ranges.drop_last()) + chunk_products(
            a,
            b,
            n_cols,
            ranges.last().0 as int,
            ranges.last().1 as int,
        )
    }
}

/// Computing the rows block by block over consecutive blocks, and joining the
/// blocks in order, gives the products for all the rows the blocks span.
pub proof fn lemma_chunks_over_ranges(
    a: SquareMx,
    b: SquareMx,
    n_cols: int,
    ranges: Seq<(usize, usize)>,
)
    requires
        ranges.len() > 0,
        forall|i: int| 0 <= i < ranges.len() ==> (#[trigger] ranges[i]).0 <= ranges[i].1,
        forall|i: int| 0 <= i < ranges.len() - 1 ==> #[trigger] ranges[i].1 == ranges[i + 1].0,
    ensures
        chunks_over_ranges(a, b, n_cols, ranges) == chunk_products(
            a,
            b,
            n_cols,
            ranges[0].0 as int,
            ranges.last().1 as int,
        ),
    decreases ranges.len(),
{
    let last = ranges.last();
    if ranges.len() == 1 {
        assert(chunks_over_ranges(a, b, n_cols, ranges.drop_last()) == Seq::<u32>::empty());
        assert(Seq::<u32>::empty() + chunk_products(a, b, n_cols, last.0 as int, last.1 as int)
            == chunk_products(a, b, n_cols, last.0 as int, last.1 as int));
    } else {
        let init = ranges.drop_last();
        assert forall|i: int| 0 <= i < init.len() implies (#[trigger] init[i]).0 <= init[i].1 by {
            assert(init[i] == ranges[i]);
        }
        assert forall|i: int| 0 <= i < init.len() - 1 implies #[trigger] init[i].1 == init[i
            + 1].0 by {
            assert(init[i] == ranges[i]);
            assert(init[i + 1] == ranges[i + 1]);
        }
        lemma_chunks_over_ranges(a, b, n_cols, init);
        assert(init.last() == ranges[ranges.len() - 2]);
        assert(ranges[ranges.len() - 2].1 == last.0);
        assert forall|i: int| 0 <= i < ranges.len() - 1 implies ranges[0].0 <= #[trigger] ranges[i
            + 1].0 by {
            lemma_range_starts_grow(ranges, i + 1);
        }
        lemma_range_starts_grow(ranges, ranges.len() - 2);
        lemma_chunk_products_split(
            a,
            b,
            n_cols,
            ranges[0].0 as int,
            last.0 as int,
            last.1 as int,
        );
    }
}

/// In consecutive blocks, every block starts at or after the first one.
proof fn lemma_range_starts_grow(ranges: Seq<(usize, usize)>, k: int)
    requires
        0 <= k < ranges.len(),
        forall|i: int| 0 <= i < ranges.len() ==> (#[trigger] ranges[i]).0 <= ranges[i].1,
        forall|i: int| 0 <= i < ranges.len() - 1 ==> #[trigger] ranges[i].1 == ranges[i + 1].0,
    ensures
        ranges[0].0 <= ranges[k].0,
    decreases k,
{
    if k > 0 {
        lemma_range_starts_grow(ranges, k - 1);
        assert(ranges[k - 1].1 == ranges[k].0);
    }
}

/// The row blocks over all rows `0..dim`, computed against the transpose of
/// the right factor, are the product entry by entry: splitting the rows among
/// workers computes what `sequential` computes.
pub proof fn lemma_row_blocks_form_product(mx1: SquareMx, mx2: SquareMx, mx2t: SquareMx)
    requires
        mx2.dim == mx1.dim,
        mx2t.dim == mx1.dim,
        mx1.wf(),
        mx2.wf(),
        mx2t.wf(),
        forall|r: int, c: int|
            0 <= r < mx1.dim && 0 <= c < mx1.dim ==> #[trigger] entry(
                mx2t.items@,
                mx1.dim as int,
                c,
                r,
            ) == entry(mx2.items@, mx1.dim as int, r, c),
        product_fits(&mx1, &mx2),
    ensures
        chunk_products(mx1, mx2t, mx1.dim as int, 0, mx1.dim as int).len() == mx1.dim * mx1.dim,
        forall|r: int, c: int|
            0 <= r < mx1.dim && 0 <= c < mx1.dim ==> #[trigger] entry(
                chunk_products(mx1, mx2t, mx1.dim as int, 0, mx1.dim as int),
                mx1.dim as int,
                r,
                c,
            ) == product_entry(mx1.items@, mx2.items@, mx1.dim as int, r, c),
{
    let d = mx1.dim as int;
    let blocks = chunk_products(mx1, mx2t, d, 0, d);
    lemma_chunk_products_entry(mx1, mx2t, d, 0, d);
    assert forall|r: int, c: int| 0 <= r < d && 0 <= c < d implies #[trigger] entry(
        blocks,
        d,
        r,
        c,
    ) == product_entry(mx1.items@, mx2.items@, d, r, c) by {
        assert(blocks[(r - 0) * d + c] == dot(row(mx1.items@, d, r), row(mx2t.items@, d, c))
            as u32);
        lemma_transpose_row_is_col(mx2t.items@, mx2.items@, d, c);
        assert(product_entry(mx1.items@, mx2.items@, d, r, c) <= u32::MAX);
        assert(0 <= product_entry(mx1.items@, mx2.items@, d, r, c)) by {
            let rr = row(mx1.items@, d, r);
            let cc = col(mx2.items@, d, c);
            lemma_index_in_bounds(d, r, 0);
            if d > 0 {
                lemma_dot_upto_monotone(rr, cc, 0, d as nat);
            }
        }
    }
}

/// Row blocks of two matrices agree when their rows agree.
proof fn lemma_same_rows_same_blocks(
    a: SquareMx,
    local: SquareMx,
    b: SquareMx,
    n_cols: int,
    start: int,
    end: int,
)
    requires
        0 <= start <= end,
        forall|i: int|
            0 <= i < end - start ==> #[trigger] row(local.items@, local.dim as int, i) == row(
                a.items@,
                a.dim as int,
                start + i,
            ),
    ensures
        chunk_products(local, b, n_cols, 0, end - start) == chunk_products(
            a,
            b,
            n_cols,
            start,
            end,
        ),
    decreases end - start,
{
    if start < end {
        lemma_same_rows_same_blocks(a, local, b, n_cols, start, end - 1);
        let i = end - 1 - start;
        assert(row(local.items@, local.dim as int, i) == row(a.items@, a.dim as int, end - 1));
        assert(row_products(local, b, i, n_cols) == row_products(a, b, end - 1, n_cols));
    } else {
        assert(chunk_products(local, b, n_cols, 0, 0) == Seq::<u32>::empty());
    }
}

/// A matrix value that holds rows `start..end` of `a` (as a worker receives
/// them) gives, for its rows `0..end - start`, the products that `a` gives for
/// rows `start..end`.
pub proof fn lemma_local_rows(
    a: SquareMx,
    local: SquareMx,
    b: SquareMx,
    n_cols: int,
    start: int,
    end: int,
)
    requires
        0 <= start <= end,
        local.dim == a.dim,
        end * a.dim <= a.items@.len(),
        local.items@ == a.items@.subrange(start * a.dim, end * a.dim),
    ensures
        chunk_products(local, b, n_cols, 0, end - start) == chunk_products(
            a,
            b,
            n_cols,
            start,
            end,
        ),
{
    let d = a.dim as int;
    assert(0 <= start * d <= end * d) by (nonlinear_arith)
        requires
            0 <= start <= end,
            0 <= d,
    ;
    assert forall|i: int| 0 <= i < end - start implies #[trigger] row(local.items@, d, i) == row(
        a.items@,
        d,
        start + i,
    ) by {
        assert(start * d + i * d == (start + i) * d) by (nonlinear_arith);
        assert((start + i) * d + d <= end * d) by (nonlinear_arith)
            requires
                start + i + 1 <= end,
                0 <= d,
        ;
        assert(0 <= i * d) by (nonlinear_arith)
            requires
                0 <= i,
                0 <= d,
        ;
    }
    lemma_same_rows_same_blocks(a, local, b, n_cols, start, end);
}

/// The blocks, one after another.
pub open spec fn joined(blocks: Seq<Vec<u32>>) -> Seq<u32>
    decreases blocks.len(),
{
    if blocks.len() == 0 {
        Seq::empty()
    } else {
        joined(blocks.drop_last()) + blocks.last()@
    }
}

/// `ranges` are consecutive blocks of rows that run from row 0 to row `dim`,
/// and `blocks[i]` holds `dim` items for each row of `ranges[i]`.
pub open spec fn blocks_cover(dim: int, ranges: Seq<(usize, usize)>, blocks: Seq<Vec<u32>>) -> bool {
    &&& ranges.len() == blocks.len()
    &&& ranges.len() > 0
    &&& ranges[0].0 == 0
    &&& ranges.last().1 == dim
    &&& forall|i: int| 0 <= i < ranges.len() ==> (#[trigger] ranges[i]).0 <= ranges[i].1
    &&& forall|i: int| 0 <= i < ranges.len() - 1 ==> #[trigger] ranges[i].1 == ranges[i + 1].0
    &&& forall|i: int|
        0 <= i < ranges.len() ==> (#[trigger] blocks[i])@.len() == (ranges[i].1 - ranges[i].0)
            * dim
}

/// In consecutive blocks, every block ends at or before the last one.
proof fn lemma_range_ends_below_last(ranges: Seq<(usize, usize)>, k: int)
    requires
        0 <= k < ranges.len(),
        forall|i: int| 0 <= i < ranges.len() ==> (#[trigger] ranges[i]).0 <= ranges[i].1,
        forall|i: int| 0 <= i < ranges.len() - 1 ==> #[trigger] ranges[i].1 == ranges[i + 1].0,
    ensures
        ranges[k].1 <= ranges.last().1,
    decreases ranges.len() - k,
{
    if k < ranges.len() - 1 {
        lemma_range_ends_below_last(ranges, k + 1);
        assert(ranges[k].1 == ranges[k + 1].0);
    }
}

/// The `dim` x `dim` matrix whose items are the blocks of rows computed for
/// `ranges`, each written at its first row; the blocks cover all the rows,
/// so the items are the blocks one after another.
pub fn assemble_rows(dim: usize, ranges: &Vec<(usize, usize)>, blocks: &Vec<Vec<u32>>) -> (result:
    SquareMx)
    requires
        dim * dim <= usize::MAX,
        blocks_cover(dim as int, ranges@, blocks@),
    ensures
        result.dim == dim,
        result.wf(),
        result.items@ == joined(blocks@),
{
    let ghost d = dim as int;
    let mut result = SquareMx::zeroes_square(dim);
    let n = blocks.len();
    let mut i: usize = 0;
    proof {
        assert(blocks@.take(0) == Seq::<Vec<u32>>::empty());
        assert(0 * d == 0);
    }
    while i < n
        invariant
            n == blocks@.len(),
            d == dim,
            dim * dim <= usize::MAX,
            blocks_cover(d, ranges@, blocks@),
            result.dim == dim,
            result.items@.len() == dim * dim,
            i <= n,
            i < n ==> joined(blocks@.take(i as int)).len() == ranges@[i as int].0 * d,
            i == n ==> joined(blocks@.take(i as int)).len() == d * d,
            result.items@.subrange(0, joined(blocks@.take(i as int)).len() as int) == joined(
                blocks@.take(i as int),
            ),
        decreases n - i,
    {
        let ghost before = result.items@;
        let ghost prefix = joined(blocks@.take(i as int));
        let (start_row, end_row) = ranges[i];
        proof {
            lemma_range_ends_below_last(ranges@, i as int);
            assert(blocks@[i as int]@.len() == (end_row - start_row) * d);
            assert(start_row * d + (end_row - start_row) * d == end_row * d) by (nonlinear_arith);
            assert(end_row * d <= d * d) by (nonlinear_arith)
                requires
                    end_row <= d,
                    0 <= d,
            ;
            assert(0 <= (end_row - start_row) * d) by (nonlinear_arith)
                requires
                    start_row <= end_row,
                    0 <= d,
            ;
        }
        result.place_rows(start_row, blocks[i].as_slice());
        proof {
            let next = blocks@.take(i + 1);
            assert(next.drop_last() == blocks@.take(i as int));
            assert(next.last() == blocks@[i as int]);
            assert(joined(next) == prefix + blocks@[i as int]@);
            assert(result.items@.subrange(0, joined(next).len() as int) == joined(next));
            if i + 1 < n {
                assert(ranges@[i as int].1 == ranges@[i + 1].0);
            }
        }
        i += 1;
    }
    proof {
        assert(blocks@.take(n as int) == blocks@);
        assert(result.items@.subrange(0, d * d) == result.items@);
    }
    result
}

/// The blocks a worker returns for consecutive row ranges, joined, are the
/// row blocks for all the rows they span.
proof fn lemma_joined_is_chunks_over_ranges(
    a: SquareMx,
    b: SquareMx,
    n_cols: int,
    ranges: Seq<(usize, usize)>,
    blocks: Seq<Vec<u32>>,
)
    requires
        ranges.len() == blocks.len(),
        forall|i: int|
            0 <= i < ranges.len() ==> (#[trigger] blocks[i])@ == chunk_products(
                a,
                b,
                n_cols,
                ranges[i].0 as int,
                ranges[i].1 as int,
            ),
    ensures
        joined(blocks) == chunks_over_ranges(a, b, n_cols, ranges),
    decreases ranges.len(),
{
    if ranges.len() > 0 {
        let rs = ranges.drop_last();
        let bs = blocks.drop_last();
        assert forall|i: int| 0 <= i < rs.len() implies (#[trigger] bs[i])@ == chunk_products(
            a,
            b,
            n_cols,
            rs[i].0 as int,
            rs[i].1 as int,
        ) by {
            assert(bs[i] == blocks[i]);
            assert(rs[i] == ranges[i]);
        }
        lemma_joined_is_chunks_over_ranges(a, b, n_cols, rs, bs);
        assert(blocks.last() == blocks[blocks.len() - 1]);
    }
}

/// Assembling the row blocks that `fill_result_chunk` computes against the
/// transpose, over consecutive ranges that cover all the rows, gives the
/// product entry by entry: the threaded and the distributed product agree
/// with `sequential`.
pub proof fn lemma_assembled_rows_form_product(
    mx1: SquareMx,
    mx2: SquareMx,
    mx2t: SquareMx,
    ranges: Seq<(usize, usize)>,
    blocks: Seq<Vec<u32>>,
)
    requires
        mx2.dim == mx1.dim,
        mx2t.dim == mx1.dim,
        mx1.wf(),
        mx2.wf(),
        mx2t.wf(),
        forall|r: int, c: int|
            0 <= r < mx1.dim && 0 <= c < mx1.dim ==> #[trigger] entry(
                mx2t.items@,
                mx1.dim as int,
                c,
                r,
            ) == entry(mx2.items@, mx1.dim as int, r, c),
        product_fits(&mx1, &mx2),
        blocks_cover(mx1.dim as int, ranges, blocks),
        forall|i: int|
            0 <= i < ranges.len() ==> (#[trigger] blocks[i])@ == chunk_products(
                mx1,
                mx2t,
                mx1.dim as int,
                ranges[i].0 as int,
                ranges[i].1 as int,
            ),
    ensures
        joined(blocks).len() == mx1.dim * mx1.dim,
        forall|r: int, c: int|
            0 <= r < mx1.dim && 0 <= c < mx1.dim ==> #[trigger] entry(
                joined(blocks),
                mx1.dim as int,
                r,
                c,
            ) == product_entry(mx1.items@, mx2.items@, mx1.dim as int, r, c),
{
    let d = mx1.dim as int;
    lemma_joined_is_chunks_over_ranges(mx1, mx2t, d, ranges, blocks);
    lemma_chunks_over_ranges(mx1, mx2t, d, ranges);
    lemma_row_blocks_form_product(mx1, mx2, mx2t);
}

} // verus!
