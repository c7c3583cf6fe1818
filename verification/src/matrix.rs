//! Square matrices of `u32`, stored row by row.

use vstd::prelude::*;
use crate::random::{sample_uniform_u32, thread_rng};

verus! {

/// A `dim` x `dim` matrix whose entry in row `r` and column `c` is
/// `items[r * dim + c]`.
///
/// A value built by the constructors below holds exactly `dim * dim` items;
/// the fields are public, and a value that holds only some of the rows (a
/// block of rows sent to a worker) is used too, so the functions state what
/// they need of `items` in their preconditions.
#[derive(PartialEq, Debug)]
pub struct SquareMx {
    pub items: Vec<u32>,
    pub dim: usize,
}

/// The entry in row `r` and column `c` of the row-major `items` of width `dim`.
pub open spec fn entry(items: Seq<u32>, dim: int, r: int, c: int) -> u32 {
    items[r * dim + c]
}

/// Row `r` of the row-major `items` of width `dim`.
pub open spec fn row(items: Seq<u32>, dim: int, r: int) -> Seq<u32> {
    items.subrange(r * dim, r * dim + dim)
}

/// Column `c` of the `dim` x `dim` row-major `items`.
pub open spec fn col(items: Seq<u32>, dim: int, c: int) -> Seq<u32> {
    Seq::new(dim as nat, |k: int| items[k * dim + c])
}

/// Position `r * dim + c` lies inside a `dim` x `dim` matrix, and different
/// positions of the matrix are different indices.
pub proof fn lemma_index_in_bounds(dim: int, r: int, c: int)
    requires
        0 <= r < dim,
        0 <= c < dim,
    ensures
        0 <= r * dim + c < dim * dim,
        r * dim + c + (dim - c) <= dim * dim,
{
    assert(0 <= r * dim) by (nonlinear_arith)
        requires
            0 <= r,
            0 <= dim,
    ;
    assert(r * dim + dim <= dim * dim) by (nonlinear_arith)
        requires
            r + 1 <= dim,
            0 <= dim,
    ;
}

/// Two positions of a row-major matrix with the same index are the same.
pub proof fn lemma_index_injective(dim: int, r1: int, c1: int, r2: int, c2: int)
    requires
        0 <= r1,
        0 <= r2,
        0 <= c1 < dim,
        0 <= c2 < dim,
        r1 * dim + c1 == r2 * dim + c2,
    ensures
        r1 == r2,
        c1 == c2,
{
    if r1 < r2 {
        assert(r1 * dim + dim <= r2 * dim) by (nonlinear_arith)
            requires
                r1 + 1 <= r2,
                0 <= dim,
        ;
    } else if r2 < r1 {
        assert(r2 * dim + dim <= r1 * dim) by (nonlinear_arith)
            requires
                r2 + 1 <= r1,
                0 <= dim,
        ;
    }
}

/// Transposing twice gives back the matrix: if `t` is the transpose of the
/// `dim` x `dim` matrix `m` and `tt` the transpose of `t`, then `tt` is `m`.
pub proof fn lemma_transpose_twice(m: Seq<u32>, t: Seq<u32>, tt: Seq<u32>, dim: int)
    requires
        0 <= dim,
        m.len() == dim * dim,
        t.len() == dim * dim,
        tt.len() == dim * dim,
        forall|r: int, c: int|
            0 <= r < dim && 0 <= c < dim ==> #[trigger] entry(t, dim, c, r) == entry(m, dim, r, c),
        forall|r: int, c: int|
            0 <= r < dim && 0 <= c < dim ==> #[trigger] entry(tt, dim, c, r) == entry(t, dim, r, c),
    ensures
        tt == m,
{
    assert forall|i: int| 0 <= i < dim * dim implies tt[i] == m[i] by {
        let r = i / dim;
        let c = i % dim;
        assert(dim > 0) by (nonlinear_arith)
            requires
                0 <= i < dim * dim,
                0 <= dim,
        ;
        vstd::arithmetic::div_mod::lemma_fundamental_div_mod(i, dim);
        assert(r * dim + c == i) by (nonlinear_arith)
            requires
                i == dim * r + c,
        ;
        assert(0 <= r < dim) by (nonlinear_arith)
            requires
                i == dim * r + c,
                0 <= c < dim,
                0 <= i < dim * dim,
        ;
        assert(entry(tt, dim, r, c) == entry(t, dim, c, r));
        assert(entry(t, dim, c, r) == entry(m, dim, r, c));
    }
}

/// The text of a `dim` x `dim` matrix opens with `[` and closes with `]`,
/// which occur nowhere else, and holds `dim - 1` semicolons between the rows
/// and `dim * (dim - 1)` commas between the entries of the rows; every other
/// character is a decimal digit of an entry.
pub proof fn lemma_display_separators(items: Seq<u32>, dim: int)
    requires
        dim > 0,
    ensures
        display_text(items, dim)[0] == '[',
        display_text(items, dim).last() == ']',
        count_char(display_text(items, dim), '[') == 1,
        count_char(display_text(items, dim), ']') == 1,
        count_char(display_text(items, dim), ';') == dim - 1,
        count_char(display_text(items, dim), ',') == dim * (dim - 1),
{
    let body = rows_text(items, dim, dim as nat);
    lemma_rows_text_counts(items, dim, dim as nat);
    assert(seq!['['].drop_last() == Seq::<char>::empty());
    assert(seq![']'].drop_last() == Seq::<char>::empty());
    assert(count_char(Seq::<char>::empty(), '[') == 0);
    assert(count_char(Seq::<char>::empty(), ']') == 0);
    assert(count_char(seq!['['], '[') == 1);
    assert(count_char(seq!['['], ']') == 0);
    assert(count_char(seq![']'], ']') == 1);
    assert(count_char(seq![']'], '[') == 0);
    assert(count_char(Seq::<char>::empty(), ';') == 0);
    assert(count_char(Seq::<char>::empty(), ',') == 0);
    assert(count_char(seq!['['], ';') == 0);
    assert(count_char(seq!['['], ',') == 0);
    assert(count_char(seq![']'], ';') == 0);
    assert(count_char(seq![']'], ',') == 0);
    lemma_count_concat(seq!['['], body, '[');
    lemma_count_concat(seq!['['], body, ']');
    lemma_count_concat(seq!['['], body, ';');
    lemma_count_concat(seq!['['], body, ',');
    lemma_count_concat(seq!['['] + body, seq![']'], '[');
    lemma_count_concat(seq!['['] + body, seq![']'], ']');
    lemma_count_concat(seq!['['] + body, seq![']'], ';');
    lemma_count_concat(seq!['['] + body, seq![']'], ',');
    assert(dim * (dim - 1) == (dim as nat) * (dim - 1));
}

/// Calls `String::push`, which appends one character to the string.
#[verifier::external_body]
fn push_char(text: &mut String, c: char)
    ensures
        final(text)@ == old(text)@.push(c),
{
    text.push(c)
}

/// The decimal digit `d`, for `d` below ten.
pub open spec fn digit_char(d: int) -> char {
    if d == 0 {
        '0'
    } else if d == 1 {
        '1'
    } else if d == 2 {
        '2'
    } else if d == 3 {
        '3'
    } else if d == 4 {
        '4'
    } else if d == 5 {
        '5'
    } else if d == 6 {
        '6'
    } else if d == 7 {
        '7'
    } else if d == 8 {
        '8'
    } else {
        '9'
    }
}

/// The decimal notation of `n`, without leading zeroes.
pub open spec fn decimal(n: nat) -> Seq<char>
    decreases n,
{
    if n < 10 {
        seq![digit_char(n as int)]
    } else {
        decimal(n / 10).push(digit_char((n % 10) as int))
    }
}

/// The number a decimal digit character stands for: its distance from `'0'`.
pub open spec fn digit_value(c: char) -> int {
    (c as int) - ('0' as int)
}

/// The number that a string of decimal digits stands for, the last digit
/// counting ones.
pub open spec fn decimal_value(s: Seq<char>) -> int
    decreases s.len(),
{
    if s.len() == 0 {
        0
    } else {
        decimal_value(s.drop_last()) * 10 + digit_value(s.last())
    }
}

/// The digit character for `d` is the character `d` places after `'0'`.
pub proof fn lemma_digit_char_code(d: int)
    requires
        0 <= d < 10,
    ensures
        digit_char(d) as int == '0' as int + d,
        digit_value(digit_char(d)) == d,
{
}

/// The decimal notation of `n` is a nonempty string of the characters
/// `'0'..='9'`, without a leading zero unless `n` is zero, and read back in
/// base ten it gives `n`.
pub proof fn lemma_decimal_reads_back(n: nat)
    ensures
        decimal(n).len() > 0,
        forall|i: int|
            0 <= i < decimal(n).len() ==> '0' as int <= #[trigger] (decimal(n)[i] as int) <= '9'
                as int,
        decimal(n)[0] == '0' ==> n == 0,
        decimal_value(decimal(n)) == n,
    decreases n,
{
    if n < 10 {
        lemma_digit_char_code(n as int);
        assert(seq![digit_char(n as int)].drop_last() == Seq::<char>::empty());
        assert(decimal_value(decimal(n)) == decimal_value(Seq::<char>::empty()) * 10
            + digit_value(digit_char(n as int)));
    } else {
        lemma_decimal_reads_back(n / 10);
        lemma_digit_char_code((n % 10) as int);
        let prefix = decimal(n / 10);
        assert(decimal(n).drop_last() == prefix);
        assert(decimal(n)[0] == prefix[0]);
        assert forall|i: int| 0 <= i < decimal(n).len() implies '0' as int <= #[trigger] (
        decimal(n)[i] as int) <= '9' as int by {
            if i < prefix.len() {
                assert(decimal(n)[i] == prefix[i]);
            }
        }
        assert(decimal(n).last() == digit_char((n % 10) as int));
        assert(decimal_value(decimal(n)) == decimal_value(prefix) * 10 + digit_value(
            digit_char((n % 10) as int),
        ));
        assert(n == (n / 10) * 10 + n % 10);
    }
}

/// The entries `0..k` of row `r`, in decimal, separated by commas.
pub open spec fn row_text(items: Seq<u32>, dim: int, r: int, k: nat) -> Seq<char>
    decreases k,
{
    if k == 0 {
        Seq::empty()
    } else {
        let prev = row_text(items, dim, r, (k - 1) as nat);
        (if k == 1 {
            prev
        } else {
            prev.push(',')
        }) + decimal(entry(items, dim, r, k - 1) as nat)
    }
}

/// The rows `0..k`, each as in `row_text`, separated by semicolons.
pub open spec fn rows_text(items: Seq<u32>, dim: int, k: nat) -> Seq<char>
    decreases k,
{
    if k == 0 {
        Seq::empty()
    } else {
        let prev = rows_text(items, dim, (k - 1) as nat);
        (if k == 1 {
            prev
        } else {
            prev.push(';')
        }) + row_text(items, dim, k - 1, dim as nat)
    }
}

/// How many times `ch` occurs in `s`.
pub open spec fn count_char(s: Seq<char>, ch: char) -> nat
    decreases s.len(),
{
    if s.len() == 0 {
        0
    } else {
        count_char(s.drop_last(), ch) + if s.last() == ch {
            1nat
        } else {
            0nat
        }
    }
}

proof fn lemma_count_concat(a: Seq<char>, b: Seq<char>, ch: char)
    ensures
        count_char(a + b, ch) == count_char(a, ch) + count_char(b, ch),
    decreases b.len(),
{
    if b.len() > 0 {
        lemma_count_concat(a, b.drop_last(), ch);
        assert((a + b).drop_last() == a + b.drop_last());
    } else {
        assert(a + b == a);
    }
}

/// A character that is not a decimal digit does not occur in decimal
/// notation.
proof fn lemma_count_decimal(n: nat, ch: char)
    requires
        !('0' as int <= ch as int <= '9' as int),
    ensures
        count_char(decimal(n), ch) == 0,
{
    lemma_decimal_reads_back(n);
    lemma_count_no_occurrence(decimal(n), ch);
}

proof fn lemma_count_no_occurrence(s: Seq<char>, ch: char)
    requires
        forall|i: int| 0 <= i < s.len() ==> s[i] != ch,
    ensures
        count_char(s, ch) == 0,
    decreases s.len(),
{
    if s.len() > 0 {
        assert(s.last() == s[s.len() - 1]);
        lemma_count_no_occurrence(s.drop_last(), ch);
    }
}

proof fn lemma_row_text_counts(items: Seq<u32>, dim: int, r: int, k: nat)
    ensures
        count_char(row_text(items, dim, r, k), ',') == if k == 0 { 0 } else { k - 1 },
        count_char(row_text(items, dim, r, k), ';') == 0,
        count_char(row_text(items, dim, r, k), '[') == 0,
        count_char(row_text(items, dim, r, k), ']') == 0,
    decreases k,
{
    if k > 0 {
        lemma_row_text_counts(items, dim, r, (k - 1) as nat);
        let prev = row_text(items, dim, r, (k - 1) as nat);
        let digits = decimal(entry(items, dim, r, k - 1) as nat);
        let lead = if k == 1 {
            prev
        } else {
            prev.push(',')
        };
        assert(prev.push(',').drop_last() == prev);
        lemma_count_decimal(entry(items, dim, r, k - 1) as nat, ',');
        lemma_count_decimal(entry(items, dim, r, k - 1) as nat, ';');
        lemma_count_decimal(entry(items, dim, r, k - 1) as nat, '[');
        lemma_count_decimal(entry(items, dim, r, k - 1) as nat, ']');
        lemma_count_concat(lead, digits, ',');
        lemma_count_concat(lead, digits, ';');
        lemma_count_concat(lead, digits, '[');
        lemma_count_concat(lead, digits, ']');
    }
}

proof fn lemma_rows_text_counts(items: Seq<u32>, dim: int, k: nat)
    requires
        dim >= 0,
    ensures
        count_char(rows_text(items, dim, k), ';') == if k == 0 { 0 } else { k - 1 },
        count_char(rows_text(items, dim, k), ',') == if dim == 0 { 0 } else { k * (dim - 1) },
        count_char(rows_text(items, dim, k), '[') == 0,
        count_char(rows_text(items, dim, k), ']') == 0,
    decreases k,
{
    if k > 0 {
        lemma_rows_text_counts(items, dim, (k - 1) as nat);
        let prev = rows_text(items, dim, (k - 1) as nat);
        let line = row_text(items, dim, k - 1, dim as nat);
        let lead = if k == 1 {
            prev
        } else {
            prev.push(';')
        };
        assert(prev.push(';').drop_last() == prev);
        lemma_row_text_counts(items, dim, k - 1, dim as nat);
        lemma_count_concat(lead, line, ',');
        lemma_count_concat(lead, line, ';');
        lemma_count_concat(lead, line, '[');
        lemma_count_concat(lead, line, ']');
        if dim > 0 {
            assert((k - 1) * (dim - 1) + (dim - 1) == k * (dim - 1)) by (nonlinear_arith);
        }
    }
}

/// The text of a matrix: its rows between square brackets, as in
/// `[1,2;3,4]`.
pub open spec fn display_text(items: Seq<u32>, dim: int) -> Seq<char> {
    seq!['['] + rows_text(items, dim, dim as nat) + seq![']']
}

/// The decimal digit `d`.
fn digit(d: u32) -> (c: char)
    requires
        d < 10,
    ensures
        c == digit_char(d as int),
{
    match d {
        0 => '0',
        1 => '1',
        2 => '2',
        3 => '3',
        4 => '4',
        5 => '5',
        6 => '6',
        7 => '7',
        8 => '8',
        _ => '9',
    }
}

/// Appends the decimal notation of `n`.
fn push_decimal(text: &mut String, n: u32)
    ensures
        final(text)@ == old(text)@ + decimal(n as nat),
    decreases n,
{
    if n >= 10 {
        push_decimal(text, n / 10);
    }
    push_char(text, digit(n % 10));
    proof {
        if n >= 10 {
            assert(decimal(n as nat) == decimal((n / 10) as nat).push(digit_char((n % 10) as int)));
        }
    }
}

impl SquareMx {
    /// The matrix holds exactly its `dim * dim` entries.
    pub open spec fn wf(&self) -> bool {
        self.items@.len() == self.dim * self.dim
    }

    /// The `dim` x `dim` matrix of zeroes.
    pub fn zeroes_square(dim: usize) -> (mx: SquareMx)
        requires
            dim * dim <= usize::MAX,
        ensures
            mx.dim == dim,
            mx.wf(),
            forall|i: int| 0 <= i < dim * dim ==> #[trigger] mx.items@[i] == 0,
    {
        SquareMx { items: vec![0; dim * dim], dim }
    }

    /// A `dim` x `dim` matrix whose entries are drawn at random from
    /// `from..to`.
    pub fn random_square(dim: usize, from: u32, to: u32) -> (mx: SquareMx)
        requires
            dim * dim <= usize::MAX,
            from < to,
        ensures
            mx.dim == dim,
            mx.wf(),
            forall|i: int| 0 <= i < dim * dim ==> from <= #[trigger] mx.items@[i] < to,
    {
        let mut rng = thread_rng();
        let n = dim * dim;
        let mut items: Vec<u32> = Vec::new();
        let mut i: usize = 0;
        while i < n
            invariant
                items@.len() == i,
                i <= n,
                from < to,
                forall|k: int| 0 <= k < i ==> from <= #[trigger] items@[k] < to,
            decreases n - i,
        {
            items.push(sample_uniform_u32(&mut rng, from, to));
            i += 1;
        }
        SquareMx { items, dim }
    }

    /// The entry in row `index.0` and column `index.1`.
    pub fn index(&self, index: (usize, usize)) -> (value: &u32)
        requires
            index.0 * self.dim + index.1 < self.items@.len(),
        ensures
            *value == self.items@[index.0 * self.dim + index.1],
    {
        // The item count is a usize: this bounds the index arithmetic below.
        let item_count = self.items.len();
        assert(item_count == self.items@.len());
        &self.items[index.0 * self.dim + index.1]
    }

    /// The entry in row `index.0` and column `index.1`, to be written.
    pub fn index_mut(&mut self, index: (usize, usize)) -> (value: &mut u32)
        requires
            index.0 * old(self).dim + index.1 < old(self).items@.len(),
        ensures
            *value == old(self).items@[index.0 * old(self).dim + index.1],
            final(self).dim == old(self).dim,
            final(self).items@ == old(self).items@.update(
                index.0 * old(self).dim + index.1,
                *final(value),
            ),
    {
        // The item count is a usize: this bounds the index arithmetic below.
        let item_count = self.items.len();
        assert(item_count == self.items@.len());
        &mut self.items[index.0 * self.dim + index.1]
    }

    /// Row `row_n`: the `dim` items that start at `row_n * dim`.
    pub fn get_row_slice(&self, row_n: usize) -> (slice: &[u32])
        requires
            row_n * self.dim + self.dim <= self.items@.len(),
        ensures
            slice@ == row(self.items@, self.dim as int, row_n as int),
    {
        // The item count is a usize: this bounds the index arithmetic below.
        let item_count = self.items.len();
        assert(item_count == self.items@.len());
        let row_start = row_n * self.dim;
        vstd::slice::slice_subrange(self.items.as_slice(), row_start, row_start + self.dim)
    }

    /// The transpose: the entry in row `c` and column `r` of the result is
    /// the entry in row `r` and column `c` of `self`.
    pub fn get_transposed(&self) -> (t: SquareMx)
        requires
            self.dim * self.dim <= self.items@.len(),
        ensures
            t.dim == self.dim,
            t.wf(),
            forall|r: int, c: int|
                0 <= r < self.dim && 0 <= c < self.dim ==> #[trigger] entry(
                    t.items@,
                    t.dim as int,
                    c,
                    r,
                ) == entry(self.items@, self.dim as int, r, c),
    {
        let dim = self.dim;
        let ghost d = dim as int;
        // The item count is a usize: this bounds the index arithmetic below.
        let item_count = self.items.len();
        assert(item_count == self.items@.len());
        let mut result = Self::zeroes_square(dim);
        let mut row_n: usize = 0;
        while row_n < dim
            invariant
                dim == self.dim,
                d == dim,
                result.dim == dim,
                result.wf(),
                dim * dim <= self.items@.len(),
                row_n <= dim,
                forall|r: int, c: int|
                    0 <= r < row_n && 0 <= c < d ==> #[trigger] entry(result.items@, d, c, r)
                        == entry(self.items@, d, r, c),
            decreases dim - row_n,
        {
            let mut col_n: usize = 0;
            while col_n < dim
                invariant
                    dim == self.dim,
                    d == dim,
                    result.dim == dim,
                    result.wf(),
                    dim * dim <= self.items@.len(),
                    row_n < dim,
                    col_n <= dim,
                    forall|r: int, c: int|
                        (0 <= r < row_n && 0 <= c < d) || (r == row_n && 0 <= c < col_n)
                            ==> #[trigger] entry(result.items@, d, c, r) == entry(
                            self.items@,
                            d,
                            r,
                            c,
                        ),
                decreases dim - col_n,
            {
                proof {
                    lemma_index_in_bounds(d, row_n as int, col_n as int);
                    lemma_index_in_bounds(d, col_n as int, row_n as int);
                }
                let ghost before = result.items@;
                let value = *self.index((row_n, col_n));
                *result.index_mut((col_n, row_n)) = value;
                proof {
                    assert forall|r: int, c: int|
                        (0 <= r < row_n && 0 <= c < d) || (r == row_n && 0 <= c < col_n + 1)
                            implies #[trigger] entry(result.items@, d, c, r) == entry(
                            self.items@,
                            d,
                            r,
                            c,
                        ) by {
                        if !(r == row_n && c == col_n) {
                            lemma_index_in_bounds(d, c, r);
                            if c * d + r == col_n * d + row_n {
                                lemma_index_injective(d, c, r, col_n as int, row_n as int);
                            }
                            assert(entry(result.items@, d, c, r) == entry(before, d, c, r));
                        }
                    }
                }
                col_n += 1;
            }
            row_n += 1;
        }
        result
    }

    /// The text of the matrix: the rows between square brackets, separated
    /// by semicolons, the entries of a row in decimal separated by commas,
    /// as in `[1,2;3,4]`.
    pub fn to_string(&self) -> (text: String)
        requires
            self.dim * self.dim <= self.items@.len(),
        ensures
            text@ == display_text(self.items@, self.dim as int),
    {
        let dim = self.dim;
        let ghost d = dim as int;
        let ghost items = self.items@;
        let mut out = String::new();
        push_char(&mut out, '[');
        let mut row_n: usize = 0;
        while row_n < dim
            invariant
                dim == self.dim,
                d == dim,
                items == self.items@,
                dim * dim <= items.len(),
                row_n <= dim,
                out@ == seq!['['] + rows_text(items, d, row_n as nat),
            decreases dim - row_n,
        {
            let ghost before_row = out@;
            if row_n != 0 {
                push_char(&mut out, ';');
            }
            let ghost row_start = out@;
            let mut col_n: usize = 0;
            while col_n < dim
                invariant
                    dim == self.dim,
                    d == dim,
                    items == self.items@,
                    dim * dim <= items.len(),
                    row_n < dim,
                    col_n <= dim,
                    out@ == row_start + row_text(items, d, row_n as int, col_n as nat),
                decreases dim - col_n,
            {
                let ghost before = out@;
                if col_n != 0 {
                    push_char(&mut out, ',');
                }
                proof {
                    lemma_index_in_bounds(d, row_n as int, col_n as int);
                }
                push_decimal(&mut out, *self.index((row_n, col_n)));
                proof {
                    let prev = row_text(items, d, row_n as int, col_n as nat);
                    let next = row_text(items, d, row_n as int, (col_n + 1) as nat);
                    let digits = decimal(entry(items, d, row_n as int, col_n as int) as nat);
                    if col_n == 0 {
                        assert(next == prev + digits);
                        assert(out@ == row_start + prev + digits);
                    } else {
                        assert(next == prev.push(',') + digits);
                        assert(out@ == row_start + prev.push(',') + digits);
                    }
                }
                col_n += 1;
            }
            proof {
                let prev = rows_text(items, d, row_n as nat);
                let line = row_text(items, d, row_n as int, dim as nat);
                if row_n == 0 {
                    assert(rows_text(items, d, 1) == prev + line);
                    assert(out@ == seq!['['] + prev + line);
                } else {
                    assert(rows_text(items, d, (row_n + 1) as nat) == prev.push(';') + line);
                    assert(out@ == seq!['['] + prev.push(';') + line);
                }
            }
            row_n += 1;
        }
        push_char(&mut out, ']');
        out
    }

    /// Writes `block` over the items that start at row `start_row`: the
    /// rows of a block of the product land in their place in the result.
    pub fn place_rows(&mut self, start_row: usize, block: &[u32])
        requires
            start_row * old(self).dim + block@.len() <= old(self).items@.len(),
        ensures
            final(self).dim == old(self).dim,
            final(self).items@ == old(self).items@.subrange(0, start_row * old(self).dim)
                + block@ + old(self).items@.subrange(
                start_row * old(self).dim + block@.len(),
                old(self).items@.len() as int,
            ),
    {
        // The item count is a usize: this bounds the index arithmetic below.
        let item_count = self.items.len();
        assert(item_count == self.items@.len());
        let ghost orig = self.items@;
        let item_start = start_row * self.dim;
        let n = block.len();
        let mut i: usize = 0;
        while i < n
            invariant
                n == block@.len(),
                item_start + n <= orig.len(),
                item_count == orig.len(),
                self.items@.len() == orig.len(),
                self.dim == old(self).dim,
                orig == old(self).items@,
                item_start == start_row * self.dim,
                i <= n,
                forall|k: int| 0 <= k < item_start ==> self.items@[k] == orig[k],
                forall|k: int| 0 <= k < i ==> self.items@[item_start + k] == block@[k],
                forall|k: int| item_start + i <= k < orig.len() ==> self.items@[k] == orig[k],
            decreases n - i,
        {
            self.items.set(item_start + i, block[i]);
            i += 1;
        }
        assert(self.items@ == orig.subrange(0, item_start as int) + block@ + orig.subrange(
            item_start + n,
            orig.len() as int,
        ));
    }
}

} // verus!
