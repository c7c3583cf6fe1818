use parallel_labs::matrix::SquareMx;
use parallel_labs::mxmul::{
    assemble_rows, check_and_get_eq_dim, fill_result_chunk, row_ranges, sequential,
};

fn mx(items: Vec<u32>, dim: usize) -> SquareMx {
    SquareMx { items, dim }
}

#[test]
fn zeroes_square_is_all_zero() {
    let m = SquareMx::zeroes_square(3);
    assert_eq!(m.dim, 3);
    assert_eq!(m.items, vec![0; 9]);
    assert_eq!(SquareMx::zeroes_square(0).items.len(), 0);
}

#[test]
fn random_square_stays_in_range() {
    let m = SquareMx::random_square(6, 5, 8);
    assert_eq!(m.dim, 6);
    assert_eq!(m.items.len(), 36);
    assert!(m.items.iter().all(|&x| (5..8).contains(&x)));
    let wide = SquareMx::random_square(20, 0, 1_000_000);
    assert!(wide.items.iter().any(|&x| x != 0));
}

#[test]
fn transpose_swaps_rows_and_columns() {
    let m = mx(vec![1, 2, 3, 4, 5, 6, 7, 8, 9], 3);
    let t = m.get_transposed();
    assert_eq!(t.items, vec![1, 4, 7, 2, 5, 8, 3, 6, 9]);
    assert!(t.get_transposed() == m);
}

#[test]
fn row_slice_and_indexing() {
    let mut m = mx(vec![1, 2, 3, 4], 2);
    assert_eq!(m.get_row_slice(1), &[3, 4]);
    assert_eq!(*m.index((0, 1)), 2);
    *m.index_mut((1, 0)) = 30;
    assert_eq!(m.items, vec![1, 2, 30, 4]);
}

#[test]
fn text_form() {
    assert_eq!(mx(vec![1, 2, 3, 40], 2).to_string(), "[1,2;3,40]");
    assert_eq!(mx(vec![7], 1).to_string(), "[7]");
    assert_eq!(mx(vec![], 0).to_string(), "[]");
    assert_eq!(mx(vec![4294967295], 1).to_string(), "[4294967295]");
}

#[test]
fn equal_dimensions() {
    let a = mx(vec![0; 4], 2);
    let b = mx(vec![0; 9], 3);
    assert_eq!(check_and_get_eq_dim(&a, &a), Some(2));
    assert_eq!(check_and_get_eq_dim(&a, &b), None);
}

#[test]
fn product_example() {
    let a = mx(vec![1, 2, 3, 4], 2);
    let b = mx(vec![5, 6, 7, 8], 2);
    let p = sequential(&a, &b);
    assert_eq!(p.dim, 2);
    assert_eq!(p.items, vec![19, 22, 43, 50]);
}

#[test]
fn product_of_mismatched_is_empty() {
    let a = mx(vec![1, 2, 3, 4], 2);
    let b = mx(vec![1], 1);
    let p = sequential(&a, &b);
    assert_eq!(p.dim, 0);
    assert!(p.items.is_empty());
}

#[test]
fn fill_result_chunk_gives_rows_of_product() {
    let a = mx(vec![1, 2, 3, 4], 2);
    let bt = mx(vec![5, 6, 7, 8], 2).get_transposed();
    let mut first = Vec::new();
    fill_result_chunk(&a, &bt, 2, 0..1, &mut first);
    assert_eq!(first, vec![19, 22]);
    let mut second = vec![1];
    fill_result_chunk(&a, &bt, 2, 1..2, &mut second);
    assert_eq!(second, vec![1, 43, 50]);
    let mut none = Vec::new();
    fill_result_chunk(&a, &bt, 2, 1..1, &mut none);
    assert!(none.is_empty());
}

#[test]
fn row_ranges_share_rows_out() {
    let r = row_ranges(3000, 8);
    assert_eq!(r.len(), 8);
    assert_eq!(r[0], (0, 375));
    assert_eq!(r[7], (2625, 3000));
    assert_eq!(row_ranges(10, 3), vec![(0, 4), (4, 8), (8, 10)]);
    assert_eq!(row_ranges(2, 5), vec![(0, 1), (1, 2)]);
}

#[test]
fn row_blocks_agree_with_sequential() {
    let dim = 7;
    let a = mx((0..49).map(|x| x % 10).collect(), dim);
    let b = mx((0..49).map(|x| (x * 3) % 10).collect(), dim);
    let expected = sequential(&a, &b);
    let bt = b.get_transposed();
    let mut joined = Vec::new();
    for (s, e) in row_ranges(dim, 3) {
        fill_result_chunk(&a, &bt, dim, s..e, &mut joined);
    }
    assert!(mx(joined, dim) == expected);
}

#[test]
fn worker_rows_agree_with_full_rows() {
    let dim = 4;
    let a = mx((0..16).collect(), dim);
    let bt = mx((0..16).map(|x| x + 1).collect(), dim).get_transposed();
    let mut full = Vec::new();
    fill_result_chunk(&a, &bt, dim, 1..3, &mut full);
    let local = mx(a.items[dim..3 * dim].to_vec(), dim);
    let mut part = Vec::new();
    fill_result_chunk(&local, &bt, dim, 0..2, &mut part);
    assert_eq!(full, part);
}

#[test]
fn place_rows_writes_block_in_place() {
    let mut m = SquareMx::zeroes_square(3);
    m.place_rows(1, &[4, 5, 6, 7, 8, 9]);
    assert_eq!(m.items, vec![0, 0, 0, 4, 5, 6, 7, 8, 9]);
    m.place_rows(0, &[1, 2]);
    assert_eq!(m.items, vec![1, 2, 0, 4, 5, 6, 7, 8, 9]);
    m.place_rows(2, &[]);
    assert_eq!(m.dim, 3);
}

#[test]
fn placed_row_blocks_form_product() {
    let dim = 5;
    let a = mx((0..25).map(|x| x % 7).collect(), dim);
    let b = mx((0..25).map(|x| (x * 5) % 9).collect(), dim);
    let expected = sequential(&a, &b);
    let bt = b.get_transposed();
    let mut result = SquareMx::zeroes_square(dim);
    for (s, e) in row_ranges(dim, 2).into_iter().rev() {
        let mut block = Vec::new();
        fill_result_chunk(&a, &bt, dim, s..e, &mut block);
        result.place_rows(s, &block);
    }
    assert!(result == expected);
}

#[test]
fn assembled_row_blocks_form_product() {
    let dim = 6;
    let a = mx((0..36).map(|x| x % 5).collect(), dim);
    let b = mx((0..36).map(|x| (x * 7) % 11).collect(), dim);
    let expected = sequential(&a, &b);
    let bt = b.get_transposed();
    let ranges = row_ranges(dim, 4);
    let blocks: Vec<Vec<u32>> = ranges
        .iter()
        .map(|&(s, e)| {
            let mut block = Vec::new();
            fill_result_chunk(&a, &bt, dim, s..e, &mut block);
            block
        })
        .collect();
    let assembled = assemble_rows(dim, &ranges, &blocks);
    assert!(assembled == expected);
}

#[test]
fn assemble_rows_joins_blocks() {
    let m = assemble_rows(2, &vec![(0, 1), (1, 2)], &vec![vec![1, 2], vec![3, 4]]);
    assert_eq!(m.dim, 2);
    assert_eq!(m.items, vec![1, 2, 3, 4]);
}
