//! Sorting algorithms and square-matrix multiplication, with contracts that
//! state exactly what each function computes.

pub mod order;
pub mod quicksort;
pub mod mergesort;
pub mod distributed_sort;
pub mod random;
pub mod sorting;
pub mod matrix;
pub mod mxmul;
