//! Small computational kernels that accompany a book on CPU and GPU performance
//! in Rust, each stated and proved with Verus.

pub mod arith;
pub mod branch;
pub mod collatz;
pub mod cycles;
pub mod data;
pub mod dispatch;
pub mod hashing;
pub mod lists;
pub mod lookup;
pub mod rng;
pub mod sums;
pub mod transpose;
pub mod tree_lookup;
pub mod words;
