//! Succinct bitvector indices: a three-level rank index, a select query
//! driven by it, and a sparse array built on both.
use vstd::prelude::*;

pub mod bit_vec;
pub mod error;
pub mod rank_support;
pub mod select_support;
pub mod snapshot;
pub mod sparse_array;

pub use bit_vec::BitVec;
pub use error::BvError;
pub use rank_support::RankSupport;
pub use select_support::SelectSupport;
pub use sparse_array::SparseArray;


verus! {

/// The Fibonacci numbers starting `1, 1, 2, 3, ...`.
pub open spec fn fib(n: nat) -> nat
    decreases n,
{
    if n <= 1 {
        1
    } else {
        fib((n - 1) as nat) + fib((n - 2) as nat)
    }
}

/// The `n`-th Fibonacci number, counting `fibonacci(0) == fibonacci(1) == 1`.
pub fn fibonacci(n: u32) -> (r: u32)
    requires
        fib(n as nat) <= u32::MAX,
    ensures
        r == fib(n as nat),
    decreases n,
{
    if n <= 1 {
        1
    } else {
        fibonacci(n - 1) + fibonacci(n - 2)
    }
}

} // verus!
