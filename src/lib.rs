//! Incremental prime enumeration with a segmented Sieve of Eratosthenes.
//!
//! The number line is sieved window by window ("batches"); every window after
//! the first is sieved with the primes found in the windows before it.

use vstd::prelude::*;

pub mod arith;
pub mod batch;
pub mod iter;
pub mod sieve;

pub use iter::PrimesIterator;
pub use sieve::{Primes, BATCH_SIZE};
