//! Parallel reduction of a sequence of 64-bit integers.
//!
//! The library partitions an input sequence into contiguous, near-equal
//! slices (one per worker), sums each slice into a wide accumulator, and
//! combines the partial sums into a total.  Every function is specified
//! against the mathematical sum of the sequence, so the parallel total is
//! proved equal to the sequential one.  The thread fan-out itself lives
//! outside the library: a worker's job is the pure function `slice_sum`,
//! and the join step is `combine_partials`.

pub mod partition;
pub mod reduce;

pub use partition::make_slices;
pub use reduce::combine_partials;
pub use reduce::parallel_sum;
pub use reduce::sequential_sum;
pub use reduce::slice_sum;
