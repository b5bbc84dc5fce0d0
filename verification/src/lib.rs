//! Counting Hamiltonian paths that start at vertex 0 of a small directed
//! graph (at most 31 vertices), modulo several fixed moduli and modulo the
//! native `u64` width, by inclusion–exclusion over vertex-exclusion masks:
//! for every subset of excluded vertices a short dynamic-programming
//! recurrence counts restricted walks, and the per-subset counts are folded
//! together with alternating signs.  Subsets are processed in fixed-width
//! lane batches, sequentially or distributed over a worker pool.

pub mod arith;
pub mod counter;
pub mod graph;
pub mod laws;
