//! An approximate-nearest-neighbor index over fixed-dimension integer
//! vectors: a forest of randomized space-partitioning binary trees queried
//! by squared Euclidean distance.

use vstd::prelude::*;

pub mod dedup;
pub mod hyperplane;
pub mod index;
pub mod rng;
pub mod sorting;
pub mod tree;
pub mod vector;

verus! {

/// The ways an index operation can fail.
#[derive(Clone, Copy, Debug, PartialEq, Eq, Structural)]
pub enum Error {
    /// A build or query input broke the interface contract: mixed
    /// dimensions, an empty point set, a non-positive tree count or leaf
    /// size, or a query of the wrong dimension.
    InvalidInput,
    /// A search was issued against an index that holds no points.
    EmptyIndex,
}

} // verus!
