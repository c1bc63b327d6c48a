//! Periodic linked-cell k-nearest neighbour search.
//!
//! The cell walk of Allen and Tildesley: points are binned on a mesh of
//! linked cells, each source expands Chebyshev shells of cells around its
//! own bin, and a bounded per-source heap keeps the `k` best candidates.
//! Distances are supplied by the caller as ordered integer keys, so that
//! the walk, the heap, the mesh arithmetic and the packed output layout are
//! all integer logic with contracts.

mod error;
pub mod kheap;
pub mod mesh;
pub mod shell;
pub mod links;
pub mod walk;
pub mod select;
pub mod packed;
pub mod pairs;
pub mod pair_laws;
pub mod search;
pub mod determinism;

pub use error::Error;
