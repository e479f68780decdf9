//! A HashLife engine: Conway's Game of Life on an effectively unbounded grid,
//! implemented as a quadtree of structurally shared ("hash-consed") nodes with
//! a memoized generation-doubling step.
//!
//! All nodes live in one append-only store owned by a [`Life`] engine; a node
//! is identified by its index in that store, and the store keeps at most one
//! node per distinct (level, four children) shape.  Node identity therefore
//! coincides with structural equality, which is what makes memoization sound.

use vstd::prelude::*;

pub mod boundary;
pub mod cells;
pub mod codec;
pub mod engine;
pub mod node;
pub mod rule;
pub mod succ;

pub use engine::Life;

pub use node::Node;
pub use node::DEAD;
pub use node::ALIVE;

verus! {

} // verus!
