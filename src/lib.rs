//! A packed attribute store for per-entity kinematic state.
//!
//! Entities live in eight-lane blocks, one sequence of blocks per
//! attribute; each scalar is kept as the bit pattern of an IEEE binary32
//! value. Slots are handed out in order and recycled through a free list,
//! single lanes are written without touching their neighbours, and the
//! integration step runs over the blocks in parallel.
use vstd::prelude::*;

pub mod index;
pub mod lanes;
pub mod block;
pub mod movement;

pub use index::Index;
pub use block::Block;
pub use movement::{InstanceRaw, Movement};

verus! {

} // verus!
