//! Slot addressing: an entity is found by its block and its lane.
use vstd::prelude::*;

verus! {

/// Number of lanes in one packed block.
pub const LANES: usize = 8;

/// Where one entity's data lives: lane `scalar` of block `vector`.
#[derive(Debug, Default, Copy, Clone, PartialEq, Eq, Structural)]
pub struct Index {
    pub vector: usize,
    pub scalar: usize,
}

impl Index {
    /// An index names a lane of a block.
    pub open spec fn wf(self) -> bool {
        self.scalar < LANES
    }

    /// Position of the slot in block-major, lane-minor order.
    pub open spec fn flat(self) -> int {
        self.vector * LANES + self.scalar
    }

    /// The slot at a flat position.
    pub open spec fn at_flat(i: nat) -> Index {
        Index { vector: (i / LANES as nat) as usize, scalar: (i % LANES as nat) as usize }
    }

    /// The slot that follows this one in block-major, lane-minor order.
    pub open spec fn successor(self) -> Index {
        if self.scalar + 1 == LANES {
            Index { vector: (self.vector + 1) as usize, scalar: 0 }
        } else {
            Index { vector: self.vector, scalar: (self.scalar + 1) as usize }
        }
    }
}

/// The flat position of a slot leads back to the slot.
pub proof fn lemma_flat_round_trip(i: Index)
    requires
        i.wf(),
    ensures
        i.flat() >= 0,
        Index::at_flat(i.flat() as nat) == i,
{
    let n = i.flat() as nat;
    assert(n / 8 == i.vector as nat && n % 8 == i.scalar as nat) by (nonlinear_arith)
        requires n == i.vector * 8 + i.scalar, i.scalar < 8;
}

/// The slot after a slot is one flat position further on.
pub proof fn lemma_successor_flat(i: Index)
    requires
        i.wf(),
        i.scalar + 1 < LANES || i.vector < usize::MAX,
    ensures
        i.successor().wf(),
        i.successor().flat() == i.flat() + 1,
{
}

} // verus!
