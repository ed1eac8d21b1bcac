//! The attribute store: a spatial attribute (a transform or a position),
//! a velocity and an acceleration per entity, packed eight entities to a
//! block, with a free list of released slots.
use vstd::prelude::*;
use crate::block::{Block, lane_of, with_lane, zero_block, advanced, advanced_each, advance_post, lane_stepped, lanes_stepped, par_advance};
use crate::lanes::is_finite_bits;
use crate::index::{Index, LANES, lemma_flat_round_trip, lemma_successor_flat};

verus! {

/// Components of a 4x4 transform, column-major: cell `4 * c + r` holds row
/// `r` of column `c`.
pub const TRANSFORM_WIDTH: usize = 16;

/// The translation of a transform: rows 0..3 of column 3.
pub const TRANSFORM_TRANSLATION: usize = 12;

/// Components of a position, a velocity or an acceleration.
pub const VECTOR_WIDTH: usize = 3;

/// The block views of a sequence of blocks.
pub open spec fn views(bs: Seq<Block>) -> Seq<Seq<Seq<u32>>> {
    Seq::new(bs.len(), |b: int| bs[b]@)
}

/// What slot `i` holds in a sequence of block views.
pub open spec fn slot_of(bs: Seq<Seq<Seq<u32>>>, i: Index) -> Seq<u32> {
    lane_of(bs[i.vector as int], i.scalar as int)
}

/// `n` components of `+0.0`.
pub open spec fn zeros(n: nat) -> Seq<u32> {
    Seq::new(n, |k: int| 0u32)
}

/// Every block of the sequence has `n` components.
pub open spec fn all_width(bs: Seq<Block>, n: nat) -> bool {
    forall|b: int| 0 <= b < bs.len() ==> (#[trigger] bs[b])@.len() == n
}

/// `q` is slot `p` stepped over `dt`: components `offset .. offset + 3`
/// each stepped by the matching velocity component, the others kept.
pub open spec fn slot_stepped(p: Seq<u32>, v: Seq<u32>, offset: int, dt: u32, q: Seq<u32>) -> bool {
    &&& q.len() == p.len()
    &&& forall|k: int| 0 <= k < p.len() && offset <= k < offset + 3 ==> lane_stepped(p[k], v[k - offset], dt, #[trigger] q[k])
    &&& forall|k: int| 0 <= k < p.len() && !(offset <= k < offset + 3) ==> #[trigger] q[k] == p[k]
}

/// Every component of every block has eight lanes.
pub proof fn lemma_views_shaped(bs: Seq<Block>)
    ensures
        forall|b: int, k: int| 0 <= b < bs.len() && 0 <= k < views(bs)[b].len() ==> (#[trigger] views(bs)[b][k]).len() == 8,
{
    assert forall|b: int, k: int| 0 <= b < bs.len() && 0 <= k < views(bs)[b].len() implies (#[trigger] views(bs)[b][k]).len() == 8 by {
        assert(views(bs)[b][k] == bs[b].comps@[k]@);
    }
}

/// Writing slot `i` leaves every other slot as it was.
pub proof fn lemma_slot_frame(bs: Seq<Block>, i: Index, vals: Seq<u32>, j: Index)
    requires
        i.wf(),
        j.wf(),
        i != j,
        i.vector < bs.len(),
        j.vector < bs.len(),
    ensures
        slot_of(written(views(bs), i, vals), j) == slot_of(views(bs), j),
{
    lemma_views_shaped(bs);
    assert(slot_of(written(views(bs), i, vals), j) =~= slot_of(views(bs), j));
}

/// Writing and growing keep the width of every block.
pub proof fn lemma_written_width(bs: Seq<Block>, after: Seq<Block>, n: nat, grows: bool, i: Index, vals: Seq<u32>)
    requires
        all_width(bs, n),
        vals.len() == n,
        i.vector < grow(views(bs), n, grows).len(),
        views(after) == written(grow(views(bs), n, grows), i, vals),
    ensures
        all_width(after, n),
{
    let grown = grow(views(bs), n, grows);
    assert(after.len() == grown.len()) by {
        assert(views(after).len() == after.len());
    }
    assert forall|b: int| 0 <= b < after.len() implies (#[trigger] after[b])@.len() == n by {
        assert(views(after)[b] == after[b]@);
        if b < bs.len() {
            assert(views(bs)[b] == bs[b]@);
            assert(grown[b] == bs[b]@);
        } else {
            assert(grown[b] == zero_block(n));
        }
        assert(grown[b].len() == n);
        if b == i.vector {
            assert(with_lane(grown[b], i.scalar as int, vals).len() == n);
        }
    }
}

/// One slot of the spatial attribute, as handed to a renderer.
#[derive(Debug, Clone)]
pub struct InstanceRaw {
    pub model: Vec<u32>,
}

/// The store. Block `b` of each attribute holds the slots `(b, 0) .. (b, 7)`.
#[derive(Debug)]
pub struct Movement {
    /// The spatial attribute: transforms or positions.
    pub transform: Vec<Block>,
    /// Velocity: three components per slot.
    pub velocity: Vec<Block>,
    /// Acceleration: three components per slot, kept by `push`; no
    /// integration rule reads it, so `calculate` leaves it alone.
    pub accel: Vec<Block>,
    /// The slot that the next push takes when no slot is free.
    pub next_index: Index,
    /// Released slots, the most recently released last.
    pub dead_indices: Vec<Index>,
    /// Components of the spatial attribute.
    pub spatial: usize,
    /// First of the three spatial components that velocity advances.
    pub translation: usize,
}

/// A sequence of block views with `vals` in slot `i`: every other slot
/// is kept.
pub open spec fn written(bs: Seq<Seq<Seq<u32>>>, i: Index, vals: Seq<u32>) -> Seq<Seq<Seq<u32>>> {
    bs.update(i.vector as int, with_lane(bs[i.vector as int], i.scalar as int, vals))
}

/// A sequence of block views with one zero block of `n` components
/// appended when `grows` holds.
pub open spec fn grow(bs: Seq<Seq<Seq<u32>>>, n: nat, grows: bool) -> Seq<Seq<Seq<u32>>> {
    if grows {
        bs.push(zero_block(n))
    } else {
        bs
    }
}

/// `release(i)` took `s` to `t`.
pub open spec fn released(s: Movement, i: Index, t: Movement) -> bool {
    &&& t.dead_indices@ == s.dead_indices@.push(i)
    &&& t.next_index == s.next_index
    &&& t.spatial == s.spatial
    &&& t.translation == s.translation
    &&& t.spatial_view() == s.spatial_view()
    &&& t.velocity_view() == s.velocity_view()
    &&& t.accel_view() == s.accel_view()
}

/// `push(pos, vel, acc)` took `s` to `t` and returned `r`: `r` is the most
/// recently released slot if there is one, else the cursor, which then
/// moves on (adding a zero block to each attribute when it leaves a
/// block); slot `r` then holds the three values and no other slot changes.
pub open spec fn pushed(s: Movement, pos: Seq<u32>, vel: Seq<u32>, acc: Seq<u32>, t: Movement, r: Index) -> bool {
    &&& t.spatial == s.spatial
    &&& t.translation == s.translation
    &&& if s.dead_indices@.len() > 0 {
        &&& r == s.dead_indices@.last()
        &&& t.dead_indices@ == s.dead_indices@.drop_last()
        &&& t.next_index == s.next_index
    } else {
        &&& r == s.next_index
        &&& t.dead_indices@ == s.dead_indices@
        &&& t.next_index == s.next_index.successor()
    }
    &&& t.spatial_view() == written(grow(s.spatial_view(), s.spatial as nat, s.grows()), r, pos)
    &&& t.velocity_view() == written(grow(s.velocity_view(), VECTOR_WIDTH as nat, s.grows()), r, vel)
    &&& t.accel_view() == written(grow(s.accel_view(), VECTOR_WIDTH as nat, s.grows()), r, acc)
}

/// Clears slot `i` of `blocks`, then writes `vals` into it.
fn write_slot(blocks: &mut Vec<Block>, i: Index, vals: &[u32])
    requires
        i.wf(),
        i.vector < old(blocks)@.len(),
        vals@.len() == old(blocks)@[i.vector as int]@.len(),
    ensures
        final(blocks)@.len() == old(blocks)@.len(),
        views(final(blocks)@) == written(views(old(blocks)@), i, vals@),
{
    let ghost before = old(blocks)@[i.vector as int]@;
    blocks[i.vector].clear_lane(i.scalar);
    blocks[i.vector].write_lane(i.scalar, vals);
    proof {
        let cleared = with_lane(before, i.scalar as int, zeros(before.len()));
        let after = with_lane(cleared, i.scalar as int, vals@);
        assert forall|k: int| 0 <= k < before.len() implies after[k] == before[k].update(i.scalar as int, vals@[k]) by {
            assert(after[k] =~= before[k].update(i.scalar as int, vals@[k]));
        }
        assert(after =~= with_lane(before, i.scalar as int, vals@));
        assert(views(blocks@) =~= written(views(old(blocks)@), i, vals@));
    }
}

impl Movement {
    /// Number of blocks in each attribute.
    pub open spec fn block_count(self) -> nat {
        self.transform@.len()
    }

    /// The spatial blocks, each as components of eight lanes.
    pub open spec fn spatial_view(self) -> Seq<Seq<Seq<u32>>> {
        views(self.transform@)
    }

    /// The velocity blocks, each as components of eight lanes.
    pub open spec fn velocity_view(self) -> Seq<Seq<Seq<u32>>> {
        views(self.velocity@)
    }

    /// The acceleration blocks, each as components of eight lanes.
    pub open spec fn accel_view(self) -> Seq<Seq<Seq<u32>>> {
        views(self.accel@)
    }

    /// A push from this state adds a block: no slot is free and the cursor
    /// is on the last lane of its block.
    pub open spec fn grows(self) -> bool {
        self.dead_indices@.len() == 0 && self.next_index.scalar + 1 == LANES
    }

    /// Slot `i` has been handed out by a push.
    pub open spec fn issued(self, i: Index) -> bool {
        i.wf() && i.flat() < self.next_index.flat()
    }

    /// Slot `i` lies in an existing block and has not been handed out yet.
    pub open spec fn unissued(self, i: Index) -> bool {
        i.wf() && i.vector < self.block_count() && i.flat() >= self.next_index.flat()
    }

    /// Every slot not handed out yet holds `+0.0` in all three attributes.
    pub open spec fn unwritten_zero(self) -> bool {
        forall|i: Index|
            #[trigger] self.unissued(i) ==> {
                &&& slot_of(self.spatial_view(), i) == zeros(self.spatial as nat)
                &&& slot_of(self.velocity_view(), i) == zeros(VECTOR_WIDTH as nat)
                &&& slot_of(self.accel_view(), i) == zeros(VECTOR_WIDTH as nat)
            }
    }

    /// Slot `i` has been handed out and not released since.
    pub open spec fn live(self, i: Index) -> bool {
        self.issued(i) && !self.dead_indices@.contains(i)
    }

    /// The attributes have one block per block the cursor has reached, of
    /// the right widths; the free list holds distinct slots already handed
    /// out.
    pub open spec fn wf(self) -> bool {
        &&& self.translation + VECTOR_WIDTH <= self.spatial
        &&& self.next_index.wf()
        &&& self.transform@.len() == self.next_index.vector + 1
        &&& self.velocity@.len() == self.transform@.len()
        &&& self.accel@.len() == self.transform@.len()
        &&& all_width(self.transform@, self.spatial as nat)
        &&& all_width(self.velocity@, VECTOR_WIDTH as nat)
        &&& all_width(self.accel@, VECTOR_WIDTH as nat)
        &&& forall|k: int| 0 <= k < self.dead_indices@.len() ==> self.issued(#[trigger] self.dead_indices@[k])
        &&& self.dead_indices@.no_duplicates()
    }

    /// A store whose spatial attribute has `spatial` components, of which
    /// `translation .. translation + 3` move with velocity.
    fn with_layout(size: usize, spatial: usize, translation: usize) -> (r: Movement)
        requires
            translation + VECTOR_WIDTH <= spatial,
        ensures
            r.wf(),
            r.spatial == spatial,
            r.translation == translation,
            r.next_index == (Index { vector: 0, scalar: 0 }),
            r.dead_indices@.len() == 0,
            r.unwritten_zero(),
            r.spatial_view() == seq![zero_block(spatial as nat)],
            r.velocity_view() == seq![zero_block(VECTOR_WIDTH as nat)],
            r.accel_view() == seq![zero_block(VECTOR_WIDTH as nat)],
    {
        let mut transform: Vec<Block> = Vec::with_capacity(size);
        transform.push(Block::zeroed(spatial));
        let mut velocity: Vec<Block> = Vec::with_capacity(size);
        velocity.push(Block::zeroed(VECTOR_WIDTH));
        let mut accel: Vec<Block> = Vec::with_capacity(size);
        accel.push(Block::zeroed(VECTOR_WIDTH));
        let r = Movement {
            transform,
            velocity,
            accel,
            next_index: Index { vector: 0, scalar: 0 },
            dead_indices: Vec::new(),
            spatial,
            translation,
        };
        assert(r.spatial_view() =~= seq![zero_block(spatial as nat)]);
        assert(r.velocity_view() =~= seq![zero_block(VECTOR_WIDTH as nat)]);
        assert(r.accel_view() =~= seq![zero_block(VECTOR_WIDTH as nat)]);
        assert forall|i: Index| #[trigger] r.unissued(i) implies {
            &&& slot_of(r.spatial_view(), i) == zeros(r.spatial as nat)
            &&& slot_of(r.velocity_view(), i) == zeros(VECTOR_WIDTH as nat)
            &&& slot_of(r.accel_view(), i) == zeros(VECTOR_WIDTH as nat)
        } by {
            assert(slot_of(r.spatial_view(), i) =~= zeros(r.spatial as nat));
            assert(slot_of(r.velocity_view(), i) =~= zeros(VECTOR_WIDTH as nat));
            assert(slot_of(r.accel_view(), i) =~= zeros(VECTOR_WIDTH as nat));
        }
        r
    }

    /// A store of 4x4 transforms; velocity moves the translation. `size` is
    /// the number of blocks to reserve room for; the store starts with one
    /// zero block whatever it is.
    pub fn new(size: usize) -> (r: Movement)
        ensures
            r.wf(),
            r.spatial == TRANSFORM_WIDTH,
            r.translation == TRANSFORM_TRANSLATION,
            r.next_index == (Index { vector: 0, scalar: 0 }),
            r.dead_indices@.len() == 0,
            r.unwritten_zero(),
            r.spatial_view() == seq![zero_block(TRANSFORM_WIDTH as nat)],
            r.velocity_view() == seq![zero_block(VECTOR_WIDTH as nat)],
            r.accel_view() == seq![zero_block(VECTOR_WIDTH as nat)],
    {
        Movement::with_layout(size, TRANSFORM_WIDTH, TRANSFORM_TRANSLATION)
    }

    /// A store of positions; velocity moves the whole position. `size` is
    /// the number of blocks to reserve room for; the store starts with one
    /// zero block whatever it is.
    pub fn new_positions(size: usize) -> (r: Movement)
        ensures
            r.wf(),
            r.spatial == VECTOR_WIDTH,
            r.translation == 0,
            r.next_index == (Index { vector: 0, scalar: 0 }),
            r.dead_indices@.len() == 0,
            r.unwritten_zero(),
            r.spatial_view() == seq![zero_block(VECTOR_WIDTH as nat)],
            r.velocity_view() == seq![zero_block(VECTOR_WIDTH as nat)],
            r.accel_view() == seq![zero_block(VECTOR_WIDTH as nat)],
    {
        Movement::with_layout(size, VECTOR_WIDTH, 0)
    }

    /// Moves the cursor to the next slot, adding a zero block to every
    /// attribute when it leaves its block.
    fn increment(&mut self)
        requires
            old(self).next_index.wf(),
            old(self).transform@.len() == old(self).next_index.vector + 1,
            old(self).velocity@.len() == old(self).transform@.len(),
            old(self).accel@.len() == old(self).transform@.len(),
        ensures
            final(self).next_index == old(self).next_index.successor(),
            final(self).next_index.flat() == old(self).next_index.flat() + 1,
            final(self).dead_indices == old(self).dead_indices,
            final(self).spatial == old(self).spatial,
            final(self).translation == old(self).translation,
            final(self).spatial_view() == grow(old(self).spatial_view(), old(self).spatial as nat, old(self).next_index.scalar + 1 == LANES),
            final(self).velocity_view() == grow(old(self).velocity_view(), VECTOR_WIDTH as nat, old(self).next_index.scalar + 1 == LANES),
            final(self).accel_view() == grow(old(self).accel_view(), VECTOR_WIDTH as nat, old(self).next_index.scalar + 1 == LANES),
    {
        if self.next_index.scalar == LANES - 1 {
            let blocks = self.transform.len();
            self.next_index.vector = blocks;
            self.next_index.scalar = 0;
            self.transform.push(Block::zeroed(self.spatial));
            self.velocity.push(Block::zeroed(VECTOR_WIDTH));
            self.accel.push(Block::zeroed(VECTOR_WIDTH));
            assert(self.spatial_view() =~= old(self).spatial_view().push(zero_block(old(self).spatial as nat)));
            assert(self.velocity_view() =~= old(self).velocity_view().push(zero_block(VECTOR_WIDTH as nat)));
            assert(self.accel_view() =~= old(self).accel_view().push(zero_block(VECTOR_WIDTH as nat)));
        } else {
            self.next_index.scalar = self.next_index.scalar + 1;
        }
    }

    /// Stores one entity and returns its slot: the most recently released
    /// slot if there is one, else the cursor's slot. The slot is cleared
    /// and then written; no other slot changes.
    pub fn push(&mut self, transform: &[u32], velocity: &[u32], accel: &[u32]) -> (r: Index)
        requires
            old(self).wf(),
            transform@.len() == old(self).spatial,
            velocity@.len() == VECTOR_WIDTH,
            accel@.len() == VECTOR_WIDTH,
        ensures
            final(self).wf(),
            pushed(*old(self), transform@, velocity@, accel@, *final(self), r),
            final(self).live(r),
            final(self).block_count() == old(self).block_count() + if old(self).grows() { 1nat } else { 0nat },
            old(self).unwritten_zero() ==> final(self).unwritten_zero(),
    {
        let ghost s0 = *self;
        let r = match self.dead_indices.pop() {
            Some(index) => {
                proof {
                    let d = s0.dead_indices@;
                    assert(d[d.len() - 1] == index);
                    assert(s0.issued(d[d.len() - 1]));
                    assert forall|k: int| 0 <= k < self.dead_indices@.len() implies self.issued(#[trigger] self.dead_indices@[k]) by {
                        assert(self.dead_indices@[k] == d[k]);
                    }
                    assert(!self.dead_indices@.contains(index)) by {
                        if self.dead_indices@.contains(index) {
                            let k = choose|k: int| 0 <= k < self.dead_indices@.len() && self.dead_indices@[k] == index;
                            assert(d[k] == d[d.len() - 1]);
                        }
                    }
                }
                write_slot(&mut self.transform, index, transform);
                write_slot(&mut self.velocity, index, velocity);
                write_slot(&mut self.accel, index, accel);
                proof {
                    assert(self.dead_indices@ =~= s0.dead_indices@.drop_last());
                }
                index
            },
            None => {
                let index = self.next_index;
                write_slot(&mut self.transform, index, transform);
                write_slot(&mut self.velocity, index, velocity);
                write_slot(&mut self.accel, index, accel);
                self.increment();
                proof {
                    let g = s0.grows();
                    assert(self.spatial_view() =~= written(grow(s0.spatial_view(), s0.spatial as nat, g), index, transform@));
                    assert(self.velocity_view() =~= written(grow(s0.velocity_view(), VECTOR_WIDTH as nat, g), index, velocity@));
                    assert(self.accel_view() =~= written(grow(s0.accel_view(), VECTOR_WIDTH as nat, g), index, accel@));
                }
                index
            },
        };
        proof {
            let g = s0.grows();
            lemma_written_width(s0.transform@, self.transform@, s0.spatial as nat, g, r, transform@);
            lemma_written_width(s0.velocity@, self.velocity@, VECTOR_WIDTH as nat, g, r, velocity@);
            lemma_written_width(s0.accel@, self.accel@, VECTOR_WIDTH as nat, g, r, accel@);
            if s0.unwritten_zero() {
                assert forall|i: Index| #[trigger] self.unissued(i) implies {
                    &&& slot_of(self.spatial_view(), i) == zeros(self.spatial as nat)
                    &&& slot_of(self.velocity_view(), i) == zeros(VECTOR_WIDTH as nat)
                    &&& slot_of(self.accel_view(), i) == zeros(VECTOR_WIDTH as nat)
                } by {
                    assert(i != r);
                    if i.vector < s0.block_count() {
                        assert(s0.unissued(i));
                        lemma_slot_frame(s0.transform@, r, transform@, i);
                        lemma_slot_frame(s0.velocity@, r, velocity@, i);
                        lemma_slot_frame(s0.accel@, r, accel@, i);
                        assert(slot_of(self.spatial_view(), i) =~= slot_of(written(s0.spatial_view(), r, transform@), i));
                        assert(slot_of(self.velocity_view(), i) =~= slot_of(written(s0.velocity_view(), r, velocity@), i));
                        assert(slot_of(self.accel_view(), i) =~= slot_of(written(s0.accel_view(), r, accel@), i));
                    } else {
                        assert(g);
                        assert(i.vector == s0.block_count());
                        assert(slot_of(self.spatial_view(), i) =~= zeros(self.spatial as nat));
                        assert(slot_of(self.velocity_view(), i) =~= zeros(VECTOR_WIDTH as nat));
                        assert(slot_of(self.accel_view(), i) =~= zeros(VECTOR_WIDTH as nat));
                    }
                }
            }
        }
        r
    }

    /// Whether `index` was handed out by a push and not released since.
    pub fn is_live(&self, index: Index) -> (r: bool)
        requires
            self.wf(),
        ensures
            r == self.live(index),
    {
        let next = self.next_index;
        let issued = index.scalar < LANES && (index.vector < next.vector || (index.vector == next.vector
            && index.scalar < next.scalar));
        if !issued {
            return false;
        }
        let n = self.dead_indices.len();
        let mut k: usize = 0;
        while k < n
            invariant
                k <= n,
                n == self.dead_indices@.len(),
                forall|j: int| 0 <= j < k ==> self.dead_indices@[j] != index,
            decreases n - k,
        {
            if self.dead_indices[k] == index {
                return false;
            }
            k = k + 1;
        }
        true
    }

    /// Hands a live slot back: the next push reuses it before any slot
    /// that has not been handed out yet. Nothing stored changes.
    pub fn release(&mut self, index: Index)
        requires
            old(self).wf(),
            old(self).live(index),
        ensures
            final(self).wf(),
            released(*old(self), index, *final(self)),
            old(self).unwritten_zero() ==> final(self).unwritten_zero(),
    {
        self.dead_indices.push(index);
        proof {
            let d = self.dead_indices@;
            assert forall|a: int, b: int| 0 <= a < d.len() && 0 <= b < d.len() && a != b implies d[a] != d[b] by {
                if a == d.len() - 1 {
                    assert(old(self).dead_indices@[b] == d[b]);
                } else if b == d.len() - 1 {
                    assert(old(self).dead_indices@[a] == d[a]);
                } else {
                    assert(old(self).dead_indices@[a] == d[a]);
                    assert(old(self).dead_indices@[b] == d[b]);
                }
            }
            assert forall|k: int| 0 <= k < d.len() implies self.issued(#[trigger] d[k]) by {
                if k < d.len() - 1 {
                    assert(old(self).dead_indices@[k] == d[k]);
                }
            }
            if old(self).unwritten_zero() {
                assert forall|i: Index| #[trigger] self.unissued(i) implies {
                    &&& slot_of(self.spatial_view(), i) == zeros(self.spatial as nat)
                    &&& slot_of(self.velocity_view(), i) == zeros(VECTOR_WIDTH as nat)
                    &&& slot_of(self.accel_view(), i) == zeros(VECTOR_WIDTH as nat)
                } by {
                    assert(old(self).unissued(i));
                }
            }
        }
    }

    /// Advances every entity by one step of `timestep` (the bit pattern of
    /// a binary32 value): the three spatial components from `translation`
    /// on become `p + v * timestep`, lane by lane, or a NaN where that sum
    /// or product is one; nothing else changes. The blocks are advanced in
    /// parallel. Under a finite timestep, slots not handed out yet stay
    /// zero; under an infinite one they become NaNs (`0 * inf`).
    pub fn calculate(&mut self, timestep: u32)
        requires
            old(self).wf(),
        ensures
            final(self).wf(),
            final(self).next_index == old(self).next_index,
            final(self).dead_indices@ == old(self).dead_indices@,
            final(self).spatial == old(self).spatial,
            final(self).translation == old(self).translation,
            final(self).velocity_view() == old(self).velocity_view(),
            final(self).accel_view() == old(self).accel_view(),
            advanced_each(
                old(self).spatial_view(),
                old(self).velocity_view(),
                old(self).translation as int,
                timestep,
                final(self).spatial_view(),
            ),
            forall|i: Index|
                i.wf() && i.vector < old(self).block_count() ==> slot_stepped(
                    slot_of(old(self).spatial_view(), i),
                    slot_of(old(self).velocity_view(), i),
                    old(self).translation as int,
                    timestep,
                    #[trigger] slot_of(final(self).spatial_view(), i),
                ),
            is_finite_bits(timestep) ==> forall|i: Index|
                i.wf() && i.vector < old(self).block_count() && slot_of(old(self).spatial_view(), i) == zeros(
                    old(self).spatial as nat,
                ) && slot_of(old(self).velocity_view(), i) == zeros(VECTOR_WIDTH as nat)
                    ==> #[trigger] slot_of(final(self).spatial_view(), i) == zeros(old(self).spatial as nat),
            is_finite_bits(timestep) && old(self).unwritten_zero() ==> final(self).unwritten_zero(),
    {
        par_advance(&mut self.transform, &self.velocity, self.translation, timestep);
        proof {
            let n = old(self).block_count();
            let tr = old(self).translation as int;
            assert forall|b: int| 0 <= b < n implies advanced(
                old(self).spatial_view()[b],
                old(self).velocity_view()[b],
                tr,
                timestep,
                #[trigger] self.spatial_view()[b],
            ) by {
                assert(advance_post(old(self).transform@[b]@, self.velocity@[b]@, tr, timestep, self.transform@[b]@));
            }
            assert forall|b: int| 0 <= b < self.transform@.len() implies (#[trigger] self.transform@[b])@.len() == self.spatial by {
                assert(advance_post(old(self).transform@[b]@, self.velocity@[b]@, tr, timestep, self.transform@[b]@));
            }
            lemma_views_shaped(old(self).transform@);
            lemma_views_shaped(old(self).velocity@);
            assert forall|i: Index| i.wf() && i.vector < n implies slot_stepped(
                slot_of(old(self).spatial_view(), i),
                slot_of(old(self).velocity_view(), i),
                tr,
                timestep,
                #[trigger] slot_of(self.spatial_view(), i),
            ) by {
                let b = i.vector as int;
                let l = i.scalar as int;
                let p = old(self).spatial_view()[b];
                let v = old(self).velocity_view()[b];
                let q = self.spatial_view()[b];
                assert(advanced(p, v, tr, timestep, q));
                assert(v.len() == 3);
                assert forall|k: int| 0 <= k < p.len() && tr <= k < tr + 3 implies lane_stepped(
                    slot_of(old(self).spatial_view(), i)[k],
                    slot_of(old(self).velocity_view(), i)[k - tr],
                    timestep,
                    #[trigger] slot_of(self.spatial_view(), i)[k],
                ) by {
                    assert(lanes_stepped(p[k], v[k - tr], timestep, q[k]));
                }
                assert forall|k: int| 0 <= k < p.len() && !(tr <= k < tr + 3) implies #[trigger] slot_of(self.spatial_view(), i)[k]
                    == slot_of(old(self).spatial_view(), i)[k] by {
                    assert(q[k] == p[k]);
                }
            }
            if is_finite_bits(timestep) {
                assert forall|i: Index|
                    i.wf() && i.vector < n && slot_of(old(self).spatial_view(), i) == zeros(old(self).spatial as nat)
                        && slot_of(old(self).velocity_view(), i) == zeros(VECTOR_WIDTH as nat)
                    implies #[trigger] slot_of(self.spatial_view(), i) == zeros(old(self).spatial as nat) by {
                    let b = i.vector as int;
                    let l = i.scalar as int;
                    assert(advance_post(old(self).transform@[b]@, self.velocity@[b]@, tr, timestep, self.transform@[b]@));
                    assert forall|k: int| 0 <= k < old(self).spatial as int implies #[trigger] slot_of(self.spatial_view(), i)[k] == 0u32 by {
                        assert(slot_of(old(self).spatial_view(), i)[k] == 0u32);
                        if tr <= k < tr + 3 {
                            assert(slot_of(old(self).velocity_view(), i)[k - tr] == 0u32);
                            assert(self.transform@[b]@[k][l] == 0u32);
                        } else {
                            assert(self.transform@[b]@[k] == old(self).transform@[b]@[k]);
                        }
                    }
                    assert(slot_of(self.spatial_view(), i) =~= zeros(old(self).spatial as nat));
                }
                if old(self).unwritten_zero() {
                    assert forall|i: Index| #[trigger] self.unissued(i) implies {
                        &&& slot_of(self.spatial_view(), i) == zeros(self.spatial as nat)
                        &&& slot_of(self.velocity_view(), i) == zeros(VECTOR_WIDTH as nat)
                        &&& slot_of(self.accel_view(), i) == zeros(VECTOR_WIDTH as nat)
                    } by {
                        assert(old(self).unissued(i));
                    }
                }
            }
        }
    }

    /// One matrix (or position) per slot, in slot order: entry `i` is what
    /// slot `(i / 8, i % 8)` holds, written or not.
    pub fn export_raw(&self) -> (r: Vec<InstanceRaw>)
        requires
            self.wf(),
        ensures
            r@.len() == self.block_count() * LANES,
            forall|i: int| 0 <= i < r@.len() ==> (#[trigger] r@[i]).model@ == slot_of(self.spatial_view(), Index::at_flat(i as nat)),
            self.unwritten_zero() ==> forall|i: int|
                self.next_index.flat() <= i < r@.len() ==> (#[trigger] r@[i]).model@ == zeros(self.spatial as nat),
    {
        let mut r: Vec<InstanceRaw> = Vec::new();
        let blocks = self.transform.len();
        let mut b: usize = 0;
        while b < blocks
            invariant
                b <= blocks,
                blocks == self.block_count(),
                r@.len() == b * LANES,
                forall|i: int| 0 <= i < r@.len() ==> (#[trigger] r@[i]).model@ == slot_of(self.spatial_view(), Index::at_flat(i as nat)),
            decreases blocks - b,
        {
            let mut l: usize = 0;
            while l < LANES
                invariant
                    b < blocks,
                    l <= LANES,
                    blocks == self.block_count(),
                    r@.len() == b * LANES + l,
                    forall|i: int| 0 <= i < r@.len() ==> (#[trigger] r@[i]).model@ == slot_of(self.spatial_view(), Index::at_flat(i as nat)),
                decreases LANES - l,
            {
                let model = self.transform[b].read_lane(l);
                let ghost i = r@.len() as int;
                r.push(InstanceRaw { model });
                proof {
                    assert((i as nat) / (LANES as nat) == b as nat && (i as nat) % (LANES as nat) == l as nat) by (nonlinear_arith)
                        requires i == b * 8 + l, l < 8, b >= 0;
                    assert(self.spatial_view()[b as int] == self.transform@[b as int]@);
                    assert(r@[i].model@ == slot_of(self.spatial_view(), Index::at_flat(i as nat)));
                }
                l = l + 1;
            }
            b = b + 1;
        }
        proof {
            if self.unwritten_zero() {
                assert forall|i: int| self.next_index.flat() <= i < r@.len() implies (#[trigger] r@[i]).model@ == zeros(self.spatial as nat) by {
                    let j = Index::at_flat(i as nat);
                    assert(j.vector == i / 8 && j.scalar == i % 8 && j.flat() == i && j.vector < self.block_count()) by (nonlinear_arith)
                        requires j == Index::at_flat(i as nat), 0 <= i < self.block_count() * 8, self.block_count() <= usize::MAX + 1;
                    assert(self.unissued(j));
                }
            }
        }
        r
    }

    /// Number of blocks in each attribute.
    pub fn blocks(&self) -> (r: usize)
        ensures
            r == self.block_count(),
    {
        self.transform.len()
    }

    /// What slot `index` of the spatial attribute holds.
    pub fn spatial_at(&self, index: Index) -> (r: Vec<u32>)
        requires
            self.wf(),
            index.wf(),
            index.vector < self.block_count(),
        ensures
            r@ == slot_of(self.spatial_view(), index),
    {
        self.transform[index.vector].read_lane(index.scalar)
    }

    /// What slot `index` of the velocity holds.
    pub fn velocity_at(&self, index: Index) -> (r: Vec<u32>)
        requires
            self.wf(),
            index.wf(),
            index.vector < self.block_count(),
        ensures
            r@ == slot_of(self.velocity_view(), index),
    {
        self.velocity[index.vector].read_lane(index.scalar)
    }

    /// What slot `index` of the acceleration holds.
    pub fn accel_at(&self, index: Index) -> (r: Vec<u32>)
        requires
            self.wf(),
            index.wf(),
            index.vector < self.block_count(),
        ensures
            r@ == slot_of(self.accel_view(), index),
    {
        self.accel[index.vector].read_lane(index.scalar)
    }
}

/// With no released slot, pushes hand out slots in block-major,
/// lane-minor order: on a store whose cursor is at flat position `n`, a
/// push returns slot `(n / 8, n % 8)`, moves the cursor to `n + 1` and leaves `(n + 1) / 8 + 1` blocks,
/// which is `ceil((n + 1) / 8)` unless `n + 1` is a multiple of eight (the
/// cursor has then moved into a fresh block). A new store has its cursor
/// at position zero.
pub proof fn lemma_pushes_in_order(
    s: Movement,
    pos: Seq<u32>,
    vel: Seq<u32>,
    acc: Seq<u32>,
    t: Movement,
    r: Index,
    n: nat,
)
    requires
        s.wf(),
        t.wf(),
        s.dead_indices@.len() == 0,
        s.next_index.flat() == n,
        pushed(s, pos, vel, acc, t, r),
    ensures
        r == Index::at_flat(n),
        t.next_index == Index::at_flat(n + 1),
        t.next_index.flat() == n + 1,
        t.dead_indices@.len() == 0,
        t.block_count() == (n + 1) / 8 + 1,
        (n + 1) % 8 != 0 ==> t.block_count() == ((n + 1) + 7) / 8,
{
    lemma_flat_round_trip(s.next_index);
    if s.next_index.scalar + 1 == LANES && s.next_index.vector == usize::MAX {
        assert(t.block_count() == s.block_count() + 1) by {
            assert(t.spatial_view().len() == t.transform@.len());
            assert(s.spatial_view().len() == s.transform@.len());
        }
    }
    lemma_successor_flat(s.next_index);
    lemma_flat_round_trip(t.next_index);
    assert(((n + 1) % 8 != 0) ==> (n + 1) / 8 + 1 == ((n + 1) + 7) / 8) by (nonlinear_arith);
}

/// From a new store, `k` pushes with no release in between return the
/// slots `(0, 0), (0, 1), .., (0, 7), (1, 0), ..` in that order, and leave
/// `k / 8 + 1` blocks. `states[j]` is the store before push `j`, which
/// returned `slots[j]`.
pub proof fn lemma_pushes_from_new(
    states: Seq<Movement>,
    pos: Seq<Seq<u32>>,
    vel: Seq<Seq<u32>>,
    acc: Seq<Seq<u32>>,
    slots: Seq<Index>,
)
    requires
        states.len() == slots.len() + 1,
        pos.len() == slots.len(),
        vel.len() == slots.len(),
        acc.len() == slots.len(),
        states[0].wf(),
        states[0].next_index == (Index { vector: 0, scalar: 0 }),
        states[0].dead_indices@.len() == 0,
        forall|j: int|
            0 <= j < slots.len() ==> #[trigger] states[j + 1].wf() && pushed(
                states[j],
                pos[j],
                vel[j],
                acc[j],
                states[j + 1],
                slots[j],
            ),
    ensures
        forall|j: int| 0 <= j < slots.len() ==> #[trigger] slots[j] == Index::at_flat(j as nat),
        states[slots.len() as int].block_count() == slots.len() / 8 + 1,
    decreases slots.len(),
{
    let k = slots.len() as int;
    if k > 0 {
        lemma_pushes_from_new(states.drop_last(), pos.drop_last(), vel.drop_last(), acc.drop_last(), slots.drop_last());
        lemma_fresh_prefix(states, pos, vel, acc, slots, k - 1);
        assert(states[k - 1].wf() && pushed(states[k - 1], pos[k - 1], vel[k - 1], acc[k - 1], states[k], slots[k - 1])) by {
            assert(states[(k - 1) + 1].wf());
        }
        lemma_pushes_in_order(states[k - 1], pos[k - 1], vel[k - 1], acc[k - 1], states[k], slots[k - 1], (k - 1) as nat);
        assert forall|j: int| 0 <= j < k implies #[trigger] slots[j] == Index::at_flat(j as nat) by {
            if j < k - 1 {
                assert(slots.drop_last()[j] == slots[j]);
            }
        }
    }
}

/// After `j` of those pushes the store is valid, has no released slot and
/// its cursor is at flat position `j`.
proof fn lemma_fresh_prefix(
    states: Seq<Movement>,
    pos: Seq<Seq<u32>>,
    vel: Seq<Seq<u32>>,
    acc: Seq<Seq<u32>>,
    slots: Seq<Index>,
    j: int,
)
    requires
        states.len() == slots.len() + 1,
        pos.len() == slots.len(),
        vel.len() == slots.len(),
        acc.len() == slots.len(),
        states[0].wf(),
        states[0].next_index == (Index { vector: 0, scalar: 0 }),
        states[0].dead_indices@.len() == 0,
        forall|j: int|
            0 <= j < slots.len() ==> #[trigger] states[j + 1].wf() && pushed(
                states[j],
                pos[j],
                vel[j],
                acc[j],
                states[j + 1],
                slots[j],
            ),
        0 <= j <= slots.len(),
    ensures
        states[j].wf(),
        states[j].dead_indices@.len() == 0,
        states[j].next_index.flat() == j,
    decreases j,
{
    if j > 0 {
        lemma_fresh_prefix(states, pos, vel, acc, slots, j - 1);
        assert(states[(j - 1) + 1].wf());
        lemma_pushes_in_order(states[j - 1], pos[j - 1], vel[j - 1], acc[j - 1], states[j], slots[j - 1], (j - 1) as nat);
    }
}

/// What a push stores comes out of an export of the resulting store at
/// the slot's flat position `vector * 8 + scalar`.
pub proof fn lemma_push_then_export(
    s: Movement,
    pos: Seq<u32>,
    vel: Seq<u32>,
    acc: Seq<u32>,
    t: Movement,
    r: Index,
    raw: Seq<InstanceRaw>,
)
    requires
        s.wf(),
        t.wf(),
        t.live(r),
        pos.len() == s.spatial,
        pushed(s, pos, vel, acc, t, r),
        raw.len() == t.block_count() * LANES,
        forall|i: int| 0 <= i < raw.len() ==> (#[trigger] raw[i]).model@ == slot_of(t.spatial_view(), Index::at_flat(i as nat)),
    ensures
        0 <= r.flat() < raw.len(),
        raw[r.flat()].model@ == pos,
{
    lemma_flat_round_trip(r);
    assert(r.flat() < raw.len()) by (nonlinear_arith)
        requires r.flat() == r.vector * 8 + r.scalar, r.scalar < 8, r.vector < t.block_count(), raw.len() == t.block_count() * 8;
    lemma_views_shaped(t.transform@);
    let b = r.vector as int;
    let l = r.scalar as int;
    let grown = grow(s.spatial_view(), s.spatial as nat, s.grows());
    assert(t.spatial_view()[b] == with_lane(grown[b], l, pos));
    assert(t.spatial_view()[b] == t.transform@[b]@);
    assert forall|k: int| 0 <= k < pos.len() implies #[trigger] slot_of(t.spatial_view(), r)[k] == pos[k] by {
        assert(t.spatial_view()[b][k] == grown[b][k].update(l, pos[k]));
        assert(t.spatial_view()[b][k].len() == 8);
    }
    assert(slot_of(t.spatial_view(), r) =~= pos);
}

/// A released slot is the next one handed out, and the push that takes it
/// leaves exactly the new values there, whatever the slot held before.
pub proof fn lemma_release_then_push(
    s: Movement,
    i: Index,
    t: Movement,
    pos: Seq<u32>,
    vel: Seq<u32>,
    acc: Seq<u32>,
    u: Movement,
    r: Index,
)
    requires
        s.wf(),
        s.live(i),
        released(s, i, t),
        pos.len() == s.spatial,
        vel.len() == VECTOR_WIDTH,
        acc.len() == VECTOR_WIDTH,
        pushed(t, pos, vel, acc, u, r),
    ensures
        r == i,
        u.next_index == s.next_index,
        u.dead_indices@ == s.dead_indices@,
        slot_of(u.spatial_view(), i) == pos,
        slot_of(u.velocity_view(), i) == vel,
        slot_of(u.accel_view(), i) == acc,
{
    assert(t.dead_indices@.last() == i);
    assert(t.dead_indices@.drop_last() =~= s.dead_indices@);
    let b = i.vector as int;
    assert(t.spatial_view()[b] == s.transform@[b]@);
    assert(t.velocity_view()[b] == s.velocity@[b]@);
    assert(t.accel_view()[b] == s.accel@[b]@);
    crate::block::lemma_lane_round_trip(s.transform@[b], i.scalar as int, pos);
    crate::block::lemma_lane_round_trip(s.velocity@[b], i.scalar as int, vel);
    crate::block::lemma_lane_round_trip(s.accel@[b], i.scalar as int, acc);
}

} // verus!
