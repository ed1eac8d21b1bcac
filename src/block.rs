//! Packed blocks: eight lanes of one attribute, one lane array per scalar
//! component, with single-lane clear, write and read.
use vstd::prelude::*;
use rayon::iter::{IndexedParallelIterator, IntoParallelRefIterator, IntoParallelRefMutIterator, ParallelIterator};
use crate::lanes::{
    add_lanes, mul_lanes, lane_sum, lane_product, is_finite_bits, is_nan_bits, sum_defined, product_defined, ZERO_BITS,
    NEG_ZERO_BITS,
};

verus! {

/// Eight lanes of one attribute: `comps[k][l]` is component `k` of lane `l`.
#[derive(Debug)]
pub struct Block {
    pub comps: Vec<[u32; 8]>,
}

/// Component `k` of lane `l` for every `k`: the value that lane `l` holds.
pub open spec fn lane_of(b: Seq<Seq<u32>>, l: int) -> Seq<u32> {
    Seq::new(b.len(), |k: int| b[k][l])
}

/// Lane `l` replaced by `vals`, component by component; other lanes kept.
pub open spec fn with_lane(b: Seq<Seq<u32>>, l: int, vals: Seq<u32>) -> Seq<Seq<u32>> {
    Seq::new(b.len(), |k: int| b[k].update(l, vals[k]))
}

/// A block of `n` components whose lanes all hold `+0.0`.
pub open spec fn zero_block(n: nat) -> Seq<Seq<u32>> {
    Seq::new(n, |k: int| Seq::new(8, |l: int| 0u32))
}

/// What one lane becomes over a step of `dt`: `p + v * dt` where neither
/// the product nor the sum is a NaN, a NaN otherwise.
pub open spec fn lane_stepped(p: u32, v: u32, dt: u32, q: u32) -> bool {
    if product_defined(v, dt) && sum_defined(p, lane_product(v, dt)) {
        q == lane_sum(p, lane_product(v, dt))
    } else {
        is_nan_bits(q)
    }
}

/// Eight lanes, each stepped on its own.
pub open spec fn lanes_stepped(p: Seq<u32>, v: Seq<u32>, dt: u32, q: Seq<u32>) -> bool {
    &&& q.len() == 8
    &&& forall|l: int| 0 <= l < 8 ==> lane_stepped(p[l], v[l], dt, #[trigger] q[l])
}

/// `q` is block `p` with components `offset .. offset + 3` stepped by the
/// three components of `v` over `dt`, the other components kept.
pub open spec fn advanced(p: Seq<Seq<u32>>, v: Seq<Seq<u32>>, offset: int, dt: u32, q: Seq<Seq<u32>>) -> bool {
    &&& q.len() == p.len()
    &&& forall|k: int| 0 <= k < p.len() && offset <= k < offset + 3 ==> lanes_stepped(p[k], v[k - offset], dt, #[trigger] q[k])
    &&& forall|k: int| 0 <= k < p.len() && !(offset <= k < offset + 3) ==> #[trigger] q[k] == p[k]
}

/// Under a finite `dt`, a lane whose advanced components were `+0.0`, with
/// a velocity of zeros of either sign, is still `+0.0` there.
pub open spec fn keeps_zero_lanes(p: Seq<Seq<u32>>, v: Seq<Seq<u32>>, offset: int, dt: u32, q: Seq<Seq<u32>>) -> bool {
    is_finite_bits(dt) ==> forall|k: int, l: int|
        offset <= k < offset + 3 && 0 <= l < 8 && p[k][l] == ZERO_BITS
            && (v[k - offset][l] == ZERO_BITS || v[k - offset][l] == NEG_ZERO_BITS)
            ==> #[trigger] q[k][l] == ZERO_BITS
}

/// What `advance` leaves behind.
pub open spec fn advance_post(p: Seq<Seq<u32>>, v: Seq<Seq<u32>>, offset: int, dt: u32, q: Seq<Seq<u32>>) -> bool {
    &&& advanced(p, v, offset, dt, q)
    &&& keeps_zero_lanes(p, v, offset, dt, q)
}

/// `qs` is every block of `ps` advanced by its own velocity block.
pub open spec fn advanced_each(
    ps: Seq<Seq<Seq<u32>>>,
    vs: Seq<Seq<Seq<u32>>>,
    offset: int,
    dt: u32,
    qs: Seq<Seq<Seq<u32>>>,
) -> bool {
    &&& qs.len() == ps.len()
    &&& forall|b: int| 0 <= b < ps.len() ==> advanced(ps[b], vs[b], offset, dt, #[trigger] qs[b])
}

/// Writing a lane and reading it back gives what was written; every other
/// lane reads as before.
pub proof fn lemma_lane_round_trip(b: Block, l: int, vals: Seq<u32>)
    requires
        0 <= l < 8,
        vals.len() == b@.len(),
    ensures
        lane_of(with_lane(b@, l, vals), l) == vals,
        forall|m: int| 0 <= m < 8 && m != l ==> lane_of(with_lane(b@, l, vals), m) == #[trigger] lane_of(b@, m),
{
    assert forall|k: int| 0 <= k < b@.len() implies (#[trigger] b@[k]).len() == 8 by {
        assert(b@[k] == b.comps@[k]@);
    }
    assert(lane_of(with_lane(b@, l, vals), l) =~= vals);
    assert forall|m: int| 0 <= m < 8 && m != l implies lane_of(with_lane(b@, l, vals), m) == #[trigger] lane_of(b@, m) by {
        assert(lane_of(with_lane(b@, l, vals), m) =~= lane_of(b@, m));
    }
}

/// The blocks are independent: whatever advances all the blocks advances
/// each part of any split of them, and a result for each part, joined,
/// advances all of them.
pub proof fn lemma_partition(
    ps: Seq<Seq<Seq<u32>>>,
    vs: Seq<Seq<Seq<u32>>>,
    offset: int,
    dt: u32,
    qs: Seq<Seq<Seq<u32>>>,
    m: int,
)
    requires
        ps.len() == vs.len(),
        qs.len() == ps.len(),
        0 <= m <= ps.len(),
    ensures
        advanced_each(ps, vs, offset, dt, qs) <==> (advanced_each(
            ps.subrange(0, m),
            vs.subrange(0, m),
            offset,
            dt,
            qs.subrange(0, m),
        ) && advanced_each(
            ps.subrange(m, ps.len() as int),
            vs.subrange(m, vs.len() as int),
            offset,
            dt,
            qs.subrange(m, qs.len() as int),
        )),
{
    let n = ps.len() as int;
    if advanced_each(ps.subrange(0, m), vs.subrange(0, m), offset, dt, qs.subrange(0, m)) && advanced_each(
        ps.subrange(m, n),
        vs.subrange(m, n),
        offset,
        dt,
        qs.subrange(m, n),
    ) {
        assert forall|b: int| 0 <= b < n implies advanced(ps[b], vs[b], offset, dt, #[trigger] qs[b]) by {
            if b < m {
                assert(qs.subrange(0, m)[b] == qs[b]);
                assert(ps.subrange(0, m)[b] == ps[b]);
                assert(vs.subrange(0, m)[b] == vs[b]);
            } else {
                assert(qs.subrange(m, n)[b - m] == qs[b]);
                assert(ps.subrange(m, n)[b - m] == ps[b]);
                assert(vs.subrange(m, n)[b - m] == vs[b]);
            }
        }
    }
    if advanced_each(ps, vs, offset, dt, qs) {
        assert forall|b: int| 0 <= b < m implies advanced(ps.subrange(0, m)[b], vs.subrange(0, m)[b], offset, dt, #[trigger] qs.subrange(0, m)[b]) by {
            assert(advanced(ps[b], vs[b], offset, dt, qs[b]));
        }
        assert forall|b: int| 0 <= b < n - m implies advanced(ps.subrange(m, n)[b], vs.subrange(m, n)[b], offset, dt, #[trigger] qs.subrange(m, n)[b]) by {
            assert(advanced(ps[b + m], vs[b + m], offset, dt, qs[b + m]));
        }
    }
}

/// Two results of advancing the same blocks, say one computed in parallel
/// and one block after another, are the same bits in every lane, except
/// where both lanes are NaNs.
pub proof fn lemma_results_agree(
    ps: Seq<Seq<Seq<u32>>>,
    vs: Seq<Seq<Seq<u32>>>,
    offset: int,
    dt: u32,
    qs: Seq<Seq<Seq<u32>>>,
    rs: Seq<Seq<Seq<u32>>>,
)
    requires
        advanced_each(ps, vs, offset, dt, qs),
        advanced_each(ps, vs, offset, dt, rs),
    ensures
        rs.len() == qs.len(),
        forall|b: int, k: int, l: int|
            0 <= b < qs.len() && 0 <= k < qs[b].len() && 0 <= l < qs[b][k].len() ==> #[trigger] qs[b][k][l]
                == rs[b][k][l] || (is_nan_bits(qs[b][k][l]) && is_nan_bits(rs[b][k][l])),
{
    assert forall|b: int, k: int, l: int|
        0 <= b < qs.len() && 0 <= k < qs[b].len() && 0 <= l < qs[b][k].len() implies #[trigger] qs[b][k][l]
            == rs[b][k][l] || (is_nan_bits(qs[b][k][l]) && is_nan_bits(rs[b][k][l])) by {
        assert(advanced(ps[b], vs[b], offset, dt, qs[b]));
        assert(advanced(ps[b], vs[b], offset, dt, rs[b]));
        if offset <= k < offset + 3 {
            assert(lanes_stepped(ps[b][k], vs[b][k - offset], dt, qs[b][k]));
            assert(lanes_stepped(ps[b][k], vs[b][k - offset], dt, rs[b][k]));
            assert(lane_stepped(ps[b][k][l], vs[b][k - offset][l], dt, qs[b][k][l]));
            assert(lane_stepped(ps[b][k][l], vs[b][k - offset][l], dt, rs[b][k][l]));
        }
    }
}

impl View for Block {
    type V = Seq<Seq<u32>>;

    open spec fn view(&self) -> Seq<Seq<u32>> {
        Seq::new(self.comps@.len(), |k: int| self.comps@[k]@)
    }
}

impl Block {
    /// A block of `n` components, every lane `+0.0`.
    pub fn zeroed(n: usize) -> (r: Block)
        ensures
            r@ == zero_block(n as nat),
    {
        let mut comps: Vec<[u32; 8]> = Vec::new();
        let mut k: usize = 0;
        while k < n
            invariant
                k <= n,
                comps@.len() == k,
                forall|j: int| 0 <= j < k ==> (#[trigger] comps@[j])@ == Seq::new(8, |l: int| 0u32),
            decreases n - k,
        {
            let c: [u32; 8] = [0u32, 0u32, 0u32, 0u32, 0u32, 0u32, 0u32, 0u32];
            assert(c@ =~= Seq::new(8, |l: int| 0u32));
            comps.push(c);
            k = k + 1;
        }
        let r = Block { comps };
        assert(r@ =~= zero_block(n as nat));
        r
    }

    /// Number of scalar components per lane.
    pub fn width(&self) -> (r: usize)
        ensures
            r == self@.len(),
    {
        self.comps.len()
    }

    /// Sets every component of lane `lane` to `+0.0`; the other lanes keep
    /// their values.
    pub fn clear_lane(&mut self, lane: usize)
        requires
            lane < 8,
        ensures
            final(self)@ == with_lane(old(self)@, lane as int, Seq::new(old(self)@.len(), |k: int| 0u32)),
    {
        let ghost zeros = Seq::new(old(self)@.len(), |k: int| 0u32);
        let n = self.comps.len();
        let mut k: usize = 0;
        while k < n
            invariant
                k <= n,
                n == old(self)@.len(),
                lane < 8,
                zeros == Seq::new(old(self)@.len(), |k: int| 0u32),
                self@.len() == n,
                self.comps@.len() == n,
                forall|j: int| 0 <= j < k ==> (#[trigger] self.comps@[j])@ == old(self).comps@[j]@.update(lane as int, 0u32),
                forall|j: int| k <= j < n ==> #[trigger] self.comps@[j] == old(self).comps@[j],
            decreases n - k,
        {
            let mut c = self.comps[k];
            c[lane] = 0u32;
            self.comps.set(k, c);
            proof {
                assert(self.comps@[k as int]@ =~= old(self).comps@[k as int]@.update(lane as int, 0u32));
            }
            k = k + 1;
        }
        assert(self@ =~= with_lane(old(self)@, lane as int, zeros));
    }

    /// Puts `vals[k]` into component `k` of lane `lane`; the other lanes
    /// keep their values.
    pub fn write_lane(&mut self, lane: usize, vals: &[u32])
        requires
            lane < 8,
            vals@.len() == old(self)@.len(),
        ensures
            final(self)@ == with_lane(old(self)@, lane as int, vals@),
    {
        let n = self.comps.len();
        let mut k: usize = 0;
        while k < n
            invariant
                k <= n,
                n == old(self)@.len(),
                lane < 8,
                vals@.len() == n,
                self@.len() == n,
                self.comps@.len() == n,
                forall|j: int| 0 <= j < k ==> (#[trigger] self.comps@[j])@ == old(self).comps@[j]@.update(lane as int, vals@[j]),
                forall|j: int| k <= j < n ==> #[trigger] self.comps@[j] == old(self).comps@[j],
            decreases n - k,
        {
            let mut c = self.comps[k];
            c[lane] = vals[k];
            self.comps.set(k, c);
            proof {
                assert(self.comps@[k as int]@ =~= old(self).comps@[k as int]@.update(lane as int, vals@[k as int]));
            }
            k = k + 1;
        }
        assert(self@ =~= with_lane(old(self)@, lane as int, vals@));
    }

    /// The values of lane `lane`, one per component.
    pub fn read_lane(&self, lane: usize) -> (r: Vec<u32>)
        requires
            lane < 8,
        ensures
            r@ == lane_of(self@, lane as int),
    {
        let n = self.comps.len();
        let mut r: Vec<u32> = Vec::new();
        let mut k: usize = 0;
        while k < n
            invariant
                k <= n,
                n == self@.len(),
                lane < 8,
                r@.len() == k,
                forall|j: int| 0 <= j < k ==> #[trigger] r@[j] == self@[j][lane as int],
            decreases n - k,
        {
            r.push(self.comps[k][lane]);
            k = k + 1;
        }
        assert(r@ =~= lane_of(self@, lane as int));
        r
    }

    /// Advances components `offset .. offset + 3` by the three components of
    /// `velocity` scaled by `dt`, all eight lanes at once.
    pub fn advance(&mut self, velocity: &Block, offset: usize, dt: u32)
        requires
            velocity@.len() == 3,
            offset + 3 <= old(self)@.len(),
        ensures
            advance_post(old(self)@, velocity@, offset as int, dt, final(self)@),
    {
        let n = self.comps.len();
        let scale: [u32; 8] = [dt, dt, dt, dt, dt, dt, dt, dt];
        let mut k: usize = 0;
        while k < 3
            invariant
                k <= 3,
                velocity@.len() == 3,
                offset + 3 <= n,
                n == old(self)@.len(),
                self@.len() == n,
                scale@ == Seq::new(8, |l: int| dt),
                self.comps@.len() == n,
                forall|j: int| offset <= j < offset + k ==> lanes_stepped(old(self)@[j], velocity@[j - offset], dt, (#[trigger] self.comps@[j])@),
                is_finite_bits(dt) ==> forall|j: int, l: int|
                    offset <= j < offset + k && 0 <= l < 8 && old(self)@[j][l] == ZERO_BITS
                        && (velocity@[j - offset][l] == ZERO_BITS || velocity@[j - offset][l] == NEG_ZERO_BITS)
                        ==> #[trigger] self.comps@[j]@[l] == ZERO_BITS,
                forall|j: int| 0 <= j < n && !(offset <= j < offset + k) ==> #[trigger] self.comps@[j] == old(self).comps@[j],
            decreases 3 - k,
        {
            let vk = velocity.comps[k];
            let pk = self.comps[offset + k];
            let moved = mul_lanes(vk, scale);
            let next = add_lanes(pk, moved);
            self.comps.set(offset + k, next);
            proof {
                assert forall|l: int| 0 <= l < 8 implies lane_stepped(pk@[l], vk@[l], dt, #[trigger] next@[l]) by {
                    assert(scale@[l] == dt);
                    if product_defined(vk@[l], dt) {
                        assert(moved@[l] == lane_product(vk@[l], dt));
                        if sum_defined(pk@[l], moved@[l]) {
                            assert(next@[l] == lane_sum(pk@[l], moved@[l]));
                        } else {
                            assert(is_nan_bits(next@[l]));
                        }
                    } else {
                        assert(is_nan_bits(moved@[l]));
                        assert(!sum_defined(pk@[l], moved@[l]));
                        assert(is_nan_bits(next@[l]));
                    }
                }
                assert(pk@ == old(self)@[offset + k]);
                assert(vk@ == velocity@[k as int]);
                assert(lanes_stepped(old(self)@[offset + k], velocity@[k as int], dt, next@));
                if is_finite_bits(dt) {
                    assert forall|l: int|
                        0 <= l < 8 && pk@[l] == ZERO_BITS && (vk@[l] == ZERO_BITS || vk@[l] == NEG_ZERO_BITS)
                        implies next@[l] == ZERO_BITS by {
                        assert(scale@[l] == dt);
                        assert(moved@[l] == ZERO_BITS || moved@[l] == NEG_ZERO_BITS);
                    }
                }
            }
            k = k + 1;
        }
        assert forall|j: int| 0 <= j < n && offset <= j < offset + 3 implies lanes_stepped(old(self)@[j], velocity@[j - offset], dt, #[trigger] self@[j]) by {
            assert(self@[j] == self.comps@[j]@);
        }
        assert forall|j: int| 0 <= j < n && !(offset <= j < offset + 3) implies #[trigger] self@[j] == old(self)@[j] by {
            assert(self@[j] == self.comps@[j]@);
        }
    }
}

/// Relies on rayon's `par_iter_mut`, `zip` and `for_each`: the pairs of
/// equal positions of the two vectors are each handed once to the closure,
/// which advances the first by the second; nothing else is changed.
#[verifier::external_body]
pub(crate) fn par_advance(spatial: &mut Vec<Block>, velocity: &Vec<Block>, offset: usize, dt: u32)
    requires
        old(spatial)@.len() == velocity@.len(),
        forall|b: int| 0 <= b < velocity@.len() ==> (#[trigger] velocity@[b])@.len() == 3,
        forall|b: int| 0 <= b < old(spatial)@.len() ==> offset + 3 <= (#[trigger] old(spatial)@[b])@.len(),
    ensures
        final(spatial)@.len() == old(spatial)@.len(),
        forall|b: int|
            0 <= b < old(spatial)@.len() ==> advance_post(
                #[trigger] old(spatial)@[b]@,
                velocity@[b]@,
                offset as int,
                dt,
                final(spatial)@[b]@,
            ),
{
    spatial.par_iter_mut().zip(velocity.par_iter()).for_each(|(p, v)| p.advance(v, offset, dt));
}

} // verus!
