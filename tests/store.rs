use breadth::movement::{TRANSFORM_TRANSLATION, TRANSFORM_WIDTH};
use breadth::{Block, Index, Movement};

fn bits(v: &[f32]) -> Vec<u32> {
    v.iter().map(|x| x.to_bits()).collect()
}

fn floats(v: &[u32]) -> Vec<f32> {
    v.iter().map(|x| f32::from_bits(*x)).collect()
}

fn identity() -> Vec<f32> {
    let mut m = vec![0.0f32; 16];
    for c in 0..4 {
        m[4 * c + c] = 1.0;
    }
    m
}

#[test]
fn pushes_hand_out_slots_in_order() {
    let mut store = Movement::new(1);
    let t = bits(&identity());
    let v = bits(&[1.0, 2.0, 3.0]);
    for n in 0..50usize {
        let index = store.push(&t, &v, &v);
        assert_eq!(index, Index { vector: n / 8, scalar: n % 8 });
    }
    assert_eq!(store.blocks(), 7);
    assert_eq!(store.next_index, Index { vector: 6, scalar: 2 });
}

#[test]
fn full_block_moves_cursor_into_a_new_block() {
    let mut store = Movement::new_positions(4);
    let z = bits(&[0.0, 0.0, 0.0]);
    for _ in 0..8 {
        store.push(&z, &z, &z);
    }
    assert_eq!(store.blocks(), 2);
    assert_eq!(store.next_index, Index { vector: 1, scalar: 0 });
}

#[test]
fn new_store_has_one_block_whatever_the_hint() {
    assert_eq!(Movement::new(0).blocks(), 1);
    assert_eq!(Movement::new(100).blocks(), 1);
    assert_eq!(Movement::new_positions(3).blocks(), 1);
    let store = Movement::new(5);
    assert_eq!(floats(&store.spatial_at(Index { vector: 0, scalar: 7 })), vec![0.0f32; TRANSFORM_WIDTH]);
}

#[test]
fn released_slot_is_reused_first_and_fully_overwritten() {
    let mut store = Movement::new_positions(1);
    let a = bits(&[1.0, 2.0, 3.0]);
    let b = bits(&[-4.0, 5.5, 6.25]);
    let c = bits(&[7.0, 8.0, 9.0]);
    store.push(&a, &a, &a);
    let second = store.push(&b, &b, &b);
    store.push(&c, &c, &c);
    assert!(store.is_live(second));
    store.release(second);
    assert!(!store.is_live(second));
    let fresh = bits(&[0.5, 0.0, -0.0]);
    let reused = store.push(&fresh, &c, &a);
    assert_eq!(reused, second);
    assert_eq!(store.spatial_at(reused), fresh);
    assert_eq!(store.velocity_at(reused), c);
    assert_eq!(store.accel_at(reused), a);
    assert_eq!(store.spatial_at(Index { vector: 0, scalar: 0 }), a);
    assert_eq!(store.spatial_at(Index { vector: 0, scalar: 2 }), c);
    let next = store.push(&a, &a, &a);
    assert_eq!(next, Index { vector: 0, scalar: 3 });
}

#[test]
fn released_slots_come_back_last_in_first_out() {
    let mut store = Movement::new_positions(1);
    let a = bits(&[1.0, 1.0, 1.0]);
    let i0 = store.push(&a, &a, &a);
    let i1 = store.push(&a, &a, &a);
    store.release(i0);
    store.release(i1);
    assert_eq!(store.push(&a, &a, &a), i1);
    assert_eq!(store.push(&a, &a, &a), i0);
    assert_eq!(store.push(&a, &a, &a), Index { vector: 0, scalar: 2 });
}

#[test]
fn liveness_follows_push_and_release() {
    let mut store = Movement::new_positions(1);
    let a = bits(&[1.0, 1.0, 1.0]);
    assert!(!store.is_live(Index { vector: 0, scalar: 0 }));
    let i = store.push(&a, &a, &a);
    assert!(store.is_live(i));
    assert!(!store.is_live(Index { vector: 0, scalar: 1 }));
    assert!(!store.is_live(Index { vector: 0, scalar: 8 }));
    assert!(!store.is_live(Index { vector: 3, scalar: 0 }));
}

#[test]
fn lane_write_reads_back_and_leaves_other_lanes() {
    let mut block = Block::zeroed(3);
    let first = bits(&[1.5, -2.0, 3.0]);
    let second = bits(&[9.0, 8.0, 7.0]);
    block.write_lane(2, &first);
    block.write_lane(5, &second);
    assert_eq!(block.read_lane(2), first);
    assert_eq!(block.read_lane(5), second);
    for l in [0usize, 1, 3, 4, 6, 7] {
        assert_eq!(block.read_lane(l), vec![0u32; 3]);
    }
    block.clear_lane(2);
    assert_eq!(block.read_lane(2), vec![0u32; 3]);
    assert_eq!(block.read_lane(5), second);
    assert_eq!(block.width(), 3);
}

#[test]
fn positions_advance_by_velocity_times_timestep() {
    let mut store = Movement::new_positions(1);
    let p = bits(&[1.0, 2.0, 3.0]);
    let v = bits(&[0.5, -1.0, 2.0]);
    let i = store.push(&p, &v, &bits(&[9.0, 9.0, 9.0]));
    store.calculate(2.0f32.to_bits());
    assert_eq!(floats(&store.spatial_at(i)), vec![2.0, 0.0, 7.0]);
    assert_eq!(floats(&store.velocity_at(i)), vec![0.5, -1.0, 2.0]);
    assert_eq!(floats(&store.accel_at(i)), vec![9.0, 9.0, 9.0]);
    let unwritten = store.spatial_at(Index { vector: 0, scalar: 1 });
    assert_eq!(unwritten, vec![0u32; 3]);
}

#[test]
fn transforms_move_only_their_translation() {
    let mut store = Movement::new(1);
    let mut m = identity();
    m[TRANSFORM_TRANSLATION] = 10.0;
    m[1] = 0.25;
    let i = store.push(&bits(&m), &bits(&[1.0, 2.0, -3.0]), &bits(&[0.0, 0.0, 0.0]));
    store.calculate(0.5f32.to_bits());
    let after = floats(&store.spatial_at(i));
    let mut expected = m.clone();
    expected[TRANSFORM_TRANSLATION] = 10.5;
    expected[TRANSFORM_TRANSLATION + 1] = 1.0;
    expected[TRANSFORM_TRANSLATION + 2] = -1.5;
    assert_eq!(after, expected);
}

#[test]
fn export_is_in_slot_order() {
    let mut store = Movement::new(2);
    let zero = bits(&[0.0, 0.0, 0.0]);
    for n in 0..11 {
        let mut m = identity();
        m[0] = n as f32;
        store.push(&bits(&m), &zero, &zero);
    }
    let raw = store.export_raw();
    assert_eq!(raw.len(), 16);
    for (i, r) in raw.iter().enumerate() {
        let index = Index { vector: i / 8, scalar: i % 8 };
        assert_eq!(r.model, store.spatial_at(index));
        if i < 11 {
            assert_eq!(f32::from_bits(r.model[0]), i as f32);
        } else {
            assert_eq!(r.model, vec![0u32; TRANSFORM_WIDTH]);
        }
    }
}

#[test]
fn parallel_step_matches_sequential_arithmetic() {
    let mut store = Movement::new_positions(4);
    let mut expected = Vec::new();
    let dt = 0.1f32;
    for n in 0..27 {
        let p = [n as f32 * 1.25, -(n as f32), 0.3 * n as f32];
        let v = [0.7 + n as f32, 1.0 / (n as f32 + 1.0), -0.01 * n as f32];
        let i = store.push(&bits(&p), &bits(&v), &bits(&[0.0, 0.0, 0.0]));
        let mut q = Vec::new();
        for k in 0..3 {
            q.push((p[k] + v[k] * dt).to_bits());
        }
        expected.push((i, q));
    }
    assert_eq!(store.blocks(), 4);
    store.calculate(dt.to_bits());
    for (i, q) in &expected {
        assert_eq!(&store.spatial_at(*i), q);
    }
    let before: Vec<Vec<u32>> = expected.iter().map(|(i, _)| store.spatial_at(*i)).collect();
    store.calculate(0.5f32.to_bits());
    for ((i, _), p) in expected.iter().zip(before.iter()) {
        let v = store.velocity_at(*i);
        let q: Vec<u32> = (0..3)
            .map(|k| (f32::from_bits(p[k]) + f32::from_bits(v[k]) * 0.5).to_bits())
            .collect();
        assert_eq!(store.spatial_at(*i), q);
    }
}

#[test]
fn fifty_entities_move_three_units_along_x() {
    let mut store = Movement::new(1);
    let m = identity();
    let mut slots = Vec::new();
    for _ in 0..50 {
        slots.push(store.push(&bits(&m), &bits(&[1.0, 0.0, 0.0]), &bits(&[0.0, 0.0, 0.0])));
    }
    store.calculate(3.0f32.to_bits());
    for i in slots {
        let after = floats(&store.spatial_at(i));
        let mut expected = m.clone();
        expected[TRANSFORM_TRANSLATION] += 3.0;
        assert_eq!(after, expected);
    }
    let unwritten = store.spatial_at(Index { vector: 6, scalar: 5 });
    assert_eq!(unwritten, vec![0u32; TRANSFORM_WIDTH]);
}

#[test]
fn unwritten_slots_stay_zero_in_every_attribute() {
    let mut store = Movement::new_positions(1);
    let p = bits(&[1.0, 2.0, 3.0]);
    store.push(&p, &p, &p);
    store.calculate(0.25f32.to_bits());
    for l in 1..8 {
        let i = Index { vector: 0, scalar: l };
        assert_eq!(store.spatial_at(i), vec![0u32; 3]);
        assert_eq!(store.velocity_at(i), vec![0u32; 3]);
        assert_eq!(store.accel_at(i), vec![0u32; 3]);
    }
}

#[test]
fn infinite_timestep_turns_zero_times_infinity_into_nan() {
    let mut store = Movement::new_positions(1);
    let p = bits(&[1.0, 2.0, 3.0]);
    let v = bits(&[1.0, 0.0, -1.0]);
    let i = store.push(&p, &v, &p);
    store.calculate(f32::INFINITY.to_bits());
    let after = floats(&store.spatial_at(i));
    assert_eq!(after[0], f32::INFINITY);
    assert!(after[1].is_nan());
    assert_eq!(after[2], f32::NEG_INFINITY);
    let unwritten = floats(&store.spatial_at(Index { vector: 0, scalar: 3 }));
    assert!(unwritten.iter().all(|x| x.is_nan()));
}

#[test]
fn opposite_infinities_sum_to_nan() {
    let mut store = Movement::new_positions(1);
    let p = bits(&[f32::NEG_INFINITY, 5.0, 0.0]);
    let v = bits(&[1.0, 2.0, 0.0]);
    let i = store.push(&p, &v, &p);
    store.calculate(f32::INFINITY.to_bits());
    let after = floats(&store.spatial_at(i));
    assert!(after[0].is_nan());
    assert_eq!(after[1], f32::INFINITY);
    assert!(after[2].is_nan());
}
