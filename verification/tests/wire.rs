//! The shared-memory protocol: queues, slots, pads and clients.

use mcts::ring::{RingQueue, QCAP};
use mcts::scalar::{Binary, Scalar, Unary};
use mcts::tilers_obs::{build_obs, BoardCell, TilersObs, NUM_ACTIONS};
use mcts::tilers_slot::TilersSlot;

/// Machine numbers of single precision.
#[derive(Clone, Copy, Debug, PartialEq)]
struct F32(f32);

impl Scalar for F32 {
    fn decimal(digits: i64, exponent: i32) -> Self {
        F32(format!("{}e{}", digits, exponent).parse::<f32>().unwrap())
    }

    fn count(n: usize) -> Self {
        F32(n as f32)
    }

    fn infinity(positive: bool) -> Self {
        F32(if positive { f32::INFINITY } else { f32::NEG_INFINITY })
    }

    fn unary(op: Unary, x: &Self) -> Self {
        F32(match op {
            Unary::Abs => x.0.abs(),
            Unary::Sqrt => x.0.sqrt(),
            Unary::Tanh => x.0.tanh(),
            Unary::Exp => x.0.exp(),
            Unary::Ln => x.0.ln(),
            Unary::Ceil => x.0.ceil(),
            Unary::Floor => x.0.floor(),
            Unary::Round => x.0.round(),
        })
    }

    fn binary(op: Binary, x: &Self, y: &Self) -> Self {
        F32(match op {
            Binary::Plus => x.0 + y.0,
            Binary::Minus => x.0 - y.0,
            Binary::Times => x.0 * y.0,
            Binary::Over => x.0 / y.0,
            Binary::Power => x.0.powf(y.0),
            Binary::Max => x.0.max(y.0),
            Binary::Min => x.0.min(y.0),
        })
    }

    fn raise(x: &Self, n: usize) -> Self {
        F32(x.0.powi(n as i32))
    }

    fn less(x: &Self, y: &Self) -> bool {
        x.0 < y.0
    }

    fn same(x: &Self, y: &Self) -> bool {
        x.0 == y.0
    }

    fn to_count(x: &Self) -> usize {
        x.0 as usize
    }

    fn dup(&self) -> Self {
        *self
    }

    fn less_law(_x: Self) {}

    fn same_law() {}
}

#[test]
fn ringqueue_fifo() {
    let mut q = RingQueue::new();
    q.init();

    for i in 0..100u32 {
        q.try_push(i).unwrap();
    }
    for i in 0..100u32 {
        assert_eq!(q.try_pop(), Some(i));
    }
    assert_eq!(q.try_pop(), None);
}

#[test]
fn ringqueue_full_empty() {
    let mut q = RingQueue::new();
    q.init();

    // Max usable capacity is QCAP-1 for this ring scheme.
    for i in 0..(QCAP as u32 - 1) {
        q.try_push(i).unwrap();
    }
    assert!(q.try_push(999).is_err());

    for i in 0..(QCAP as u32 - 1) {
        assert_eq!(q.try_pop(), Some(i));
    }
    assert_eq!(q.try_pop(), None);
}

/// A board observation whose every channel is told apart from the others.
fn sample_obs(h: usize, w: usize, na: usize) -> TilersObs {
    let layers = 3usize;
    let board: Vec<Vec<BoardCell>> = (0..layers)
        .map(|l| {
            (0..h * w)
                .map(|c| {
                    let base = (l * 1000 + c * 10) as i16;
                    BoardCell {
                        qubit_role: base,
                        factor_kind: base + 1,
                        resource_kind: -base,
                        pp_group_row: base + 3,
                        pp_group_col: base + 4,
                        ancilla_idx: -1,
                        last_move_dir: base + 6,
                        weight_in_pp: base + 7,
                        is_hub_for_pp: (c % 2) as i16,
                        is_y_ready: (l % 2) as i16,
                    }
                })
                .collect()
        })
        .collect();
    let mask: Vec<bool> = (0..1 + 6 * na).map(|a| a % 3 != 1).collect();
    build_obs(h, w, na, board, &mask)
}

#[test]
fn test_slot_roundtrip_board() {
    let obs = sample_obs(3, 3, 1);
    let mut slot: TilersSlot<F32> = TilersSlot::default();
    slot.pack_observations(std::slice::from_ref(&obs)).unwrap();

    assert_eq!(slot.b, 1);
    assert_eq!(slot.h[0] as usize, obs.height);
    assert_eq!(slot.w[0] as usize, obs.width);
    assert_eq!(slot.num_ancillas[0] as usize, obs.num_ancillas);
    assert_eq!(slot.num_layers[0] as usize, obs.num_layers);

    let unpacked = slot.unpack_observations();
    assert_eq!(unpacked.len(), 1);
    let u = &unpacked[0];
    assert_eq!(u.height, obs.height);
    assert_eq!(u.width, obs.width);
    assert_eq!(u.num_layers, obs.num_layers);
    // Exact board + mask round-trip.
    assert_eq!(u.board, obs.board);
    assert_eq!(u.action_mask, obs.action_mask);
    assert_eq!(u.action_mask.len(), NUM_ACTIONS);
}

#[test]
fn test_slot_roundtrip_batch() {
    let o1 = sample_obs(3, 3, 1);
    let o2 = sample_obs(4, 4, 2);
    let mut slot: TilersSlot<F32> = TilersSlot::default();
    slot.pack_observations(&[o1.clone(), o2.clone()]).unwrap();
    assert_eq!(slot.b, 2);

    let u = slot.unpack_observations();
    assert_eq!(u[0].board, o1.board);
    assert_eq!(u[1].board, o2.board);
}
