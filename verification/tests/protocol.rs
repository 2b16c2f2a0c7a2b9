//! The arena, its clients, pads and boards, and the evaluation.

use mcts::arena::{
    arena_file_path, arena_name, check_header, check_request, handler_of, open_step, Arena, ArenaError,
    ArenaHeader, OpenStep, ARENA_MAGIC, ARENA_VERSION, MAX_HANDLERS,
};
use mcts::assessment::Exam;
use mcts::boards::{
    build_boards_rs, opcode_token, ori_token, BoardInput, BoardToken, ObjectiveLayer, NO_MATE,
    TOKEN_CX_CONTROL, TOKEN_CX_TARGET,
};
use mcts::client::{check_answer, read_prior, ClientError, TilersIpcClient, TrivialTilersIpcClient};
use mcts::comms::{RequestScratchPad, ResponseScratchPad};
use mcts::environment::Environment;
use mcts::evaluator::{
    actions_text, greedy_action, holdout_params, holdout_query, Evaluator, EVAL_BATCH,
};
use mcts::grading::Hindsight;
use mcts::inference::{InferenceClient, InferenceError};
use mcts::matrix::Matrix;
use mcts::observation::{Observation, ObservationTuple, MAX_BATCH};
use mcts::reward::done_score;
use mcts::ring::{done_backoff, lock_backoff, queue_backoff, ring_pop, ring_push, Backoff, RingQueue, SpinLock, QCAP};
use mcts::scalar::{Binary, Scalar, Unary};
use mcts::slot::{PackError, Slot, SLOT_DONE, SLOT_FREE, SLOT_READY};
use mcts::text::number_text;
use mcts::tilers_obs::{build_obs, lookahead, Action, BoardCell, TilersObs};
use mcts::tilers_slot::{check_batch, BatchError, TilersSlot, WriteError};
use mcts::unpack::{
    le_i32, sign_extend, unpack_objectives_batch_rs, unpack_placement_batch_rs, OBJECTIVE_SIZE,
    QUBIT_SIZE,
};
use std::collections::HashMap;

/// Machine numbers of single precision.
#[derive(Clone, Copy, Debug, PartialEq)]
struct F32(f32);

impl Scalar for F32 {
    fn decimal(digits: i64, exponent: i32) -> Self {
        F32(format!("{}e{}", digits, exponent).parse::<f32>().unwrap())
    }

    fn count(n: usize) -> Self {
        F32(n as f32)
    }

    fn infinity(positive: bool) -> Self {
        F32(if positive { f32::INFINITY } else { f32::NEG_INFINITY })
    }

    fn unary(op: Unary, x: &Self) -> Self {
        F32(match op {
            Unary::Abs => x.0.abs(),
            Unary::Sqrt => x.0.sqrt(),
            Unary::Tanh => x.0.tanh(),
            Unary::Exp => x.0.exp(),
            Unary::Ln => x.0.ln(),
            Unary::Ceil => x.0.ceil(),
            Unary::Floor => x.0.floor(),
            Unary::Round => x.0.round(),
        })
    }

    fn binary(op: Binary, x: &Self, y: &Self) -> Self {
        F32(match op {
            Binary::Plus => x.0 + y.0,
            Binary::Minus => x.0 - y.0,
            Binary::Times => x.0 * y.0,
            Binary::Over => x.0 / y.0,
            Binary::Power => x.0.powf(y.0),
            Binary::Max => x.0.max(y.0),
            Binary::Min => x.0.min(y.0),
        })
    }

    fn raise(x: &Self, n: usize) -> Self {
        F32(x.0.powi(n as i32))
    }

    fn less(x: &Self, y: &Self) -> bool {
        x.0 < y.0
    }

    fn same(x: &Self, y: &Self) -> bool {
        x.0 == y.0
    }

    fn to_count(x: &Self) -> usize {
        x.0 as usize
    }

    fn dup(&self) -> Self {
        *self
    }

    fn less_law(_x: Self) {}

    fn same_law() {}
}

fn blank_header() -> ArenaHeader {
    ArenaHeader {
        magic: 0,
        version: 0,
        num_slots: 0,
        num_handlers: 0,
        free_q: RingQueue::new(),
        ready_q: (0..MAX_HANDLERS).map(|_| RingQueue::new()).collect(),
        next_handler: 0,
        init_lock: 0,
        init_done: 0,
    }
}

fn arena(num_slots: usize, num_handlers: usize) -> Arena<TilersSlot<F32>> {
    let slots = (0..num_slots).map(|_| TilersSlot::default()).collect();
    match Arena::create_or_open(blank_header(), slots, num_slots, num_handlers) {
        Ok(a) => a,
        Err(e) => panic!("{e:?}"),
    }
}

#[test]
fn a_slot_is_reached_by_its_number() {
    let mut arena = arena(2, 1);
    arena.slot_mut(1).state = SLOT_READY;
    assert_eq!(arena.slot(0).state, SLOT_FREE);
    assert_eq!(arena.slot(1).state, SLOT_READY);
}

#[test]
fn test_ipc_client_claim_release() {
    let mut arena = arena(1, 1);

    // Slot should start free
    assert_eq!(arena.slots[0].state, SLOT_FREE);

    // Simulate claiming
    arena.mark_ready(0, 1, 0, 0);
    assert_eq!(arena.slots[0].state, SLOT_READY);

    // Simulate handler completing
    arena.mark_done(0);
    assert_eq!(arena.slots[0].state, SLOT_DONE);

    // Release back to free
    arena.slots[0].state = SLOT_FREE;
    assert_eq!(arena.slots[0].state, SLOT_FREE);
}

#[test]
fn requests_for_an_arena_are_checked() {
    assert_eq!(check_request(0, 1), Err(ArenaError::NoSlots));
    assert_eq!(
        check_request(QCAP + 1, 1),
        Err(ArenaError::TooManySlots { num_slots: QCAP + 1 })
    );
    assert_eq!(check_request(4, 0), Err(ArenaError::BadHandlers { num_handlers: 0 }));
    assert_eq!(
        check_request(4, MAX_HANDLERS + 1),
        Err(ArenaError::BadHandlers { num_handlers: MAX_HANDLERS + 1 })
    );
    assert_eq!(check_request(4, 2), Ok(()));
    let none: Vec<TilersSlot<F32>> = Vec::new();
    assert_eq!(
        Arena::create_or_open(blank_header(), none, 0, 1).err(),
        Some(ArenaError::NoSlots)
    );
}

#[test]
fn headers_are_checked() {
    let check = |magic, version, slots, handlers| {
        check_header(magic, version, slots, handlers, 4, 2)
    };
    assert_eq!(check(ARENA_MAGIC, ARENA_VERSION, 4, 2), Ok(()));
    assert_eq!(check(1, ARENA_VERSION, 4, 2), Err(ArenaError::MagicMismatch));
    assert_eq!(check(ARENA_MAGIC, 9, 4, 2), Err(ArenaError::VersionMismatch { found: 9 }));
    assert_eq!(
        check(ARENA_MAGIC, ARENA_VERSION, 3, 2),
        Err(ArenaError::SlotsMismatch { found: 3, requested: 4 })
    );
    assert_eq!(
        check(ARENA_MAGIC, ARENA_VERSION, 4, 1),
        Err(ArenaError::HandlersMismatch { found: 1, requested: 2 })
    );
    assert!(matches!(open_step(1, ARENA_MAGIC, ARENA_VERSION, 0), OpenStep::Check));
    assert!(matches!(open_step(0, 0, 0, 0), OpenStep::Initialize));
    assert!(matches!(open_step(0, 0, 0, 1), OpenStep::Wait));
}

#[test]
fn an_arena_opens_again_as_it_was() {
    let mut first = arena(4, 2);
    let slot = first.acquire_slot().unwrap();
    assert_eq!(slot, 0);
    let Arena { hdr, slots, .. } = first;
    let again = match Arena::create_or_open(hdr, slots, 4, 2) {
        Ok(a) => a,
        Err(e) => panic!("{e:?}"),
    };
    assert_eq!(again.num_slots(), 4);
    assert_eq!(again.hdr.free_q.slots[..3], [0, 1, 2]);
    let Arena { hdr, slots, .. } = again;
    assert_eq!(
        Arena::create_or_open(hdr, slots, 4, 1).err(),
        Some(ArenaError::HandlersMismatch { found: 2, requested: 1 })
    );
}

#[test]
fn slots_circulate_and_handlers_take_turns() {
    let mut a = arena(3, 2);
    // The last slot never circulates.
    assert_eq!(a.acquire_slot(), Some(0));
    assert_eq!(a.acquire_slot(), Some(1));
    assert_eq!(a.acquire_slot(), None);
    a.mark_ready(0, 1, 7, 8);
    a.mark_ready(1, 1, 7, 9);
    a.submit_to_handler(0);
    a.submit_to_handler(1);
    assert_eq!(a.pop_ready(0), Some(0));
    assert_eq!(a.pop_ready(0), None);
    assert_eq!(a.pop_ready(1), Some(1));
    assert!(!a.is_done(1));
    a.mark_done(1);
    assert!(a.is_done(1));
    a.clear_outputs(1);
    a.release_slot(1);
    assert_eq!(a.slots[1].state, SLOT_FREE);
    assert_eq!(a.acquire_slot(), Some(1));
    assert_eq!(a.pick_handler(), 0);
    assert_eq!(a.pick_handler(), 1);
    assert_eq!(a.pick_handler(), 0);
}

#[test]
fn handlers_take_turns_over_a_whole_run() {
    let mut a = arena(9, 3);
    let mut taken: Vec<Vec<u32>> = vec![Vec::new(); 3];
    let mut submitted: Vec<u32> = Vec::new();
    for round in 0..20usize {
        while let Some(slot) = a.acquire_slot() {
            submitted.push(slot);
            a.submit_to_handler(slot);
        }
        // The handlers ask at different times.
        for h in 0..3 {
            for _ in 0..(1 + (round + h) % 3) {
                if let Some(slot) = a.pop_ready(h) {
                    taken[h].push(slot);
                    a.release_slot(slot);
                }
            }
        }
    }
    for (h, got) in taken.iter().enumerate() {
        let owed: Vec<u32> = submitted.iter().copied().skip(h).step_by(3).collect();
        assert!(got.len() > 10);
        assert_eq!(got[..], owed[..got.len()]);
    }
}

#[test]
fn turns_and_answers_are_told_apart() {
    let turns: Vec<usize> = (0..5).map(|k| handler_of(k, 3)).collect();
    assert_eq!(turns, vec![0, 1, 2, 0, 1]);
    assert_eq!(check_answer(5, 7, 5, 7), Ok(()));
    for (owner, req) in [(6, 7), (5, 8)] {
        assert_eq!(
            check_answer(5, 7, owner, req),
            Err(ClientError::Mismatch {
                owner_id: 5,
                req_id: 7,
                found_owner_id: owner,
                found_req_id: req,
            })
        );
    }
}

#[test]
fn a_full_queue_stays_where_it_is() {
    let mut q = RingQueue::new();
    for x in 0..(QCAP as u32 - 1) {
        assert_eq!(q.try_push(x), Ok(()));
    }
    assert_eq!((q.head, q.tail), (0, QCAP as u32 - 1));
    assert_eq!(q.try_push(7), Err(()));
    assert_eq!((q.head, q.tail), (0, QCAP as u32 - 1));
    assert_eq!(q.try_pop(), Some(0));
    assert_eq!((q.head, q.tail), (1, QCAP as u32 - 1));
    assert_eq!(q.try_push(7), Ok(()));
    assert_eq!((q.head, q.tail), (1, 0));
}

#[test]
fn a_response_keeps_its_positive_priors_and_no_older_ones() {
    let mut pad: ResponseScratchPad<F32> = ResponseScratchPad::new(1);
    pad.pack(&[HashMap::from([(3u16, F32(0.5)), (9, F32(0.5))])], &[F32(1.0)]);
    pad.pack(&[HashMap::from([(4u16, F32(0.75)), (5, F32(0.0)), (6, F32(-0.5))])], &[F32(0.25)]);
    let (priors, values) = pad.unpack();
    assert_eq!(priors[0], HashMap::from([(4, F32(0.75))]));
    assert_eq!(values, vec![F32(0.25)]);
}

#[test]
fn names_of_arenas() {
    assert_eq!(number_text(0), "0");
    assert_eq!(number_text(1200450), "1200450");
    assert_eq!(arena_file_path("x"), "/tmp/x.mmap");
    assert!(arena_name(64, 2).contains("64"));
}

fn obs(h: usize, w: usize) -> TilersObs {
    let cell = BoardCell {
        qubit_role: 1,
        factor_kind: 2,
        resource_kind: 3,
        pp_group_row: 4,
        pp_group_col: 5,
        ancilla_idx: 6,
        last_move_dir: 7,
        weight_in_pp: 8,
        is_hub_for_pp: 9,
        is_y_ready: 10,
    };
    let mask: Vec<bool> = (0..7).map(|a| a % 3 == 1).collect();
    build_obs(h, w, 1, vec![vec![cell; h * w]], &mask)
}

#[test]
fn a_request_travels_through_the_arena() {
    let mut a = arena(3, 1);
    let mut client = TilersIpcClient::new(5);
    let batch = vec![obs(2, 2), obs(2, 3)];
    assert_eq!(client.begin(&mut a, &[]).err(), Some(ClientError::Batch { batch: 0 }));
    let many: Vec<TilersObs> = (0..9).map(|_| obs(1, 1)).collect();
    assert_eq!(client.begin(&mut a, &many).err(), Some(ClientError::Batch { batch: 9 }));
    let (slot, req) = match client.begin(&mut a, &batch) {
        Ok(x) => x,
        Err(e) => panic!("{e:?}"),
    };
    assert_eq!(a.pop_ready(0), Some(slot));
    assert_eq!(a.slots[slot as usize].owner_id, 5);
    let seen = a.slots[slot as usize].unpack_observations();
    assert_eq!(seen, batch);
    let s = &mut a.slots[slot as usize];
    assert_eq!(s.batch_len(), 2);
    let width = s.priors.len() / 8;
    let mut priors = vec![F32(0.0); 2 * width];
    priors[1] = F32(0.25);
    priors[width + 4] = F32(0.75);
    assert_eq!(
        s.write_priors_values(&priors[1..], &[F32(0.5), F32(-0.5)]),
        Err(WriteError::Priors { expected: 2 * width, found: 2 * width - 1 })
    );
    assert_eq!(
        s.write_priors_values(&priors, &[F32(0.5)]),
        Err(WriteError::Values { expected: 2, found: 1 })
    );
    assert_eq!(s.write_priors_values(&priors, &[F32(0.5), F32(-0.5)]), Ok(()));
    a.mark_done(slot);
    let (got, values) = match client.finish(&mut a, slot, req, &batch) {
        Ok(x) => x,
        Err(e) => panic!("{e:?}"),
    };
    assert_eq!(values, vec![F32(0.5), F32(-0.5)]);
    assert_eq!(got[0], HashMap::from([(1, F32(0.25)), (4, F32(0.0))]));
    assert_eq!(got[1], HashMap::from([(1, F32(0.0)), (4, F32(0.75))]));
}

#[test]
fn foreign_answers_and_full_arenas_are_refused() {
    let mut a = arena(2, 1);
    let mut client = TilersIpcClient::new(5).with_timing(true);
    let batch = vec![obs(2, 2)];
    let (slot, req) = match client.begin(&mut a, &batch) {
        Ok(x) => x,
        Err(e) => panic!("{e:?}"),
    };
    assert_eq!(client.begin(&mut a, &batch).err(), Some(ClientError::NoFreeSlot));
    a.slots[slot as usize].owner_id = 6;
    a.mark_done(slot);
    assert_eq!(
        client.finish(&mut a, slot, req, &batch).err(),
        Some(ClientError::Mismatch {
            owner_id: 5,
            req_id: req,
            found_owner_id: 6,
            found_req_id: req,
        })
    );
    // A board with too many layers gives the slot back, behind the others.
    let mut b = arena(4, 1);
    let layer = obs(1, 1).board[0].clone();
    let tall = build_obs(1, 1, 1, vec![layer; 4], &vec![true]);
    let mut other = TilersIpcClient::new(3);
    assert_eq!(other.begin(&mut b, &[tall]).err(), Some(ClientError::Layers { layers: 4 }));
    assert_eq!(other.next_req_id, 1);
    assert_eq!(b.slots[0].state, SLOT_FREE);
    assert_eq!(b.pop_ready(0), None);
    assert_eq!(b.hdr.next_handler, 0);
    let order: Vec<u32> = (0..3).map(|_| b.acquire_slot().unwrap()).collect();
    assert_eq!((order, b.acquire_slot()), (vec![1, 2, 0], None));
    let trivial = TrivialTilersIpcClient {};
    let (priors, values): (Vec<HashMap<Action, F32>>, Vec<F32>) = trivial.infer(&batch);
    assert_eq!(priors[0], HashMap::from([(1, F32(1.0)), (4, F32(1.0))]));
    assert_eq!(values, vec![F32(0.0)]);
    let prior = read_prior(&vec![true, false], &vec![F32(0.5), F32(0.25), F32(0.125)], 1);
    assert_eq!(prior, HashMap::from([(0, F32(0.25))]));
}

#[test]
fn slots_refuse_batches_they_cannot_hold() {
    let mut s: TilersSlot<F32> = TilersSlot::default();
    let many: Vec<TilersObs> = (0..9).map(|_| obs(1, 1)).collect();
    assert_eq!(s.pack_observations(&many), Err(BatchError::Size { batch: 9 }));
    assert_eq!(s.pack_observations(&[]), Err(BatchError::Size { batch: 0 }));
    // Three layers have room, a fourth has not, and then nothing is packed.
    let tall = |layers: usize| {
        let layer = obs(1, 1).board[0].clone();
        build_obs(1, 1, 1, vec![layer; layers], &vec![true])
    };
    assert_eq!(s.pack_observations(&[obs(2, 2), tall(4)]), Err(BatchError::Layers { layers: 4 }));
    assert_eq!((s.b, s.h[0]), (0, 0));
    assert_eq!(check_batch(&[tall(3), tall(5), tall(4)]), Err(BatchError::Layers { layers: 5 }));
    assert_eq!(s.pack_observations(&[tall(3)]), Ok(()));
    assert_eq!((s.b, s.num_layers[0]), (1, 3));
    let mut core: Slot<F32> = Slot::new();
    core.init_free();
    assert_eq!(core.state, SLOT_FREE);
    core.b = 2;
    let prior = HashMap::from([(3u16, F32(0.5))]);
    assert_eq!(
        core.pack_priors_values(&vec![prior.clone()], &vec![F32(1.0), F32(1.0)]),
        Err(PackError::Priors { given: 1, batch: 2 })
    );
    assert_eq!(
        core.pack_priors_values(&vec![prior.clone(), prior.clone()], &vec![F32(1.0)]),
        Err(PackError::Values { given: 1, batch: 2 })
    );
    assert_eq!(
        core.pack_priors_values(&vec![prior.clone(), prior], &vec![F32(1.0), F32(2.0)]),
        Ok(())
    );
    assert_eq!(core.values[1], F32(2.0));
    assert_eq!((lookahead(0), lookahead(1), lookahead(4)), (0, 0, 3));
}

fn token_obs(n: u16) -> Observation {
    let tuple: ObservationTuple = (
        vec![n, n + 1, 2, 4],
        vec![5],
        vec![6, 7],
        2,
        2,
        vec![1, 7, 100],
    );
    Observation::from(tuple)
}

#[test]
fn pads_give_back_what_was_packed() {
    let mut pad = RequestScratchPad::new(MAX_BATCH);
    let batch = vec![token_obs(1), token_obs(9)];
    pad.pack(&batch);
    let back = pad.unpack();
    assert_eq!(back[0], batch[0]);
    assert_eq!(back[1], batch[1]);
    let mut response: ResponseScratchPad<F32> = ResponseScratchPad::new(2);
    let prior = HashMap::from([(1u16, F32(0.25)), (100u16, F32(0.75))]);
    response.pack(&[prior.clone(), HashMap::new()], &[F32(0.5), F32(-1.0)]);
    let (priors, values) = response.unpack();
    assert_eq!(priors[0][&1], F32(0.25));
    assert_eq!(priors[0][&100], F32(0.75));
    assert_eq!(values, vec![F32(0.5), F32(-1.0)]);
    let tuple: ObservationTuple = token_obs(3).into();
    assert_eq!(tuple.0, vec![3, 4, 2, 4]);
}

#[test]
fn queues_wrap_and_waiting_backs_off() {
    assert_eq!(ring_push(0, 0), Some(1));
    assert_eq!(ring_push(1, 0), None);
    assert_eq!(ring_push(0, QCAP as u32 - 1), None);
    assert_eq!(ring_pop(3, 3), None);
    assert_eq!(ring_pop(QCAP as u32 - 1, 5), Some(0));
    assert!(matches!(lock_backoff(0), Backoff::Spin));
    assert!(matches!(queue_backoff(0), Backoff::Spin));
    assert!(matches!(done_backoff(0), Backoff::Spin));
    assert!(!matches!(queue_backoff(1_000_000), Backoff::Spin));
    let mut lock = SpinLock { flag: 9 };
    lock.init();
    assert!(lock.try_lock());
    assert!(!lock.try_lock());
    lock.unlock();
    assert!(lock.try_lock());
}

// Boards.

fn matrix<T: Clone>(rows: Vec<Vec<T>>) -> Matrix<T> {
    Matrix { cols: rows[0].len(), rows }
}

#[test]
fn numbers_are_read_from_bytes() {
    assert_eq!(le_i32(1, 2, 0, 0), 513);
    assert_eq!(le_i32(255, 255, 255, 255), -1);
    assert_eq!(sign_extend(255), -1);
    assert_eq!(sign_extend(7), 7);
    assert_eq!((QUBIT_SIZE, OBJECTIVE_SIZE), (5, 9));
}

#[test]
fn placements_are_unpacked() {
    let raw = matrix(vec![vec![3u8, 0, 0, 0, 1, 254, 255, 255, 255, 0]]);
    let (ids, oris) = unpack_placement_batch_rs(&raw, &vec![2]);
    assert_eq!(ids.rows, vec![vec![3, -2]]);
    assert_eq!(oris.rows, vec![vec![1, 0]]);
}

#[test]
fn objectives_are_unpacked() {
    // A gate on qubits 0 and 1.
    let raw = matrix(vec![vec![12u8, 0, 0, 0, 0, 1, 0, 0, 0]]);
    let layers = unpack_objectives_batch_rs(&raw, &vec![1], &matrix(vec![vec![1u16]]), 9);
    assert_eq!(layers.len(), 1);
    assert_eq!(layers[0].opcodes.rows[0][0], 12);
    assert_eq!(layers[0].arg0s.rows[0][0], 0);
    assert_eq!(layers[0].arg1s.rows[0][0], 1);
    // Counts of states that are not there are not looked at.
    let counts = matrix(vec![vec![1u16], vec![5]]);
    let layers = unpack_objectives_batch_rs(&raw, &vec![1, 2], &counts, 9);
    assert_eq!(layers.len(), 2);
    assert_eq!(layers[0].opcodes.rows, vec![vec![12]]);
    assert_eq!(layers[1].opcodes.rows, vec![vec![0]]);
}

#[test]
fn a_board_needs_only_what_is_read_of_it() {
    let row = |n: i32| matrix(vec![vec![n; 3]; 2]);
    let input = BoardInput {
        // The columns past the qubits hold what no ancilla has.
        qubit_ids: matrix(vec![vec![-1, i32::MIN, i32::MIN], vec![i32::MIN, 4, 4]]),
        // The second state has no orientations.
        qubit_oris: matrix(vec![vec![2u8, 0]]),
        num_qubits: vec![1, 900],
        widths: vec![2, 0],
        obj_layers: vec![
            // The arguments are wider than the gates, and not all are there.
            ObjectiveLayer { opcodes: matrix(vec![vec![3]]), arg0s: row(7), arg1s: row(0) },
            ObjectiveLayer {
                opcodes: matrix(vec![vec![0; 0]]),
                arg0s: matrix(vec![vec![0; 0]]),
                arg1s: matrix(vec![vec![0; 0]]),
            },
        ],
        num_layers: vec![2, 200],
        num_objectives: matrix(vec![vec![1u16, 0]]),
        last_dir_vertical: matrix(vec![vec![1u8]]),
    };
    let boards = build_boards_rs(&input);
    let none = BoardToken { op: 0, ori: 0, mate_row: 0, mate_col: 0 };
    let ancilla = BoardToken { op: 14, ori: 7, mate_row: NO_MATE, mate_col: NO_MATE };
    assert_eq!(boards[0], vec![vec![ancilla, none, none]; 2]);
    assert_eq!(boards[1], vec![vec![none; 3]; 2]);
    // An orientation that is not given has the token 0.
    let input = BoardInput {
        qubit_ids: matrix(vec![vec![-2]]),
        qubit_oris: Matrix { cols: 0, rows: vec![vec![]] },
        num_qubits: vec![1],
        widths: vec![1],
        obj_layers: vec![ObjectiveLayer {
            opcodes: matrix(vec![vec![0]]),
            arg0s: matrix(vec![vec![0]]),
            arg1s: matrix(vec![vec![0]]),
        }],
        num_layers: vec![1],
        num_objectives: matrix(vec![vec![0u16]]),
        last_dir_vertical: Matrix { cols: 0, rows: vec![] },
    };
    let token = BoardToken { op: 15, ori: 0, mate_row: NO_MATE, mate_col: NO_MATE };
    assert_eq!(build_boards_rs(&input), vec![vec![vec![token]]]);
}

#[test]
fn gates_on_two_qubits_know_their_mates() {
    let input = BoardInput {
        qubit_ids: matrix(vec![vec![0, 1, 2, 3]]),
        qubit_oris: matrix(vec![vec![0u8, 1, 0, 1]]),
        num_qubits: vec![4],
        widths: vec![2],
        obj_layers: vec![ObjectiveLayer {
            opcodes: matrix(vec![vec![12, 3]]),
            arg0s: matrix(vec![vec![0, 2]]),
            arg1s: matrix(vec![vec![3, -1]]),
        }],
        num_layers: vec![1],
        num_objectives: matrix(vec![vec![2u16]]),
        last_dir_vertical: matrix(vec![vec![0u8, 0, 0, 0]]),
    };
    let boards = build_boards_rs(&input);
    assert_eq!(boards.len(), 1);
    let layer = &boards[0][0];
    let ops: Vec<i32> = layer.iter().map(|t| t.op).collect();
    assert!(ops.contains(&TOKEN_CX_CONTROL));
    assert!(ops.contains(&TOKEN_CX_TARGET));
    let control = layer.iter().find(|t| t.op == TOKEN_CX_CONTROL).unwrap();
    assert_eq!((control.mate_row, control.mate_col), (1, 1));
    let target = layer.iter().find(|t| t.op == TOKEN_CX_TARGET).unwrap();
    assert_eq!((target.mate_row, target.mate_col), (0, 0));
    let single = layer.iter().find(|t| t.op == opcode_token(3)).unwrap();
    assert_eq!(single.mate_row, NO_MATE);
    assert_eq!(opcode_token(99), 1);
    assert!(ori_token(0) != ori_token(1));
}

// Evaluation.

#[test]
fn test_new_stores_params() {
    let e = Evaluator::new(50, F32(1.5), F32(0.4), F32(1.2));
    assert_eq!(e.mcts_steps, 50);
    assert!((e.c_puct.0 - 1.5).abs() < 1e-6);
    assert!((e.reward_saturation_temperature.0 - 0.4).abs() < 1e-6);
}

#[derive(Clone, Debug)]
struct Trail {
    at: u64,
    goal: u64,
}

impl Environment for Trail {
    type Act = Action;
    type Obs = TilersObs;

    fn clone_law(_a: Self, _b: Self) {}

    fn slots_law(_id: u64) {}

    fn step(&mut self, action: Action) {
        if action == 4 {
            self.at += 1;
        }
    }

    fn observation(&self) -> TilersObs {
        obs(1, 1)
    }

    fn valid_actions(&self) -> Vec<Action> {
        if self.done() {
            vec![]
        } else {
            vec![1, 4]
        }
    }

    fn num_actions(&self) -> usize {
        7
    }

    fn done(&self) -> bool {
        self.at >= self.goal
    }

    fn hash(&self) -> u64 {
        self.at
    }

    fn render(&self) -> String {
        format!("at {}", self.at)
    }
}

struct Eager;

impl InferenceClient<Trail, F32> for Eager {
    fn infer(
        &self,
        observations: &[TilersObs],
    ) -> Result<(Vec<HashMap<Action, F32>>, Vec<F32>), InferenceError> {
        let prior: HashMap<Action, F32> = HashMap::from([(1, F32(0.1)), (4, F32(0.9))]);
        Ok((vec![prior; observations.len()], vec![F32(0.0); observations.len()]))
    }
}

struct Mute;

impl InferenceClient<Trail, F32> for Mute {
    fn infer(
        &self,
        _observations: &[TilersObs],
    ) -> Result<(Vec<HashMap<Action, F32>>, Vec<F32>), InferenceError> {
        Err(InferenceError::Empty)
    }
}

#[test]
fn an_instance_is_played_greedily() {
    let e = Evaluator::new(50, F32(1.4), F32(1.0), F32(1.2));
    assert_eq!(EVAL_BATCH, 8);
    let depth = |t: &Trail| F32(t.at as f32);
    let mut env = Trail { at: 0, goal: 3 };
    let line = e.evaluate_single(&mut env, &F32(3.0), 9, &Eager, &depth).unwrap();
    assert!(env.done());
    assert_eq!(line.iter().filter(|&&a| a == 4).count(), 3);
    let mut env = Trail { at: 0, goal: 30 };
    let line = e.evaluate_single(&mut env, &F32(3.0), 4, &Eager, &depth).unwrap();
    assert_eq!(line.len(), 4);
    let mut env = Trail { at: 0, goal: 3 };
    assert_eq!(
        e.evaluate_single(&mut env, &F32(3.0), 9, &Mute, &depth).err(),
        Some(InferenceError::Empty)
    );
}

#[test]
fn the_budget_is_rounded_up() {
    let e = Evaluator::new(50, F32(1.4), F32(1.0), F32(1.25));
    assert_eq!(e.action_budget(Some(4)), 5);
    assert_eq!(e.action_budget(Some(5)), 7);
    assert_eq!(e.action_budget(Some(0)), 0);
    assert_eq!(e.action_budget(None), 1000);
}

/// A walk that goes nowhere.
#[derive(Clone, Debug)]
struct Wall;

impl Environment for Wall {
    type Act = Action;
    type Obs = TilersObs;

    fn clone_law(_a: Self, _b: Self) {}

    fn slots_law(_id: u64) {}

    fn step(&mut self, _action: Action) {}

    fn observation(&self) -> TilersObs {
        obs(1, 1)
    }

    fn valid_actions(&self) -> Vec<Action> {
        vec![]
    }

    fn num_actions(&self) -> usize {
        7
    }

    fn done(&self) -> bool {
        false
    }

    fn hash(&self) -> u64 {
        1
    }

    fn render(&self) -> String {
        "a wall".to_string()
    }
}

impl InferenceClient<Wall, F32> for Mute {
    fn infer(
        &self,
        _observations: &[TilersObs],
    ) -> Result<(Vec<HashMap<Action, F32>>, Vec<F32>), InferenceError> {
        Err(InferenceError::Empty)
    }
}

#[test]
fn an_instance_without_actions_needs_no_answer() {
    let e = Evaluator::new(50, F32(1.4), F32(1.0), F32(1.2));
    let depth = |_: &Wall| F32(2.0);
    let line = e.evaluate_single(&mut Wall, &F32(3.0), 9, &Mute, &depth);
    assert_eq!(line, Ok(vec![]));
    let exam = Exam {
        depth,
        reference: |_: &Wall| Some(F32(3.0)),
        plan_len: |_: &Wall| None,
        look_back: |_: &Wall, _: &Wall| Hindsight::Unsolved(1),
    };
    let (actions, v) = e.assess(Wall, 6, &Mute, &exam).unwrap().unwrap();
    assert!(actions.is_empty());
    assert_eq!((v.solution_depth, v.achieved_objectives, v.eval_reward), (None, 1, F32(-1.0)));
}

#[test]
fn an_instance_is_assessed() {
    let e = Evaluator::new(50, F32(1.4), F32(1.0), F32(1.2));
    let depth = |t: &Trail| F32(t.at as f32);
    let nothing = |_: &Trail, _: &Trail| Hindsight::Nothing;
    let exam = Exam {
        depth,
        reference: |_: &Trail| Some(F32(3.0)),
        plan_len: |_: &Trail| Some(20),
        look_back: nothing,
    };
    let start = Trail { at: 0, goal: 3 };
    let (actions, v) = e.assess(start.clone(), 6, &Eager, &exam).unwrap().unwrap();
    assert_eq!(actions.iter().filter(|&&a| a == 4).count(), 3);
    assert_eq!(v.solution_depth, Some(F32(3.0)));
    assert_eq!((v.achieved_objectives, v.eval_reward), (6, F32(0.0)));
    assert_eq!(e.assess(start.clone(), 6, &Mute, &exam).err(), Some(InferenceError::Empty));
    let unsolvable = Exam {
        depth,
        reference: |_: &Trail| None,
        plan_len: |_: &Trail| Some(20),
        look_back: nothing,
    };
    assert!(e.assess(start, 6, &Mute, &unsolvable).unwrap().is_none());
    let short = Exam {
        depth,
        reference: |_: &Trail| Some(F32(3.0)),
        plan_len: |_: &Trail| Some(3),
        look_back: |a: &Trail, b: &Trail| Hindsight::Unsolved((b.at - a.at) as usize + 10),
    };
    let (actions, v) =
        e.assess(Trail { at: 0, goal: 30 }, 6, &Eager, &short).unwrap().unwrap();
    // A multiple of 1.2 on 3 actions, rounded up.
    assert_eq!(actions.len(), 4);
    assert_eq!(v.solution_depth, None);
    let steps = actions.iter().filter(|&&a| a == 4).count();
    assert_eq!((v.achieved_objectives, v.eval_reward), (steps + 10, F32(-1.0)));
}

#[test]
fn verdicts_on_an_instance() {
    let e = Evaluator::new(50, F32(1.4), F32(1.0), F32(1.2));
    let v = e.verdict(&F32(20.0), true, &F32(15.0), 6, &Hindsight::Nothing);
    assert_eq!(v.solution_depth, Some(F32(15.0)));
    assert_eq!(v.achieved_objectives, 6);
    assert_eq!(v.eval_reward, done_score(&F32(20.0), &F32(15.0), &F32(1.0)));
    assert_eq!(v.eval_reward, e.terminal_value(true, &F32(20.0), &F32(15.0)));
    let v = e.verdict(&F32(20.0), false, &F32(15.0), 6, &Hindsight::Unsolved(2));
    assert_eq!((v.solution_depth, v.achieved_objectives), (None, 2));
    assert_eq!(v.eval_reward, F32(-1.0));
    let v = e.verdict(&F32(20.0), false, &F32(15.0), 6, &Hindsight::Solved(2, F32(15.0)));
    assert_eq!((v.achieved_objectives, v.eval_reward), (2, F32(0.0)));
    let v = e.verdict(&F32(20.0), false, &F32(15.0), 6, &Hindsight::Nothing);
    assert_eq!((v.achieved_objectives, v.eval_reward), (0, F32(-1.0)));
}

#[test]
fn lines_of_play_as_text() {
    assert_eq!(actions_text(Some(vec![4, 1, 300])), "[4,1,300]");
    assert_eq!(actions_text(Some(vec![])), "[]");
    assert_eq!(actions_text(None), "\"heuristic_unsolvable\"");
    assert_eq!(greedy_action(&[1, 4, 5], &vec![0, 7, 0, 0, 7, 2]), 4);
    assert_eq!(holdout_params(Some(3), 1, 4), vec![3, 4, 1]);
    assert_eq!(holdout_params(None, 1, 4), vec![4, 1]);
    assert!(holdout_query(true).contains("WHERE difficulty_bin <= ?"));
    assert!(!holdout_query(false).contains("<= ?"));
}
