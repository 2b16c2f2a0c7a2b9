//! Self-play: moves, rewards, climbs, episodes and what is written of them.

use mcts::climb::{next_prefix_probe, CuspSearch};
use mcts::environment::Environment;
use mcts::episode::{Episode, EpisodeOutcome, Instance, SearchPlan, StepRecord, Turn, TurnRecord};
use mcts::gatherer::Gatherer;
use mcts::generation::{
    degenerate, full_weight, learnable_range, may_be_learnable, most_clusters, tagged_arena_name,
    Limits, Route, Shape, Shaping,
};
use mcts::grading::{
    cusp_factor_reward, cusp_partial_reward, pp_weights, Ending, Hindsight, Reference, RewardKind,
};
use mcts::inference::{InferenceClient, InferenceError};
use mcts::moves::{action_probabilities, dirichlet_alpha, dirichlet_noise};
use mcts::node::Node;
use mcts::playthrough::{draw_samples, run_episode, Chance, EpisodeError};
use mcts::records::{
    is_valid, output_path, serialize_board, trajectory_record, trajectory_value,
    trajectory_weights, Field,
};
use mcts::reward::{done_score, not_done_score, reference_suffix, suffix_score, terminal_score};
use mcts::scalar::{Binary, Convert, Scalar, Unary};
use mcts::session::{Demonstration, Gathered, Look, Solver, Survey};
use mcts::tilers_obs::{build_obs, Action, BoardCell, TilersObs, CELL_FIELDS};
use rand::distr::weighted::WeightedIndex;
use rand::rngs::StdRng;
use rand::{RngExt, SeedableRng};
use rand_distr::{Distribution, Gamma};
use std::collections::HashMap;
use std::hint::black_box;

/// Machine numbers of single precision.
#[derive(Clone, Copy, Debug, PartialEq)]
struct F32(f32);

impl Scalar for F32 {
    fn decimal(digits: i64, exponent: i32) -> Self {
        F32(format!("{}e{}", digits, exponent).parse::<f32>().unwrap())
    }

    fn count(n: usize) -> Self {
        F32(n as f32)
    }

    fn infinity(positive: bool) -> Self {
        F32(if positive { f32::INFINITY } else { f32::NEG_INFINITY })
    }

    fn unary(op: Unary, x: &Self) -> Self {
        F32(match op {
            Unary::Abs => x.0.abs(),
            Unary::Sqrt => x.0.sqrt(),
            Unary::Tanh => x.0.tanh(),
            Unary::Exp => x.0.exp(),
            Unary::Ln => x.0.ln(),
            Unary::Ceil => x.0.ceil(),
            Unary::Floor => x.0.floor(),
            Unary::Round => x.0.round(),
        })
    }

    fn binary(op: Binary, x: &Self, y: &Self) -> Self {
        F32(match op {
            Binary::Plus => x.0 + y.0,
            Binary::Minus => x.0 - y.0,
            Binary::Times => x.0 * y.0,
            Binary::Over => x.0 / y.0,
            Binary::Power => x.0.powf(y.0),
            Binary::Max => x.0.max(y.0),
            Binary::Min => x.0.min(y.0),
        })
    }

    fn raise(x: &Self, n: usize) -> Self {
        F32(x.0.powi(n as i32))
    }

    fn less(x: &Self, y: &Self) -> bool {
        x.0 < y.0
    }

    fn same(x: &Self, y: &Self) -> bool {
        x.0 == y.0
    }

    fn to_count(x: &Self) -> usize {
        x.0 as usize
    }

    fn dup(&self) -> Self {
        *self
    }

    fn less_law(_x: Self) {}

    fn same_law() {}
}

/// Machine numbers of double precision.
#[derive(Clone, Copy, Debug, PartialEq)]
struct F64(f64);

impl Scalar for F64 {
    fn decimal(digits: i64, exponent: i32) -> Self {
        F64(format!("{}e{}", digits, exponent).parse::<f64>().unwrap())
    }

    fn count(n: usize) -> Self {
        F64(n as f64)
    }

    fn infinity(positive: bool) -> Self {
        F64(if positive { f64::INFINITY } else { f64::NEG_INFINITY })
    }

    fn unary(op: Unary, x: &Self) -> Self {
        F64(match op {
            Unary::Abs => x.0.abs(),
            Unary::Sqrt => x.0.sqrt(),
            Unary::Tanh => x.0.tanh(),
            Unary::Exp => x.0.exp(),
            Unary::Ln => x.0.ln(),
            Unary::Ceil => x.0.ceil(),
            Unary::Floor => x.0.floor(),
            Unary::Round => x.0.round(),
        })
    }

    fn binary(op: Binary, x: &Self, y: &Self) -> Self {
        F64(match op {
            Binary::Plus => x.0 + y.0,
            Binary::Minus => x.0 - y.0,
            Binary::Times => x.0 * y.0,
            Binary::Over => x.0 / y.0,
            Binary::Power => x.0.powf(y.0),
            Binary::Max => x.0.max(y.0),
            Binary::Min => x.0.min(y.0),
        })
    }

    fn raise(x: &Self, n: usize) -> Self {
        F64(x.0.powi(n as i32))
    }

    fn less(x: &Self, y: &Self) -> bool {
        x.0 < y.0
    }

    fn same(x: &Self, y: &Self) -> bool {
        x.0 == y.0
    }

    fn to_count(x: &Self) -> usize {
        x.0 as usize
    }

    fn dup(&self) -> Self {
        *self
    }

    fn less_law(_x: Self) {}

    fn same_law() {}
}

impl Convert<F64> for F32 {
    fn convert(&self) -> F64 {
        F64(self.0 as f64)
    }
}

impl Convert<F32> for F64 {
    fn convert(&self) -> F32 {
        F32(self.0 as f32)
    }
}

type G = Gatherer<F32, F64>;

fn default_gatherer(output_path: &str) -> G {
    Gatherer::new(
        1,                       // batch_size
        5,                       // mcts_steps
        2,                       // fast_steps
        F32(1.0),                // p_full_search (all turns are full searches)
        output_path.to_string(),
        F64(0.0),                // noise_strength
        F32(0.0),                // dirichlet_epsilon
        1,                       // lookahead
        0,                       // gather_id
        None,                    // trajectory_dir
        Some(F32(1.0)),          // reward_saturation_temperature
        None,                    // max_actions
        None,                    // max_action_multiplier (default 1.2)
        Some(F32(2.0)),          // resign_value_threshold (>1.0 disables)
        Some(0),                 // resign_consecutive_moves (0 disables)
        None,                    // resign_min_step_ref_mult (moot: resignation off)
        Some(F32(0.0)),          // no_resign_rate
        None,                    // resignation_log_dir
        None,                    // floor_keep_fraction (default 1.0)
        None,                    // her_reward_margin (default 0.0)
    )
}

/// Randomness from a seed.
struct Dice(StdRng);

impl Chance<F32, F64> for Dice {
    fn unit(&mut self) -> F32 {
        F32(self.0.random::<f32>())
    }

    fn gamma(&mut self, shape: &F64) -> F64 {
        F64(Gamma::new(shape.0, 1.0).unwrap().sample(&mut self.0))
    }

    fn between(&mut self, lo: usize, hi: usize) -> usize {
        self.0.random_range(lo..=hi)
    }

    fn weighted(&mut self, weights: &Vec<F64>) -> Option<usize> {
        let raw: Vec<f64> = weights.iter().map(|w| w.0).collect();
        match WeightedIndex::new(&raw) {
            Ok(dist) => Some(dist.sample(&mut self.0)),
            Err(_) => None,
        }
    }
}

fn dice(seed: u64) -> Dice {
    Dice(StdRng::seed_from_u64(seed))
}

fn noise(n: usize, seed: u64) -> Vec<F64> {
    dirichlet_noise(draw_samples::<F32, F64, Dice>(&mut dice(seed), n))
}

#[test]
fn test_new_sets_explicit_reward_saturation_temperature() {
    let g: G = Gatherer::new(
        8, 10, 2, F32(0.5), "/dev/null".to_string(), F64(0.1), F32(0.25), 2, 1,
        None, Some(F32(0.3)), Some(100), None, None, None, None, None, None, None, None,
    );
    assert!((g.reward_saturation_temperature.0 - 0.3).abs() < 1e-6);
    assert_eq!(g.mcts_steps, 10);
    assert_eq!(g.fast_steps, 2);
}

fn plain_gatherer() -> G {
    Gatherer::new(
        8, 10, 2, F32(0.5), "/dev/null".to_string(), F64(0.0), F32(0.0), 2, 0,
        None, None, None, None, None, None, None, None, None, None, None,
    )
}

#[test]
fn test_new_defaults_reward_saturation_temperature() {
    let g = plain_gatherer();
    assert!((g.reward_saturation_temperature.0 - 0.3).abs() < 1e-6);
}

#[test]
fn test_new_defaults_resignation_params() {
    let g = plain_gatherer();
    assert!((g.resign_value_threshold.0 - (-0.9)).abs() < 1e-6);
    assert_eq!(g.resign_consecutive_moves, 5);
    assert!((g.no_resign_rate.0 - 0.1).abs() < 1e-6);
}

#[test]
fn test_new_sets_explicit_resignation_params() {
    let g: G = Gatherer::new(
        8, 10, 2, F32(0.5), "/dev/null".to_string(), F64(0.0), F32(0.0), 2, 0,
        None, None, None, None, Some(F32(-0.5)), Some(8), None, Some(F32(0.2)), None, None, None,
    );
    assert!((g.resign_value_threshold.0 - (-0.5)).abs() < 1e-6);
    assert_eq!(g.resign_consecutive_moves, 8);
    assert!((g.no_resign_rate.0 - 0.2).abs() < 1e-6);
}

#[test]
fn test_dirichlet_noise_correct_length() {
    assert_eq!(noise(7, 42).len(), 7);
}

#[test]
fn test_dirichlet_noise_non_negative() {
    assert!(noise(10, 42).iter().all(|v| v.0 >= 0.0));
}

#[test]
fn test_dirichlet_noise_sums_to_one() {
    let sum: f64 = noise(10, 42).iter().map(|v| v.0).sum();
    assert!((sum - 1.0).abs() < 1e-6, "sum={sum}");
}

#[test]
fn test_dirichlet_noise_single_action_is_one() {
    let noise = noise(1, 0);
    assert_eq!(noise.len(), 1);
    assert!((noise[0].0 - 1.0).abs() < 1e-6);
}

#[test]
fn noise_without_mass_stays() {
    assert_eq!(dirichlet_noise(vec![F64(0.0), F64(0.0)]), vec![F64(0.0), F64(0.0)]);
    assert_eq!(dirichlet_noise(vec![F64(1.0), F64(3.0)]), vec![F64(0.25), F64(0.75)]);
    assert_eq!(dirichlet_alpha::<F64>(5), F64(0.5));
    assert_eq!(dirichlet_alpha::<F64>(40), F64(0.25));
}

#[test]
fn test_action_probs_uniform_when_all_zero_visits() {
    let probs = action_probabilities(&[0, 0, 0, 0], F64(1.0));
    assert_eq!(probs.len(), 4);
    for p in &probs {
        assert!((p.0 - 0.25).abs() < 1e-9, "expected 0.25 got {}", p.0);
    }
}

#[test]
fn test_action_probs_greedy_picks_max_visit() {
    let probs = action_probabilities(&[1, 5, 2], F64(0.0));
    assert!((probs[1].0 - 1.0).abs() < 1e-9, "probs[1]={}", probs[1].0);
    assert!(probs[0].0 < 1e-9);
    assert!(probs[2].0 < 1e-9);
}

#[test]
fn test_action_probs_greedy_splits_ties_equally() {
    let probs = action_probabilities(&[5, 5, 1], F64(0.0));
    assert!((probs[0].0 - 0.5).abs() < 1e-9);
    assert!((probs[1].0 - 0.5).abs() < 1e-9);
    assert!(probs[2].0 < 1e-9);
}

#[test]
fn test_action_probs_proportional_at_temperature_one() {
    let probs = action_probabilities(&[1, 3], F64(1.0));
    assert!((probs[0].0 - 0.25).abs() < 1e-6, "probs[0]={}", probs[0].0);
    assert!((probs[1].0 - 0.75).abs() < 1e-6, "probs[1]={}", probs[1].0);
}

#[test]
fn test_action_probs_high_temp_smoother_than_low_temp() {
    let visits = [1usize, 10];
    let diff_high = {
        let p = action_probabilities(&visits, F64(5.0));
        (p[0].0 - p[1].0).abs()
    };
    let diff_low = {
        let p = action_probabilities(&visits, F64(0.5));
        (p[0].0 - p[1].0).abs()
    };
    assert!(diff_high < diff_low, "high_temp diff={diff_high}, low_temp diff={diff_low}");
}

/// The valid actions of a board with one ancilla: the one way to wait, and two moves.
const IDS: [Action; 3] = [0, 2, 5];

fn uniform_node() -> Node<Action, F32> {
    let priors: HashMap<Action, F32> = IDS.iter().map(|&id| (id, F32(1.0 / 3.0))).collect();
    Node::new(7, priors, F32(0.0), 0, None)
}

#[test]
fn test_select_action_returns_valid_action() {
    let g = default_gatherer("/dev/null");
    let node = uniform_node();
    let mut rng = dice(42);
    let action = g.select_action(&node, &IDS.to_vec(), 50, &mut rng).unwrap();
    assert!(IDS.contains(&action), "action {action} not in valid ids");
}

#[test]
fn test_select_action_picks_dominant_at_late_step() {
    let g = default_gatherer("/dev/null");
    let mut node = uniform_node();
    let dominant = IDS[0];
    node.edge_visits[dominant as usize] = 100_000;
    let mut rng = dice(7);
    for _ in 0..20 {
        assert_eq!(g.select_action(&node, &IDS.to_vec(), 1_000, &mut rng), Some(dominant));
    }
}

#[test]
fn move_noise_and_temperature_decay() {
    let mut g = default_gatherer("/dev/null");
    assert_eq!(g.move_temperature(0), F64(1.0));
    assert!((g.move_temperature(4).0 - (0.1 + 0.9 * (-2.0f64).exp())).abs() < 1e-12);
    assert_eq!(g.move_noise(3), F64(0.0));
    g.set_deep_play(F32(0.5), 4);
    assert_eq!(g.move_temperature(4), F64(0.5));
    assert_eq!(g.move_temperature(3), F64(0.1 + 0.9 * (-1.5f64).exp()));
}

#[test]
fn move_weights_mix_noise_in() {
    let mut g = default_gatherer("/dev/null");
    g.noise_strength = F64(0.5);
    let mut node = uniform_node();
    node.edge_visits[0] = 3;
    node.edge_visits[2] = 1;
    // At step 0 the temperature is 1 and the noise has its full strength.
    let w = g.move_weights(&node, &IDS, 0, vec![F64(0.0), F64(0.0), F64(2.0)]);
    assert!((w[0].0 - 0.375).abs() < 1e-9);
    assert!((w[1].0 - 0.125).abs() < 1e-9);
    assert!((w[2].0 - 0.5).abs() < 1e-9);
}

fn cell(base: i16) -> BoardCell {
    BoardCell {
        qubit_role: base,
        factor_kind: base + 1,
        resource_kind: base + 2,
        pp_group_row: base + 3,
        pp_group_col: base + 4,
        ancilla_idx: base + 5,
        last_move_dir: base + 6,
        weight_in_pp: base + 7,
        is_hub_for_pp: base + 8,
        is_y_ready: base + 9,
    }
}

#[test]
fn test_serialize_board_shape() {
    let board = vec![vec![cell(0), cell(10)], vec![cell(20), cell(30)]];
    let layers = serialize_board(&board);
    assert_eq!(layers.len(), board.len());
    assert_eq!(layers[0][0].len(), CELL_FIELDS, "each cell carries CELL_FIELDS channels");
    assert_eq!(layers[1][0], (20..30).collect::<Vec<i16>>());
}

#[test]
fn test_cusp_partial_reward() {
    let f = |a, n| cusp_partial_reward::<F32>(a, n, 2, 2).0; // cusp = min(n, 4)
    // hard env (6 obj): graded against cusp=4, NOT floor-collapsed.
    assert!((f(1, 6) - (-0.75)).abs() < 1e-6);
    assert!((f(2, 6) - (-0.50)).abs() < 1e-6);
    assert!((f(4, 6) - 0.0).abs() < 1e-6); // reached the cusp
    assert!((f(5, 6) - 0.0).abs() < 1e-6); // beyond cusp, capped
    // very hard env (20 obj): still informative, not ~-0.95 floor.
    assert!((f(1, 20) - (-0.75)).abs() < 1e-6);
    // small env (3 obj): cusp shrinks to the env size.
    assert!((f(2, 3) - (-1.0 / 3.0)).abs() < 1e-6);
    assert!((f(3, 3) - 0.0).abs() < 1e-6);
    // reward is always in [-1, 0].
    for n in 1..25 {
        for a in 0..=n {
            let r = f(a, n);
            assert!((-1.0..=0.0).contains(&r));
        }
    }
}

#[test]
fn test_cusp_factor_reward() {
    let f = |m, t, n| cusp_factor_reward::<F32>(m, t, n, 2, 2).0; // cusp = min(n, 4) objs
    // 6-obj / 12-factor env: budget = 12 * 4/6 = 8 factors.
    assert!((f(4, 12, 6) - (-0.5)).abs() < 1e-6); // 4/8
    assert!((f(2, 12, 6) - (-0.75)).abs() < 1e-6); // 2/8
    assert!((f(8, 12, 6) - 0.0).abs() < 1e-6); // reached budget
    assert!((f(10, 12, 6) - 0.0).abs() < 1e-6); // beyond budget, capped
    // very hard 20-obj / 40-factor env: budget = 40 * 4/20 = 8, still informative.
    assert!((f(4, 40, 20) - (-0.5)).abs() < 1e-6); // NOT ~-0.9 floor
    // small env (num_obj <= cusp): budget = full total, grade whole env.
    assert!((f(3, 6, 3) - (-0.5)).abs() < 1e-6); // budget = 6*3/3 = 6, 3/6
    // degenerate: no factors.
    assert!((f(0, 0, 5) - (-1.0)).abs() < 1e-6);
    // reward always in [-1, 0].
    for n in 1..12 {
        for t in 1..30 {
            for m in 0..=t {
                let r = f(m, t, n);
                assert!((-1.0..=0.0).contains(&r));
            }
        }
    }
}

#[test]
fn test_next_prefix_probe_pins_cusp() {
    for &(len, pstar, seed, budget, expect_pinned) in &[
        (203usize, 10usize, 10usize, 8usize, true),
        (203, 60, 10, 9, true),
        (203, 3, 10, 8, true),
        (50, 0, 10, 8, false),
        (203, 203, 10, 9, false),
    ] {
        let (mut lo, mut hi) = (0usize, len);
        let mut p = seed.min(len);
        for _ in 0..budget {
            if p >= pstar {
                hi = p;
                if p == 0 {
                    break;
                }
            } else {
                lo = p;
            }
            match next_prefix_probe(lo, hi) {
                Some(n) => p = n,
                None => break,
            }
        }
        assert!(pstar == 0 || lo < pstar, "len={len} P*={pstar}: lo={lo} not below cusp");
        assert!(hi >= pstar, "len={len} P*={pstar}: hi={hi} below cusp");
        if expect_pinned {
            assert_eq!(hi, pstar, "len={len} P*={pstar}: cusp not pinned (lo={lo} hi={hi})");
        }
    }
}

#[test]
fn cusp_search_probes_and_stops() {
    // Solvable from a scaffold of 60 actions on.
    let mut search: CuspSearch<usize> = CuspSearch::new(203, 10, 0, 9);
    let mut probes = Vec::new();
    while let Some(p) = search.next() {
        probes.push(p);
        search.report(p, p >= 60);
    }
    assert_eq!(probes[0], 10);
    assert!(probes.len() <= 9);
    assert!(probes.contains(&60));
    assert!(probes.contains(&59));
}

#[test]
fn rc_scoring_is_scaffold_relative() {
    let d_full = 100.0f32;
    let tau = F32(1.0);

    // (a) matching the heuristic's pace scores 0 at every scaffold depth.
    for scaffold in [0.0f32, 40.0, 80.0] {
        let ref_suffix = reference_suffix(&F32(d_full), &F32(scaffold));
        let agent = F32((d_full - scaffold).max(0.0));
        assert!(
            done_score(&ref_suffix, &agent, &tau).0.abs() < 1e-6,
            "parity should score 0 at scaffold {scaffold}"
        );
        assert!(suffix_score(&F32(d_full), &F32(scaffold), &F32(d_full), &tau).0.abs() < 1e-6);
    }

    // (b) the SAME proportional suffix advantage scores the SAME at every scaffold depth.
    let mut fixed: Vec<f32> = Vec::new();
    let mut old_buggy: Vec<f32> = Vec::new();
    for scaffold in [0.0f32, 40.0, 80.0] {
        let ref_suffix = (d_full - scaffold).max(1.0);
        let agent_suffix = ref_suffix * 0.9; // 10% better than the heuristic
        fixed.push(done_score(&F32(ref_suffix), &F32(agent_suffix), &tau).0);
        // full reference, full depth
        old_buggy.push(done_score(&F32(d_full), &F32(scaffold + agent_suffix), &tau).0);
    }
    for w in fixed.windows(2) {
        assert!(
            (w[0] - w[1]).abs() < 1e-6,
            "scaffold depth must not change the score: {fixed:?}"
        );
    }
    assert!(
        (old_buggy[0] - old_buggy[2]).abs() > 0.05,
        "old form should have been scaffold-dependent, got {old_buggy:?}"
    );
}

#[test]
fn margin_currency() {
    let score = |r: f32, d: f32, tau: f32| done_score(&F32(r), &F32(d), &F32(tau)).0;
    for (r, d, tau) in [(20.0, 15.0, 1.0), (20.0, 25.0, 1.0), (35.0, 35.0, 0.3)] {
        let ratio: f32 = black_box((r - d) / (r + 1e-6));
        assert_eq!(score(r, d, tau), (ratio / tau).tanh());
    }
    // tie = 0, win positive, loss negative, all above the floor
    assert_eq!(score(20.0, 20.0, 1.0), 0.0);
    assert!(score(20.0, 15.0, 1.0) > 0.0);
    let worse = score(20.0, 30.0, 1.0);
    assert!(worse < 0.0 && worse > not_done_score::<F32>().0);
}

#[test]
fn terminal_score_floors_what_is_not_done() {
    let score = |done| terminal_score(done, &F32(20.0), &F32(0.0), &F32(15.0), &F32(1.0)).0;
    assert_eq!(score(false), -1.0);
    assert_eq!(score(true), black_box((20.0f32 - 15.0) / (20.0 + 1e-6)).tanh());
}

// Grading.

fn ending(done: bool, depth: f32, remaining: usize, hindsight: Hindsight<F32>) -> Ending<F32> {
    Ending {
        done,
        depth: F32(depth),
        start_objectives: 6,
        remaining_objectives: remaining,
        max_weight: 3,
        merged: 4,
        factors: 12,
        hindsight,
    }
}

fn reference(depth: f32, actions: usize) -> Reference<F32> {
    Reference { depth: F32(depth), actions, scaffold: None }
}

#[test]
fn a_finished_episode_is_worth_what_the_search_values_it() {
    let g = default_gatherer("/dev/null");
    let grade = g.grade(&reference(20.0, 9), &ending(true, 15.0, 0, Hindsight::Nothing));
    assert_eq!(grade.kind, RewardKind::Done);
    assert_eq!(grade.achieved, 6);
    assert_eq!(
        grade.score,
        terminal_score(true, &F32(20.0), &F32(0.0), &F32(15.0), &F32(1.0))
    );
    assert_eq!(grade.kind.label(), "done");
}

#[test]
fn an_episode_without_progress_is_floored() {
    let g = default_gatherer("/dev/null");
    let grade = g.grade(&reference(20.0, 9), &ending(false, 30.0, 6, Hindsight::Nothing));
    assert_eq!(grade.kind, RewardKind::Floor);
    assert_eq!(grade.score, F32(-1.0));
    assert_eq!(grade.kind.label(), "floor");
}

#[test]
fn hindsight_grades_the_goal_that_was_reached() {
    let mut g = default_gatherer("/dev/null");
    g.set_her_reward(true);
    assert!(g.needs_hindsight(false, false, 6, 3));
    let solved = ending(false, 15.0, 4, Hindsight::Solved(2, F32(20.0)));
    let grade = g.grade(&reference(40.0, 9), &solved);
    assert_eq!(grade.kind, RewardKind::Her);
    assert_eq!(grade.achieved, 2);
    assert_eq!(grade.kind.label(), "her");
    assert!(grade.score.0 > 0.0);
}

#[test]
fn hard_instances_are_graded_against_the_cusp() {
    let mut g = default_gatherer("/dev/null");
    g.set_cusp_reward(true, 2, 2);
    let grade = g.grade(&reference(40.0, 9), &ending(false, 15.0, 4, Hindsight::Nothing));
    assert_eq!(grade.kind, RewardKind::Cusp);
    assert_eq!(grade.score, F32(-0.5));
    assert_eq!(grade.kind.label(), "cusp");
}

#[test]
fn objective_weights_add_up() {
    assert_eq!(pp_weights(&[Some(3), None, Some(5)]), (8, 5));
    assert_eq!(pp_weights(&[]), (0, 0));
}

// Episodes.

/// A walk from 0 to a goal: action 2 goes on, action 5 waits.
#[derive(Clone, Debug)]
struct Trail {
    at: u64,
    goal: u64,
}

impl Environment for Trail {
    type Act = Action;
    type Obs = TilersObs;

    fn clone_law(_a: Self, _b: Self) {}

    fn slots_law(_id: u64) {}

    fn step(&mut self, action: Action) {
        if action == 2 {
            self.at += 1;
        }
    }

    fn observation(&self) -> TilersObs {
        let mut mask = vec![false; 7];
        mask[2] = true;
        mask[5] = true;
        build_obs(1, 1, 1, vec![vec![cell(self.at as i16)]], &mask)
    }

    fn valid_actions(&self) -> Vec<Action> {
        if self.done() {
            vec![]
        } else {
            vec![2, 5]
        }
    }

    fn num_actions(&self) -> usize {
        7
    }

    fn done(&self) -> bool {
        self.at >= self.goal
    }

    fn hash(&self) -> u64 {
        self.at
    }

    fn render(&self) -> String {
        format!("at {}", self.at)
    }
}

/// Prefers going on, and values every state alike.
struct Eager(f32);

impl InferenceClient<Trail, F32> for Eager {
    fn infer(
        &self,
        observations: &[TilersObs],
    ) -> Result<(Vec<HashMap<Action, F32>>, Vec<F32>), InferenceError> {
        let prior: HashMap<Action, F32> = HashMap::from([(2, F32(0.9)), (5, F32(0.1))]);
        Ok((vec![prior; observations.len()], vec![F32(self.0); observations.len()]))
    }
}

/// Never answers.
struct Mute;

impl InferenceClient<Trail, F32> for Mute {
    fn infer(
        &self,
        _observations: &[TilersObs],
    ) -> Result<(Vec<HashMap<Action, F32>>, Vec<F32>), InferenceError> {
        Err(InferenceError::Failed("no answer".to_string()))
    }
}

fn depth(e: &Trail) -> F32 {
    F32(e.at as f32)
}

fn trail(goal: u64) -> Trail {
    Trail { at: 0, goal }
}

#[test]
fn an_episode_is_played_to_its_goal() {
    let mut g = default_gatherer("/dev/null");
    g.max_actions = Some(60);
    let e = run_episode(
        &g, trail(3), reference(3.0, 3), &Eager(0.0), F32(1.4), &depth, &mut dice(1),
    )
    .unwrap();
    assert!(e.over && !e.resigned);
    assert!(e.env.done());
    assert_eq!(e.step, e.all_steps_data.len());
    // Every turn ran a full search.
    assert_eq!(e.temp_data.len(), e.step);
    let forward = e.all_steps_data.iter().filter(|s| s.action == 2).count();
    assert_eq!(forward, 3);
    assert!(e.all_steps_data.iter().all(|s| s.valid_actions == vec![2, 5]));
    assert!(e.q_trace.is_empty());
    for rec in &e.temp_data {
        assert!(rec.edge_visits.values().sum::<usize>() > 0);
        assert!(rec.edge_visits.keys().all(|a| rec.valid_actions.contains(a)));
    }
}

#[test]
fn a_spent_budget_ends_an_episode() {
    let mut g = default_gatherer("/dev/null");
    g.max_actions = Some(4);
    let e = run_episode(
        &g, trail(50), reference(3.0, 3), &Eager(0.0), F32(1.4), &depth, &mut dice(2),
    )
    .unwrap();
    assert!(e.over && !e.resigned && !e.env.done());
    assert_eq!(e.step, 4);
    g.max_actions = Some(0);
    let none = run_episode(
        &g, trail(50), reference(3.0, 3), &Eager(0.0), F32(1.4), &depth, &mut dice(2),
    )
    .unwrap();
    assert_eq!((none.step, none.max_actions), (0, 0));
}

#[test]
fn low_values_make_an_episode_resign() {
    let mut g = default_gatherer("/dev/null");
    g.max_actions = Some(40);
    g.resign_value_threshold = F32(-0.5);
    g.resign_consecutive_moves = 3;
    g.resign_min_step_ref_mult = F32(0.0);
    g.no_resign_rate = F32(0.0);
    g.resignation_log_dir = Some("log".to_string());
    let e = run_episode(
        &g, trail(90), reference(0.0, 3), &Eager(-1.0), F32(1.4), &depth, &mut dice(3),
    )
    .unwrap();
    assert!(e.resigned);
    // Three low values: after two moves, at the third search.
    assert_eq!(e.step, 2);
    assert_eq!(e.low_value_streak, 3);
    assert_eq!(e.q_trace.len(), 3);
    assert_eq!(e.over_solver_trace.len(), 3);
    assert!(!e.over_solver_trace[0]);
}

#[test]
fn the_step_floor_delays_resignation() {
    let mut g = default_gatherer("/dev/null");
    g.max_actions = Some(40);
    g.resign_value_threshold = F32(-0.5);
    g.resign_consecutive_moves = 3;
    g.resign_min_step_ref_mult = F32(1.25);
    g.no_resign_rate = F32(0.0);
    assert!(g.resignation_enabled());
    assert_eq!(g.resign_floor(&F32(4.0)), 20);
    assert_eq!(g.resign_floor(&F32(17.0)), 22);
    let e = run_episode(
        &g, trail(90), reference(4.0, 3), &Eager(-1.0), F32(1.4), &depth, &mut dice(3),
    )
    .unwrap();
    assert!(e.resigned);
    assert_eq!(e.step, 20);
    // Nobody resigns in the sample that plays on.
    g.no_resign_rate = F32(1.0);
    let e = run_episode(
        &g, trail(90), reference(4.0, 3), &Eager(-1.0), F32(1.4), &depth, &mut dice(3),
    )
    .unwrap();
    assert!(!e.resigned);
    assert_eq!(e.step, 40);
}

/// Counts the numbers that are drawn from 0 to 1.
struct Counting(usize);

impl Chance<F32, F64> for Counting {
    fn unit(&mut self) -> F32 {
        self.0 += 1;
        F32(0.5)
    }

    fn gamma(&mut self, _shape: &F64) -> F64 {
        F64(1.0)
    }

    fn between(&mut self, lo: usize, _hi: usize) -> usize {
        lo
    }

    fn weighted(&mut self, _weights: &Vec<F64>) -> Option<usize> {
        Some(0)
    }
}

#[test]
fn a_number_is_drawn_for_resignation_only_where_it_is_enabled() {
    let mut g = default_gatherer("/dev/null");
    g.max_actions = Some(0);
    let mut draws = |g: &G| {
        let mut chance = Counting(0);
        run_episode(g, trail(9), reference(3.0, 3), &Mute, F32(1.4), &depth, &mut chance).unwrap();
        chance.0
    };
    assert!(!g.resignation_enabled());
    assert_eq!(draws(&g), 0);
    g.resign_value_threshold = F32(-0.5);
    g.resign_consecutive_moves = 3;
    assert!(g.resignation_enabled());
    assert_eq!(draws(&g), 1);
}

#[test]
fn failed_inference_breaks_an_episode_off() {
    let mut g = default_gatherer("/dev/null");
    g.max_actions = Some(4);
    let r = run_episode(
        &g, trail(3), reference(3.0, 3), &Mute, F32(1.4), &depth, &mut dice(1),
    );
    assert_eq!(
        r.err(),
        Some(EpisodeError::Inference(InferenceError::Failed("no answer".to_string())))
    );
}

#[test]
fn an_episode_without_moves_is_an_error() {
    let mut g = default_gatherer("/dev/null");
    g.max_actions = Some(4);
    let r = run_episode(
        &g, trail(0), reference(3.0, 3), &Eager(0.0), F32(1.4), &depth, &mut dice(1),
    );
    assert_eq!(r.err(), Some(EpisodeError::NoMove));
}

#[test]
fn turns_one_by_one() {
    let mut g = default_gatherer("/dev/null");
    g.dirichlet_epsilon = F32(0.25);
    let plan = g.plan_search(&F32(0.3));
    assert_eq!(plan, SearchPlan { full: true, steps: 5, noisy: true });
    g.p_full_search = F32(0.25);
    assert_eq!(g.plan_search(&F32(0.3)), SearchPlan { full: false, steps: 2, noisy: false });
    assert_eq!(g.action_budget(2), 5);
    let mut e: Episode<Trail, F32> = Episode::start(&g, trail(3), reference(3.0, 2), &F32(0.5));
    assert_eq!(e.max_actions, 5);
    let samples = vec![F64(1.0), F64(1.0)];
    let turn = e.search(&g, &Eager(0.0), F32(1.4), plan, samples, &depth).unwrap();
    let ids = match turn {
        Turn::Move(node, ids) => {
            assert_eq!(node.id, 0);
            ids
        }
        Turn::Resigned => panic!("no reason to resign"),
    };
    assert_eq!(ids, vec![2, 5]);
    e.play(2);
    assert_eq!(e.env.at, 1);
    assert_eq!(e.mcts.root_id, Some(1));
    let o = e.finish(
        &g,
        Instance { height: 1, width: 1, num_ancillas: 1, num_objectives: 6 },
        ending(false, 1.0, 6, Hindsight::Nothing),
    );
    assert_eq!(o.reward_kind, RewardKind::Floor);
    assert_eq!((o.temp_data.len(), o.all_steps_data.len()), (1, 1));
    assert_eq!(o.reference_action_count, 2);
}

// Whole instances.

/// Draws always the same number, and the action with the most weight.
struct Settled(f32);

impl Chance<F32, F64> for Settled {
    fn unit(&mut self) -> F32 {
        F32(self.0)
    }

    fn gamma(&mut self, _shape: &F64) -> F64 {
        F64(1.0)
    }

    fn between(&mut self, _lo: usize, hi: usize) -> usize {
        hi
    }

    fn weighted(&mut self, weights: &Vec<F64>) -> Option<usize> {
        let mut best = 0;
        for i in 1..weights.len() {
            if weights[i].0 > weights[best].0 {
                best = i;
            }
        }
        if weights.is_empty() {
            None
        } else {
            Some(best)
        }
    }
}

fn survey(e: &Trail) -> Survey<F32> {
    let left = e.goal.saturating_sub(e.at) as usize;
    Survey {
        instance: Instance { height: 1, width: 1, num_ancillas: 1, num_objectives: left },
        weights: vec![Some(1); left],
        depth: depth(e),
    }
}

fn progress(a: &Trail, b: &Trail) -> (usize, usize) {
    ((b.at - a.at) as usize, (a.goal - a.at) as usize)
}

fn nothing(_a: &Trail, _b: &Trail) -> Hindsight<F32> {
    Hindsight::Nothing
}

fn solve(e: &Trail) -> (F32, Vec<Action>) {
    (F32(e.goal as f32), vec![2; (e.goal - e.at) as usize])
}

fn scaffold(e: &Trail, plan: &Vec<Action>, p: usize) -> (Trail, F32) {
    assert!(p <= plan.len());
    (Trail { at: e.at + p as u64, goal: e.goal }, F32(p as f32))
}

fn replay(_e: &Trail, plan: &Vec<Action>) -> Vec<StepRecord> {
    plan.iter().map(|&a| step_record(vec![2, 5], a)).collect()
}

fn gather_on(g: &G, goal: u64, draw: f32) -> Result<Gathered<F32>, EpisodeError> {
    let look = Look { depth, survey, progress, look_back: nothing };
    let solver = Solver { solve, scaffold, replay };
    g.gather(&trail(goal), &Eager(0.0), &F32(1.4), &look, &solver, &mut Settled(draw))
}

fn greedy_gatherer(max_actions: usize) -> G {
    let mut g = default_gatherer("/dev/null");
    g.mcts_steps = 40;
    g.fast_steps = 40;
    g.noise_strength = F64(0.0);
    g.dirichlet_epsilon = F32(0.0);
    g.max_actions = Some(max_actions);
    g
}

#[test]
fn a_move_is_drawn_by_its_weight() {
    let g = greedy_gatherer(9);
    let priors = HashMap::from([(2, F32(0.5)), (5, F32(0.5))]);
    let mut node: Node<Action, F32> = Node::new(7, priors, F32(0.0), 1, None);
    node.edge_visits[5] = 4;
    node.edge_visits[2] = 1;
    assert_eq!(g.select_action(&node, &vec![2, 5], 0, &mut Settled(0.0)), Some(5));
    node.edge_visits[2] = 9;
    assert_eq!(g.select_action(&node, &vec![2, 5], 0, &mut Settled(0.0)), Some(2));
    assert_eq!(g.select_action(&node, &vec![], 0, &mut Settled(0.0)), None);
}

#[test]
fn an_instance_is_played_from_its_start() {
    match gather_on(&greedy_gatherer(9), 3, 0.0) {
        Ok(Gathered::Played(o, _, demo)) => {
            assert!(o.done);
            assert!(demo.is_none());
            assert_eq!(o.reference_action_count, 3);
            assert_eq!(o.reference_depth, F32(3.0));
            assert_eq!(o.solution_depth, F32(3.0));
            assert_eq!(o.instance.num_objectives, 3);
            assert_eq!(o.reward_kind, RewardKind::Done);
        }
        _ => panic!("one episode"),
    }
}

#[test]
fn a_failure_may_be_followed_by_a_demonstration() {
    let mut g = greedy_gatherer(2);
    g.set_demo(F32(0.5), 2, F32(1.0), 0, 0);
    match gather_on(&g, 8, 0.4) {
        Ok(Gathered::Played(o, _, Some(demo))) => {
            assert!(!o.done);
            assert_eq!(demo.plan_len, 8);
            assert_eq!(demo.states.len(), 8);
        }
        _ => panic!("an episode and a demonstration"),
    }
    assert!(matches!(gather_on(&g, 8, 0.6), Ok(Gathered::Played(_, _, None))));
    g.set_env_meta(7, 0);
    g.set_demo(F32(0.0), 2, F32(1.0), 7, 0);
    match gather_on(&g, 8, 0.4) {
        Ok(Gathered::Demo(demo)) => assert_eq!(demo.plan_len, 8),
        _ => panic!("a demonstration alone"),
    }
}

#[test]
fn a_climb_pins_the_cusp() {
    let mut g = greedy_gatherer(2);
    g.set_reverse_curriculum(true, 2, 5, 3, F32(0.5));
    match gather_on(&g, 6, 0.4) {
        Ok(Gathered::Climbed(climb)) => {
            assert_eq!(climb.len, 6);
            assert_eq!(climb.probes, vec![(3, false), (4, true)]);
            let best = climb.best.unwrap();
            assert!(best.done);
            assert_eq!(best.reference_action_count, 2);
            assert_eq!(best.reference_depth, F32(6.0));
            let failed = climb.failed.unwrap();
            assert!(!failed.done);
            assert_eq!(failed.reference_action_count, 3);
            assert_eq!(climb.summary, (F32(6.0), F32(6.0), true));
        }
        _ => panic!("a climb"),
    }
    // A plan that is too short, or another number, leads to an episode.
    assert!(matches!(gather_on(&g, 1, 0.4), Ok(Gathered::Played(..))));
    assert!(matches!(gather_on(&g, 6, 0.5), Ok(Gathered::Played(..))));
    g.reverse_curriculum_max_probes = 0;
    match gather_on(&g, 6, 0.4) {
        Ok(Gathered::Climbed(climb)) => {
            assert!(climb.probes.is_empty() && climb.best.is_none() && climb.failed.is_none());
            assert_eq!(climb.summary, (F32(0.0), F32(0.0), false));
        }
        _ => panic!("a climb without probes"),
    }
}

#[test]
fn a_broken_instance_says_why() {
    let look = Look { depth, survey, progress, look_back: nothing };
    let solver = Solver { solve, scaffold, replay };
    let g = greedy_gatherer(2);
    let r = g.gather(&trail(3), &Mute, &F32(1.4), &look, &solver, &mut Settled(0.0));
    assert!(matches!(r.err(), Some(EpisodeError::Inference(_))));
    // A demonstration, and a climb without probes, ask for nothing.
    let mut demo = greedy_gatherer(2);
    demo.set_demo(F32(0.5), 2, F32(1.0), 9, 0);
    demo.set_env_meta(9, 0);
    assert!(demo.imitation_only() && !demo.may_climb());
    let r = demo.gather(&trail(3), &Mute, &F32(1.4), &look, &solver, &mut Settled(0.0));
    assert!(matches!(r, Ok(Gathered::Demo(_))));
    let mut climb = greedy_gatherer(2);
    climb.set_reverse_curriculum(true, 2, 5, 3, F32(0.5));
    climb.reverse_curriculum_max_probes = 0;
    let r = climb.gather(&trail(6), &Mute, &F32(1.4), &look, &solver, &mut Settled(0.4));
    assert!(matches!(r, Ok(Gathered::Climbed(_))));
}

#[test]
fn an_instance_without_a_move_says_so() {
    // The game is over from the start.
    assert_eq!(gather_on(&greedy_gatherer(2), 0, 0.0).err(), Some(EpisodeError::NoMove));
    // The first probe of the climb is given the whole plan, and has nothing left to play.
    let mut g = greedy_gatherer(2);
    g.set_reverse_curriculum(true, 2, 5, 3, F32(0.5));
    let look = Look { depth, survey, progress, look_back: nothing };
    let (d_full, plan) = solve(&trail(6));
    let climb = g.gather_reverse_curriculum(
        &trail(6), &d_full, &plan, 6, 0, &Eager(0.0), &F32(1.4), &look, &scaffold,
        &mut Settled(0.0),
    );
    assert_eq!(climb.err(), Some(EpisodeError::NoMove));
}

#[test]
fn the_layout_of_an_instance_is_drawn() {
    let mut shaping = Shaping {
        height: 4,
        width: 5,
        num_blanks: 3,
        clustered_fraction: F32(0.5),
        num_clusters: 4,
        learnable_prob: F32(0.3),
        learnable_min: 2,
        learnable_max: 9,
    };
    assert_eq!(shaping.pick(6, &mut Settled(0.5)), Shape::Scattered { num_objectives: 6 });
    assert_eq!(
        shaping.pick(6, &mut Settled(0.4)),
        Shape::Clustered { weight: 17, num_clusters: 4 }
    );
    assert_eq!(
        shaping.pick(6, &mut Settled(0.2)),
        Shape::Clustered { weight: 9, num_clusters: 4 }
    );
    shaping.learnable_max = 40;
    assert_eq!(
        shaping.pick(6, &mut Settled(0.2)),
        Shape::Clustered { weight: 17, num_clusters: 4 }
    );
    shaping.clustered_fraction = F32(0.0);
    assert_eq!(shaping.pick(6, &mut Settled(0.0)), Shape::Scattered { num_objectives: 6 });
}

// Records.

fn outcome(kind: RewardKind, score: f32, done: bool) -> EpisodeOutcome<F32> {
    EpisodeOutcome {
        reference_depth: F32(20.0),
        solution_depth: F32(15.0),
        done,
        score: F32(score),
        reward_kind: kind,
        achieved_objectives: 2,
        reference_action_count: 30,
        temp_data: vec![TurnRecord {
            board: vec![vec![cell(0)]],
            num_ancillas: 1,
            valid_actions: vec![2, 5],
            edge_visits: HashMap::from([(2, 7)]),
        }],
        all_steps_data: vec![
            StepRecord {
                board: vec![vec![cell(0)]],
                num_ancillas: 1,
                valid_actions: vec![2, 5],
                action: 5,
                height: 1,
                width: 1,
            },
        ],
        q_trace: vec![F32(-0.5)],
        over_solver_trace: vec![false],
        resigned: false,
        resign_allowed: true,
        resignation_enabled: true,
        instance: Instance { height: 1, width: 1, num_ancillas: 1, num_objectives: 6 },
    }
}

fn step_record(valid_actions: Vec<Action>, action: Action) -> StepRecord {
    StepRecord {
        board: vec![vec![cell(0)]],
        num_ancillas: 1,
        valid_actions,
        action,
        height: 1,
        width: 1,
    }
}

fn keys<R>(record: &[(&'static str, Field<R>)]) -> Vec<&'static str> {
    record.iter().map(|f| f.0).collect()
}

#[test]
fn corpus_records_carry_the_expected_keys() {
    let g = default_gatherer("/dev/null");
    let o = outcome(RewardKind::Done, 0.5, true);
    let record = g.corpus_record(&o, &o.temp_data[0], false);
    let names = keys(&record);
    for key in ["height", "width", "num_ancillas", "board", "valid_actions", "edge_visits", "reward"]
    {
        assert!(names.contains(&key), "missing key '{key}'");
    }
    let gold = g.gold_record(&o, &o.temp_data[0], false);
    assert!(gold.iter().any(|f| f.0 == "gold" && matches!(f.1, Field::Flag(true))));
}

#[test]
fn demo_records_are_one_hot() {
    let g = default_gatherer("/dev/null");
    let ids: Vec<Action> = vec![2, 5];
    let state = step_record(ids.clone(), 5);
    let record = g.demo_record(&state);
    assert!(record.iter().any(|f| f.0 == "edge_visits" && matches!(f.1, Field::OneHot(5))));
    assert!(record.iter().any(|f| f.0 == "reward" && matches!(f.1, Field::Number(F32(0.0)))));
    assert!(record.iter().any(|f| f.0 == "reward_kind" && matches!(f.1, Field::Text("demo"))));
    assert!(record.iter().any(|f| f.0 == "is_demo" && matches!(f.1, Field::Flag(true))));
    assert!(is_valid(&ids, 5) && !is_valid(&ids, 3));
}

#[test]
fn trajectories_favour_the_action_taken() {
    let o = outcome(RewardKind::Done, 0.5, true);
    let weights = trajectory_weights(&vec![2, 5], 5);
    assert_eq!(weights.iter().map(|w| w.0).collect::<Vec<_>>(), vec![2, 5]);
    // 99% on the action taken.
    assert_eq!(weights, vec![(2, 1), (5, 99)]);
    assert_eq!(trajectory_value::<F32>(2), F32(1.0));
    assert_eq!(trajectory_value::<F32>(5), F32(2.0 * black_box(0.8f32).powi(5) - 1.0));
    let record = trajectory_record(&o, 0);
    assert!(keys(&record).contains(&"board"));
}

#[test]
fn what_is_written_of_an_episode() {
    let mut g = default_gatherer("/dev/null");
    g.floor_keep_fraction = F32(0.5);
    let floor = outcome(RewardKind::Floor, -1.0, false);
    assert!(g.needs_keep_draw(RewardKind::Floor, &F32(-1.0)));
    assert!(g.plan_writing(&floor, false, &F32(0.4)).corpus);
    assert!(!g.plan_writing(&floor, false, &F32(0.6)).corpus);
    let win = outcome(RewardKind::Done, 0.5, true);
    assert!(!g.needs_keep_draw(RewardKind::Done, &F32(0.5)));
    let plan = g.plan_writing(&win, false, &F32(0.9));
    assert!(plan.corpus && !plan.gold && !plan.trajectory && !plan.log);
    g.set_gold_banking(Some("gold".to_string()), 20, F32(0.1));
    g.trajectory_dir = Some("wins".to_string());
    g.resignation_log_dir = Some("log".to_string());
    let plan = g.plan_writing(&win, false, &F32(0.9));
    assert!(plan.corpus && plan.gold && plan.trajectory && plan.log);
    assert!(g.gold_path("gold").starts_with("gold/"));
    assert!(g.trajectory_path("wins").starts_with("wins/"));
    assert!(g.resignation_path("log").starts_with("log/"));
    assert!(output_path("out", 3).starts_with("out/"));
    assert!(keys(&g.resignation_record(&win)).contains(&"resigned"));
}

#[test]
fn an_episode_goes_to_its_files() {
    let mut g = default_gatherer("out/a.jsonl");
    g.set_gold_banking(Some("gold".to_string()), 20, F32(0.1));
    g.trajectory_dir = Some("wins".to_string());
    g.resignation_log_dir = Some("log".to_string());
    let win = outcome(RewardKind::Done, 0.5, true);
    let (files, came_of_it) = g.write_episode(&win, false, &mut dice(1));
    assert_eq!(came_of_it, (F32(15.0), F32(20.0), true));
    let paths: Vec<&str> = files.iter().map(|w| w.path.as_str()).collect();
    assert_eq!(
        paths,
        vec!["log/resignation_0.jsonl", "wins/traj_0.json", "out/a.jsonl", "gold/gold-0.jsonl"],
    );
    let dirs: Vec<Option<&str>> = files.iter().map(|w| w.dir.as_deref()).collect();
    assert_eq!(dirs, vec![Some("log"), Some("wins"), None, Some("gold")]);
    let vital: Vec<bool> = files.iter().map(|w| w.vital).collect();
    assert_eq!(vital, vec![false, true, true, false]);
    assert!(files.iter().all(|w| w.records.len() == 1));
    assert!(keys(&files[2].records[0]).contains(&"env_mw"));
    assert!(keys(&files[3].records[0]).contains(&"gold"));
    // Behind a scaffold nothing is banked.
    let (scaffolded, _) = g.write_episode(&win, true, &mut dice(1));
    assert_eq!(scaffolded.len(), 3);
    // What tells nothing is kept by chance.
    g.resignation_log_dir = None;
    g.floor_keep_fraction = F32(0.5);
    let floor = outcome(RewardKind::Floor, -1.0, false);
    assert_eq!(g.writings(&floor, false, &F32(0.4)).len(), 1);
    assert_eq!(g.writings(&floor, false, &F32(0.5)).len(), 0);
    let kept = (0..50).filter(|&s| !g.write_episode(&floor, false, &mut dice(s)).0.is_empty());
    let kept = kept.count();
    assert!(kept > 5 && kept < 45, "{kept} of 50");
}

#[test]
fn a_demonstration_keeps_some_of_its_valid_states() {
    let mut g = default_gatherer("out/a.jsonl");
    let states =
        vec![step_record(vec![2, 5], 5), step_record(vec![2, 5], 3), step_record(vec![7], 7)];
    let half = F32(0.5);
    g.set_demo(F32(1.0), 2, half, 0, 0);
    let w = g.demonstration(3, &states, &vec![F32(0.4), F32(0.0), F32(0.6)]);
    assert_eq!((w.path.as_str(), w.dir.is_none(), w.vital), ("out/a.jsonl", true, true));
    assert_eq!(w.records.len(), 1);
    assert!(w.records[0].iter().any(|f| matches!(f.1, Field::OneHot(5))));
    let (nothing, summary) = g.write_demo_episode(0, &states, &mut dice(3));
    assert!(nothing.is_none());
    assert_eq!(summary, (F32(0.0), F32(0.0), false));
    // With a target above the length every valid state is kept.
    g.set_demo(F32(1.0), 2, half, 0, 10);
    let (all, summary) = g.write_demo_episode(3, &states, &mut dice(3));
    assert_eq!(all.unwrap().records.len(), 2);
    assert_eq!(summary, (F32(0.0), F32(0.0), false));
    let demo = Gathered::<F32>::Demo(Demonstration { plan_len: 3, states });
    assert_eq!(demo.summary(), (F32(0.0), F32(0.0), false));
}

// Generation.

#[test]
fn routes_of_an_instance() {
    let mut g = default_gatherer("/dev/null");
    assert_eq!(g.route(Some(30)), Route::Episode);
    assert!(!g.may_climb());
    g.set_reverse_curriculum(true, 10, 6, 4, F32(0.5));
    assert!(g.may_climb());
    assert!(g.tries_climb(&F32(0.4)));
    assert!(!g.tries_climb(&F32(0.6)));
    assert!(matches!(g.route(Some(30)), Route::Climb { .. }));
    assert_eq!(g.route(Some(5)), Route::Episode);
    g.set_demo(F32(0.5), 2, F32(1.0), 9, 0);
    g.set_env_meta(9, 0);
    assert!(g.imitation_only());
    assert_eq!(g.route(None), Route::Demo);
    assert!(g.may_demo(false, 3));
    assert!(!g.may_demo(true, 3));
    assert!(g.wants_demo(false, 3, &F32(0.4)));
    assert!(!g.wants_demo(false, 3, &F32(0.6)));
}

#[test]
fn limits_admit_instances() {
    let limits = Limits {
        max_generated_depth: 3,
        clustered_max_generated_depth: Some(5),
        demo_only_min_weight: 0,
        gather_min_ref_actions: 2,
        gather_easy_keep_fraction: F32(0.25),
    };
    assert_eq!(limits.cap(false, 4), 3);
    assert!(limits.easy(1));
    assert!(!limits.easy(2));
    assert!(limits.admits(false, 4, &[false, false], &F32(0.9)));
    assert!(!limits.admits(false, 4, &[false], &F32(0.9)));
    assert!(limits.admits(false, 4, &[false], &F32(0.1)));
    assert!(!limits.admits(false, 4, &[false; 4], &F32(0.1)));
    assert!(limits.decide(false, 4, &[false, false], &mut Settled(0.9)));
    assert!(!limits.decide(false, 4, &[false], &mut Settled(0.9)));
    assert!(limits.decide(false, 4, &[false], &mut Settled(0.1)));
}

#[test]
fn sizes_of_generated_instances() {
    assert!(full_weight(4, 4, 1) > 0);
    assert!(degenerate(1, 1, 1));
    assert!(!degenerate(10, 10, 8));
    let (lo, hi) = learnable_range(2, 100, 8);
    assert!(lo <= hi && hi <= 8);
    assert!(!may_be_learnable(&F32(0.0), 2, 5));
    assert!(most_clusters(4) >= 1);
    assert!(tagged_arena_name("run", 8, 2).contains("run"));
}
