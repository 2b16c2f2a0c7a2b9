//! The search: nodes, scores, playouts, targets and moving the root.

use mcts::environment::{Environment, Obs};
use mcts::inference::{InferenceClient, InferenceError};
use mcts::mcts::MCTS;
use mcts::node::{Node, NodeId};
use mcts::scalar::{Binary, Scalar, Unary};
use std::collections::HashMap;

/// Machine numbers of single precision.
#[derive(Clone, Copy, Debug, PartialEq)]
struct F32(f32);

impl Scalar for F32 {
    fn decimal(digits: i64, exponent: i32) -> Self {
        F32(format!("{}e{}", digits, exponent).parse::<f32>().unwrap())
    }

    fn count(n: usize) -> Self {
        F32(n as f32)
    }

    fn infinity(positive: bool) -> Self {
        F32(if positive { f32::INFINITY } else { f32::NEG_INFINITY })
    }

    fn unary(op: Unary, x: &Self) -> Self {
        F32(match op {
            Unary::Abs => x.0.abs(),
            Unary::Sqrt => x.0.sqrt(),
            Unary::Tanh => x.0.tanh(),
            Unary::Exp => x.0.exp(),
            Unary::Ln => x.0.ln(),
            Unary::Ceil => x.0.ceil(),
            Unary::Floor => x.0.floor(),
            Unary::Round => x.0.round(),
        })
    }

    fn binary(op: Binary, x: &Self, y: &Self) -> Self {
        F32(match op {
            Binary::Plus => x.0 + y.0,
            Binary::Minus => x.0 - y.0,
            Binary::Times => x.0 * y.0,
            Binary::Over => x.0 / y.0,
            Binary::Power => x.0.powf(y.0),
            Binary::Max => x.0.max(y.0),
            Binary::Min => x.0.min(y.0),
        })
    }

    fn raise(x: &Self, n: usize) -> Self {
        F32(x.0.powi(n as i32))
    }

    fn less(x: &Self, y: &Self) -> bool {
        x.0 < y.0
    }

    fn same(x: &Self, y: &Self) -> bool {
        x.0 == y.0
    }

    fn to_count(x: &Self) -> usize {
        x.0 as usize
    }

    fn dup(&self) -> Self {
        *self
    }

    fn less_law(_x: Self) {}

    fn same_law() {}
}

type TestAction = u8;

#[derive(Clone, Debug, Hash, Eq, PartialEq, Ord, PartialOrd)]
struct TestObs {
    position: i32,
    valid: Vec<TestAction>,
}
impl Obs for TestObs {}

#[derive(Clone, Debug, Hash, Eq, PartialEq, Ord, PartialOrd)]
struct NumberLineEnv {
    position: i32,
    target: i32,
}

impl NumberLineEnv {
    fn new(target: i32) -> Self {
        Self { position: 0, target }
    }
}

impl Environment for NumberLineEnv {
    type Act = TestAction;
    type Obs = TestObs;

    fn clone_law(_a: Self, _b: Self) {}

    fn slots_law(_id: u64) {}

    fn step(&mut self, action: TestAction) {
        match action {
            0 => self.position += 1,
            1 => self.position -= 1,
            _ => {}
        }
    }

    fn observation(&self) -> TestObs {
        TestObs {
            position: self.position,
            valid: self.valid_actions(),
        }
    }

    fn valid_actions(&self) -> Vec<TestAction> {
        if self.done() {
            vec![]
        } else if self.position <= 0 {
            vec![0]
        } else {
            vec![0, 1]
        }
    }

    fn num_actions(&self) -> usize { 2 }

    fn done(&self) -> bool {
        self.position == self.target
    }

    fn hash(&self) -> u64 {
        self.position as u64
    }

    fn render(&self) -> String {
        format!("Position: {}, Target: {}", self.position, self.target)
    }
}

/// Returns uniform priors and a simple heuristic value.
struct UniformClient;

impl InferenceClient<NumberLineEnv, F32> for UniformClient {
    fn infer(
        &self,
        observations: &[TestObs],
    ) -> Result<(Vec<HashMap<TestAction, F32>>, Vec<F32>), InferenceError> {
        let mut priors = Vec::new();
        let mut values = Vec::new();

        for obs in observations {
            let n = obs.valid.len() as f32;
            let mut prior = HashMap::new();
            for &a in &obs.valid {
                prior.insert(a, F32(1.0 / n));
            }
            priors.push(prior);
            // Simple heuristic: closer to target = higher value
            values.push(F32(-obs.position.abs() as f32 * 0.1));
        }

        Ok((priors, values))
    }
}


#[test]
fn mcts_test_mcts_creation() {
    let mcts: MCTS<NumberLineEnv, F32> = MCTS::new(4);
    assert_eq!(mcts.batch_size, 4);
}

#[test]
fn mcts_test_insert_and_get_node() {
    let mut mcts: MCTS<NumberLineEnv, F32> = MCTS::new(4);
    let priors = HashMap::from([(0u8, F32(0.5)), (1u8, F32(0.5))]);
    let node = Node::new(2, priors, F32(0.42), 1, None);
    mcts.insert_node(1, node);
    let node = mcts.get_node_immut(1).unwrap();
    assert!((node.value.0 - 0.42).abs() < 1e-6);
}

#[test]
fn test_run_expands_tree() {
    let env = NumberLineEnv::new(3);
    let client = UniformClient;
    let mut mcts: MCTS<NumberLineEnv, F32> = MCTS::new(4);
    let evaluator = |e: &NumberLineEnv| if e.done() { F32(1.0) } else { F32(0.0) };
    let root = mcts.run(&env, &client, 100, F32(1.4), &evaluator, true).unwrap();
    assert!(mcts.node_exists(root.id));
    assert!(mcts.nodes.len() > 1);
}

// -------------------------------------------------------------------------
// Tests for FPU, forced playouts, softmax temperature, and policy_target
// -------------------------------------------------------------------------

/// Helper: build a two-action root node with one visited and one unvisited child.
///
/// Action 0 has prior 0.6 and has been visited once.
/// Action 1 has prior 0.4 and has never been visited.
/// Parent value = 0.5.
fn build_fpu_node() -> MCTS<NumberLineEnv, F32> {
    let mut mcts: MCTS<NumberLineEnv, F32> = MCTS::new(4);
    let node = Node::new(2, HashMap::from([(0u8, F32(0.6)), (1u8, F32(0.4))]), F32(0.5), 1, None);
    mcts.insert_node(1, node);
    if let Some(n) = mcts.get_node_mut(1) {
        n.edge_visits[0] = 1;
    }
    mcts.root_id = Some(1);
    mcts
}

#[test]
fn test_fpu_reduces_unvisited_q_at_non_root() {
    // With c_fpu = 0.2 and P_explored = 0.6 (action 0 visited):
    //   fpu_q = 0.5 − 0.2 × √0.6 ≈ 0.345
    // Disabling FPU (c_fpu = 0) gives the plain parent value 0.5.
    // The PUCT score for the unvisited action 1 should be lower with FPU.
    let mut mcts = build_fpu_node();
    let scores_fpu = mcts.puct_scores(1, F32(1.0), false, false);

    mcts.c_fpu = F32(0.0);
    let scores_no_fpu = mcts.puct_scores(1, F32(1.0), false, false);

    assert!(
        scores_fpu[1].0 < scores_no_fpu[1].0,
        "FPU should lower the Q-fallback for unvisited children: {} vs {}",
        scores_fpu[1].0,
        scores_no_fpu[1].0,
    );
}

#[test]
fn test_fpu_is_zero_at_root() {
    // At the root c_fpu_eff is always 0 regardless of self.c_fpu.
    // So the score for the unvisited child should equal the no-FPU score.
    let mut mcts = build_fpu_node();
    let scores_root = mcts.puct_scores(1, F32(1.0), true, false);

    mcts.c_fpu = F32(0.0);
    let scores_no_fpu = mcts.puct_scores(1, F32(1.0), true, false);

    // Scores should be identical (within float precision).
    let diff = (scores_root[1].0 - scores_no_fpu[1].0).abs();
    assert!(diff < 1e-5, "FPU should be inactive at root: diff = {}", diff);
}

#[test]
fn test_forced_playouts_assign_infinity() {
    // n_forced(action 1) = √(2.0 × 0.4 × 11) ≈ 2.97
    // Action 1 has only 1 visit, so it should receive INFINITY.
    let mut mcts: MCTS<NumberLineEnv, F32> = MCTS::new(4);
    let node = Node::new(2, HashMap::from([(0u8, F32(0.6)), (1u8, F32(0.4))]), F32(0.0), 1, None);
    mcts.insert_node(1, node);
    if let Some(n) = mcts.get_node_mut(1) {
        n.edge_visits[0] = 10;
        n.edge_visits[1] = 1;
    }
    mcts.root_id = Some(1);

    let scores = mcts.puct_scores(1, F32(1.0), true, true);
    assert_eq!(scores[1].0, f32::INFINITY, "under-visited root child should get infinity");

    // With apply_forced = false, no infinity should appear.
    let scores_no_forced = mcts.puct_scores(1, F32(1.0), true, false);
    assert!(scores_no_forced[1].0.is_finite(), "forced playouts disabled, should be finite");
}

#[test]
fn test_softmax_temp_flattens_prior_at_root() {
    // With T = 2.0 the high-prior action should get a relatively lower PUCT
    // U-term (flatter prior), and the low-prior action a higher one, compared
    // to T = 1.0 (identity).
    let mut mcts: MCTS<NumberLineEnv, F32> = MCTS::new(4);
    // Strongly skewed prior: action 0 = 0.9, action 1 = 0.1.
    let node = Node::new(2, HashMap::from([(0u8, F32(0.9)), (1u8, F32(0.1))]), F32(0.0), 1, None);
    mcts.insert_node(1, node);
    mcts.root_id = Some(1);

    mcts.root_softmax_temp = F32(1.0); // identity
    let scores_t1 = mcts.puct_scores(1, F32(1.0), true, false);

    mcts.root_softmax_temp = F32(2.0); // flatten
    let scores_t2 = mcts.puct_scores(1, F32(1.0), true, false);

    // Flatter prior → lower score for action 0 (dominant prior shaved down).
    assert!(
        scores_t2[0].0 < scores_t1[0].0,
        "higher temperature should reduce score for dominant action: {} vs {}",
        scores_t2[0].0, scores_t1[0].0
    );
    // Flatter prior → higher score for action 1 (minority prior boosted).
    assert!(
        scores_t2[1].0 > scores_t1[1].0,
        "higher temperature should increase score for minority action: {} vs {}",
        scores_t2[1].0, scores_t1[1].0
    );
}

#[test]
fn test_policy_target_sums_to_one() {
    let env = NumberLineEnv::new(5);
    let client = UniformClient;
    let mut mcts: MCTS<NumberLineEnv, F32> = MCTS::new(4);
    let evaluator = |e: &NumberLineEnv| if e.done() { F32(1.0) } else { F32(0.0) };
    mcts.run(&env, &client, 200, F32(1.4), &evaluator, true).unwrap();

    let target = mcts.policy_target(F32(1.4)).expect("policy target should be Some after search");
    let total: f32 = target.values().map(|p| p.0).sum();
    assert!((total - 1.0).abs() < 1e-5, "policy target must sum to 1.0, got {}", total);
}

#[test]
fn test_policy_target_no_more_actions_than_raw() {
    let env = NumberLineEnv::new(5);
    let client = UniformClient;
    let mut mcts: MCTS<NumberLineEnv, F32> = MCTS::new(4);
    let evaluator = |e: &NumberLineEnv| if e.done() { F32(1.0) } else { F32(0.0) };
    mcts.run(&env, &client, 200, F32(1.4), &evaluator, true).unwrap();

    let root_id = mcts.root_id.unwrap();
    let raw_actions = mcts.get_node_immut(root_id).unwrap()
        .edge_visits.iter().filter(|&&v| v > 0).count();
    let pruned_actions = mcts.policy_target(F32(1.4)).unwrap().len();
    assert!(pruned_actions <= raw_actions,
        "pruning should not add actions: {} > {}", pruned_actions, raw_actions);
}

#[test]
fn test_normalize_prior() {
    let mcts: MCTS<NumberLineEnv, F32> = MCTS::new(4);
    let priors = HashMap::from([(0u8, F32(0.2)), (1u8, F32(0.3)), (2u8, F32(0.5))]);
    let normalized = mcts.normalize_prior(priors, &[0, 1]);
    let total: f32 = normalized.values().map(|p| p.0).sum();
    assert!((total - 1.0).abs() < 1e-6);
}

// Helper: build a small tree manually.
//
//   root (id=10) --0--> child_a (id=20) --0--> grandchild (id=40)
//   root (id=10) --1--> child_b (id=30)
//
// child_b and root become unreachable after advancing via action 0.
fn build_simple_tree() -> MCTS<NumberLineEnv, F32> {
    let mut mcts: MCTS<NumberLineEnv, F32> = MCTS::new(4);
    let (root_id, child_a_id, child_b_id, grandchild_id): (NodeId, NodeId, NodeId, NodeId) =
        (10, 20, 30, 40);

    let mut root = Node::new(2, HashMap::from([(0u8, F32(0.5)), (1u8, F32(0.5))]), F32(0.0), root_id, None);
    root.children[0] = Some(child_a_id);
    root.children[1] = Some(child_b_id);

    let mut child_a = Node::new(1, HashMap::from([(0u8, F32(1.0))]), F32(0.0), child_a_id, None);
    child_a.children[0] = Some(grandchild_id);

    let child_b = Node::new(1, HashMap::from([(0u8, F32(1.0))]), F32(0.0), child_b_id, None);
    let grandchild = Node::new(1, HashMap::from([(0u8, F32(1.0))]), F32(0.0), grandchild_id, None);

    mcts.insert_node(root_id, root);
    mcts.insert_node(child_a_id, child_a);
    mcts.insert_node(child_b_id, child_b);
    mcts.insert_node(grandchild_id, grandchild);
    mcts.root_id = Some(root_id);
    mcts
}

#[test]
fn test_advance_root_prunes_unreachable_nodes() {
    let mut mcts = build_simple_tree();
    assert_eq!(mcts.nodes.len(), 4);

    mcts.advance_root(0u8); // move to child_a

    assert_eq!(mcts.root_id, Some(20));
    // root and child_b are no longer reachable from child_a
    assert_eq!(mcts.nodes.len(), 2);
    assert!(mcts.node_exists(20));
    assert!(mcts.node_exists(40));
    assert!(!mcts.node_exists(10));
    assert!(!mcts.node_exists(30));
}

#[test]
fn test_advance_root_table_consistent_after_pruning() {
    // Every entry in transposition_table must point to the node with the matching id.
    let mut mcts = build_simple_tree();
    mcts.advance_root(0u8);

    assert_eq!(mcts.transposition_table.len(), mcts.nodes.len());
    for (&id, &idx) in &mcts.transposition_table {
        assert_eq!(mcts.nodes[idx].id, id);
    }
}

#[test]
fn test_advance_root_preserves_transposition() {
    // A node reachable from two different children of the new root must be kept.
    //
    //   root (id=10) --0--> child_a (id=20) --0--> shared (id=40)
    //   root (id=10) --1--> child_b (id=30) --0--> shared (id=40)  [unreachable after advance]
    //
    // After advancing to child_a, shared is still reachable via child_a.
    let mut mcts: MCTS<NumberLineEnv, F32> = MCTS::new(4);
    let (root_id, child_a_id, child_b_id, shared_id): (NodeId, NodeId, NodeId, NodeId) =
        (10, 20, 30, 40);

    let mut root = Node::new(2, HashMap::from([(0u8, F32(0.5)), (1u8, F32(0.5))]), F32(0.0), root_id, None);
    root.children[0] = Some(child_a_id);
    root.children[1] = Some(child_b_id);

    let mut child_a = Node::new(1, HashMap::from([(0u8, F32(1.0))]), F32(0.0), child_a_id, None);
    child_a.children[0] = Some(shared_id);

    let mut child_b = Node::new(1, HashMap::from([(0u8, F32(1.0))]), F32(0.0), child_b_id, None);
    child_b.children[0] = Some(shared_id);

    let shared = Node::new(1, HashMap::from([(0u8, F32(1.0))]), F32(0.0), shared_id, None);

    mcts.insert_node(root_id, root);
    mcts.insert_node(child_a_id, child_a);
    mcts.insert_node(child_b_id, child_b);
    mcts.insert_node(shared_id, shared);
    mcts.root_id = Some(root_id);

    mcts.advance_root(0u8);

    assert_eq!(mcts.root_id, Some(child_a_id));
    assert_eq!(mcts.nodes.len(), 2); // child_a and shared
    assert!(mcts.node_exists(child_a_id));
    assert!(mcts.node_exists(shared_id));
    assert!(!mcts.node_exists(root_id));
    assert!(!mcts.node_exists(child_b_id));
}

#[test]
fn test_advance_root_handles_cycle() {
    // Ensure BFS terminates when child_a and child_b point back at each other.
    //
    //   root (id=10) --0--> child_a (id=20) --1--> child_b (id=30)
    //                       child_b (id=30) --0--> child_a (id=20)  [cycle]
    let mut mcts: MCTS<NumberLineEnv, F32> = MCTS::new(4);
    let (root_id, child_a_id, child_b_id): (NodeId, NodeId, NodeId) = (10, 20, 30);

    let mut root = Node::new(1, HashMap::from([(0u8, F32(1.0))]), F32(0.0), root_id, None);
    root.children[0] = Some(child_a_id);

    let mut child_a = Node::new(2, HashMap::from([(0u8, F32(0.5)), (1u8, F32(0.5))]), F32(0.0), child_a_id, None);
    child_a.children[1] = Some(child_b_id);

    let mut child_b = Node::new(1, HashMap::from([(0u8, F32(1.0))]), F32(0.0), child_b_id, None);
    child_b.children[0] = Some(child_a_id); // back-edge

    mcts.insert_node(root_id, root);
    mcts.insert_node(child_a_id, child_a);
    mcts.insert_node(child_b_id, child_b);
    mcts.root_id = Some(root_id);

    mcts.advance_root(0u8); // does not hang

    assert_eq!(mcts.root_id, Some(child_a_id));
    assert_eq!(mcts.nodes.len(), 2);
    assert!(mcts.node_exists(child_a_id));
    assert!(mcts.node_exists(child_b_id));
    assert!(!mcts.node_exists(root_id));
}

#[test]
fn node_test_node_creation() {
    let mut priors: HashMap<u16, F32> = HashMap::new();
    priors.insert(0 as u16, F32(0.5));
    priors.insert(1 as u16, F32(0.5));
    let node = Node::new(2, priors.clone(), F32(0.0), 1, None);
    assert_eq!(node.id, 1);
    assert_eq!(node.num_actions, 2);
    assert_eq!(node.prior_probs.len(), 2);
    assert!((node.prior_probs[0].0 - 0.5).abs() < 1e-6);
    assert!((node.prior_probs[1].0 - 0.5).abs() < 1e-6);
    assert_eq!(node.valid_actions.len(), 2);
    assert!(node.valid_actions.contains(&0));
    assert!(node.valid_actions.contains(&1));
    assert_eq!(node.value_estimate.0, 0.0);
    assert_eq!(node.node_visits, 0);
    // Children Vec is sized to num_actions and starts with all None.
    assert_eq!(node.children, vec![None, None]);
    assert_eq!(node.edge_visits, vec![0_usize, 0]);
    assert_eq!(node.virtual_losses, vec![0_usize, 0]);
    assert_eq!(node.edge_penalties, vec![F32(0.0), F32(0.0)]);
    assert_eq!(node.value.0, 0.0);
    assert!(!node.terminal_state);
}

/// Fails from the call of a number on, and keeps what it is asked.
struct FailingClient {
    calls: std::cell::RefCell<Vec<Vec<i32>>>,
    fails_at: usize,
}

impl InferenceClient<NumberLineEnv, F32> for FailingClient {
    fn infer(
        &self,
        observations: &[TestObs],
    ) -> Result<(Vec<HashMap<TestAction, F32>>, Vec<F32>), InferenceError> {
        let asked: Vec<i32> = observations.iter().map(|o| o.position).collect();
        self.calls.borrow_mut().push(asked);
        if self.calls.borrow().len() > self.fails_at {
            return Err(InferenceError::Failed("gone".to_string()));
        }
        UniformClient.infer(observations)
    }
}

fn failing(fails_at: usize) -> FailingClient {
    FailingClient { calls: std::cell::RefCell::new(Vec::new()), fails_at }
}

fn noisy() -> MCTS<NumberLineEnv, F32> {
    let mut mcts: MCTS<NumberLineEnv, F32> = MCTS::new(4);
    mcts.perturb_root_prior(&HashMap::from([(0u8, F32(1.0))]), F32(0.25));
    assert!(mcts.root_noise.is_some());
    mcts
}

fn is_quiet(mcts: &MCTS<NumberLineEnv, F32>) -> bool {
    mcts.root_noise.is_none() && mcts.root_noise_epsilon == F32(0.0)
}

#[test]
fn root_noise_is_gone_after_every_run() {
    let evaluator = |_: &NumberLineEnv| F32(1.0);
    let open = NumberLineEnv { position: 1, target: 3 };
    let mut mcts = noisy();
    assert!(mcts.run(&open, &UniformClient, 8, F32(1.4), &evaluator, false).is_ok());
    assert!(is_quiet(&mcts));
    // A finished root.
    let over = NumberLineEnv { position: 3, target: 3 };
    let mut mcts = noisy();
    let root = mcts.run(&over, &UniformClient, 8, F32(1.4), &evaluator, false).unwrap();
    assert!(is_quiet(&mcts));
    assert!(root.terminal_state && root.valid_actions.is_empty() && root.children.is_empty());
    assert_eq!((root.value, root.node_visits, root.num_actions), (F32(1.0), 0, 0));
    // A client that fails on the root, and one that fails later.
    for fails_at in 0..3 {
        let mut mcts = noisy();
        let client = failing(fails_at);
        let r = mcts.run(&open, &client, 32, F32(1.4), &evaluator, false);
        assert_eq!(r.err(), Some(InferenceError::Failed("gone".to_string())));
        assert!(is_quiet(&mcts));
    }
}

#[test]
fn batches_hold_open_states_only() {
    let evaluator = |_: &NumberLineEnv| F32(1.0);
    let env = NumberLineEnv { position: 1, target: 3 };
    for (batch_size, most) in [(1, 1), (4, 4), (0, 1)] {
        let mut mcts: MCTS<NumberLineEnv, F32> = MCTS::new(batch_size);
        let client = failing(usize::MAX);
        mcts.run(&env, &client, 32, F32(1.4), &evaluator, false).unwrap();
        for batch in client.calls.borrow().iter() {
            assert!(!batch.is_empty() && batch.len() <= most);
            assert!(!batch.contains(&3));
        }
    }
}

#[test]
fn a_root_with_actions_gets_a_visit_per_playout() {
    let evaluator = |_: &NumberLineEnv| F32(1.0);
    let env = NumberLineEnv { position: 1, target: 9 };
    let mut mcts: MCTS<NumberLineEnv, F32> = MCTS::new(4);
    let root = mcts.run(&env, &UniformClient, 30, F32(1.4), &evaluator, false).unwrap();
    assert_eq!(root.edge_visits.iter().sum::<usize>(), 32);
    mcts.advance_root(0);
    let env = NumberLineEnv { position: 2, target: 9 };
    mcts.run(&env, &UniformClient, 30, F32(1.4), &evaluator, false).unwrap();
    // Only the slots of valid actions are ever used.
    for node in &mcts.nodes {
        for k in 0..node.num_actions {
            if !node.valid_actions.contains(&(k as u8)) {
                assert_eq!((node.edge_visits[k], node.children[k]), (0, None));
            }
        }
    }
}

#[test]
fn expanding_adds_at_most_one_node() {
    let mut mcts: MCTS<NumberLineEnv, F32> = MCTS::new(1);
    let priors = HashMap::from([(0u8, F32(0.5)), (1u8, F32(0.5))]);
    mcts.insert_node(1, Node::new(2, priors.clone(), F32(0.0), 1, None));
    let next = NumberLineEnv { position: 2, target: 9 };
    assert_eq!(mcts.expand(1, 0, next.clone(), priors.clone(), F32(0.5)), 2);
    assert_eq!(mcts.nodes.len(), 2);
    assert_eq!(mcts.expand(1, 0, next, priors, F32(0.5)), 2);
    assert_eq!(mcts.nodes.len(), 2);
    assert_eq!(mcts.nodes[0].children, vec![Some(2), None]);
}

#[test]
fn the_highest_score_is_taken() {
    let mcts = build_fpu_node();
    let id = mcts.nodes[0].id;
    for is_root in [false, true] {
        let scores = mcts.puct_scores(id, F32(1.4), is_root, false);
        let taken = mcts.select_action_puct(id, F32(1.4), is_root, false).unwrap();
        for &a in &mcts.nodes[0].valid_actions {
            assert!(scores[taken as usize].0 >= scores[a as usize].0);
        }
    }
}

#[test]
fn only_a_return_is_penalized() {
    let mut mcts = build_simple_tree();
    let before: Vec<Vec<F32>> = mcts.nodes.iter().map(|n| n.edge_penalties.clone()).collect();
    let id = mcts.nodes[0].id;
    mcts.backpropagate(&vec![(id, 0u8)], false);
    let after: Vec<Vec<F32>> = mcts.nodes.iter().map(|n| n.edge_penalties.clone()).collect();
    assert_eq!(before, after);
    mcts.backpropagate(&vec![(id, 0u8)], true);
    let n = mcts.nodes[0].valid_actions.len() as f32;
    assert_eq!(mcts.nodes[0].edge_penalties[0], F32(before[0][0].0 - 1.0 / n));
    assert_eq!(mcts.nodes[0].edge_penalties[1..], before[0][1..]);
    for (node, old) in mcts.nodes.iter().zip(&before).skip(1) {
        assert_eq!(&node.edge_penalties, old);
    }
}
