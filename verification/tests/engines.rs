//! The shared and the simulating engines, agents, batching and the smaller self-play worker.

use mcts::agent::{Agent, DummyAgent};
use mcts::comms::{RequestScratchPad, ResponseScratchPad};
use mcts::core_agent;
use mcts::environment::{Environment, Obs};
use mcts::heuristic::{rank_weight, HeuristicGatherer};
use mcts::inspect::{mode_value, terminal_mode, valid_priors, valid_visits, TerminalMode};
use mcts::mcts::MCTS as TreeSearch;
use mcts::mocks::{MockAgent, MockEnv};
use mcts::node::Node as TreeNode;
use mcts::observation::{Observation, MAX_BATCH};
use mcts::par_graph;
use mcts::par_mcts::{self, Descent};
use mcts::par_node;
use mcts::runner::{
    coordinate, leaf_meta, pair_results, CoordinatorStep, Incoming, LeafBatch, MCTSRunner,
};
use mcts::scalar::{Binary, Convert, Expr, Scalar, Unary};
use mcts::selfplay::{
    ancilla_places, needs_clearing, noise_alpha, noiseless, oriented, outcome_reward, proportional,
    score_transitions, shuffled_layout, supervised_edge_visits, transition_score, SelfPlay,
    Transition,
};
use mcts::serving::{flatten, split_answers, takes_more, InferenceRequest, MAX_BATCH_SIZE};
use mcts::shared_mcts::MCTS;
use mcts::shared_node::Node;
use std::collections::HashMap;

/// Machine numbers of single precision.
#[derive(Clone, Copy, Debug, PartialEq)]
struct F32(f32);

impl Scalar for F32 {
    fn decimal(digits: i64, exponent: i32) -> Self {
        F32(format!("{}e{}", digits, exponent).parse::<f32>().unwrap())
    }

    fn count(n: usize) -> Self {
        F32(n as f32)
    }

    fn infinity(positive: bool) -> Self {
        F32(if positive { f32::INFINITY } else { f32::NEG_INFINITY })
    }

    fn unary(op: Unary, x: &Self) -> Self {
        F32(match op {
            Unary::Abs => x.0.abs(),
            Unary::Sqrt => x.0.sqrt(),
            Unary::Tanh => x.0.tanh(),
            Unary::Exp => x.0.exp(),
            Unary::Ln => x.0.ln(),
            Unary::Ceil => x.0.ceil(),
            Unary::Floor => x.0.floor(),
            Unary::Round => x.0.round(),
        })
    }

    fn binary(op: Binary, x: &Self, y: &Self) -> Self {
        F32(match op {
            Binary::Plus => x.0 + y.0,
            Binary::Minus => x.0 - y.0,
            Binary::Times => x.0 * y.0,
            Binary::Over => x.0 / y.0,
            Binary::Power => x.0.powf(y.0),
            Binary::Max => x.0.max(y.0),
            Binary::Min => x.0.min(y.0),
        })
    }

    fn raise(x: &Self, n: usize) -> Self {
        F32(x.0.powi(n as i32))
    }

    fn less(x: &Self, y: &Self) -> bool {
        x.0 < y.0
    }

    fn same(x: &Self, y: &Self) -> bool {
        x.0 == y.0
    }

    fn to_count(x: &Self) -> usize {
        x.0 as usize
    }

    fn dup(&self) -> Self {
        *self
    }

    fn less_law(_x: Self) {}

    fn same_law() {}
}

fn make_priors(pairs: &[(usize, f32)]) -> HashMap<usize, F32> {
    pairs.iter().map(|&(a, p)| (a, F32(p))).collect()
}

#[test]
fn shared_mcts_creation() {
    let mcts = MCTS::new(F32(1.0), 16);
    assert_eq!(mcts.terminal_value, F32(1.0));
    assert_eq!(mcts.batch_size, 16);
}

#[test]
fn test_node_creation() {
    let mut priors = HashMap::new();
    priors.insert(0, F32(0.5));
    priors.insert(1, F32(0.5));
    let node = Node::new(priors.clone(), F32(0.0), 1, None);
    assert_eq!(node.id, 1);
    assert_eq!(node.prior_probs, priors);
    assert_eq!(node.value_estimate, F32(0.0));
    assert_eq!(node.node_visits, 0);
    assert!(node.children.is_empty());
    assert_eq!(node.edge_visits, HashMap::from([(0, 0), (1, 0)]));
    assert_eq!(node.virtual_loss_copy(), HashMap::from([(0, 0), (1, 0)]));
    assert_eq!(node.edge_penalties, HashMap::from([(0, F32(0.0)), (1, F32(0.0))]));
    assert_eq!(node.value, F32(0.0));
    assert!(!node.terminal_state);
}

#[test]
fn shared_insert_and_get_node() {
    let mut mcts = MCTS::new(F32(0.0), 4);
    let node = Node::new(make_priors(&[]), F32(0.42), 1, None);
    let _place = mcts.insert_node(node);
    assert!(mcts.get_node_arc(1).is_some());
    assert!(mcts.get_node_arc(2).is_none());
    let val = mcts.with_node_read(1, |n| n.value.0).unwrap();
    assert!((val - 0.42).abs() < 1e-6);
    // A second node under the same id takes its place in the table.
    mcts.insert_node(Node::new(make_priors(&[]), F32(0.7), 1, None));
    assert_eq!(mcts.get_node_arc(1).unwrap().value, F32(0.7));
    assert_eq!(mcts.nodes.len(), 2);
}

#[test]
fn test_with_node_write_updates() {
    let mut mcts = MCTS::new(F32(0.0), 4);
    mcts.insert_node(Node::new(make_priors(&[]), F32(0.1), 2, None));
    let n = mcts.with_node_write(2).expect("write should succeed");
    n.value = F32(0.9);
    n.node_visits = 5;
    let (visits, val) = mcts.with_node_read(2, |n| (n.node_visits, n.value.0)).unwrap();
    assert_eq!(visits, 5);
    assert!((val - 0.9).abs() < 1e-6);
    assert!(mcts.with_node_write(3).is_none());
}

#[test]
fn test_recompute_value_leaf_sets_prior() {
    let mut mcts = MCTS::new(F32(0.0), 4);
    mcts.insert_node(Node::new(make_priors(&[]), F32(0.33), 3, None));
    let v = mcts.recompute_value(3);
    assert!((v.0 - 0.33).abs() < 1e-6);
    mcts.with_node_read(3, |n| {
        assert_eq!(n.node_visits, 1);
        assert!((n.value.0 - 0.33).abs() < 1e-6);
    });
}

#[test]
fn test_puct_scores_and_select_puct() {
    let mut mcts = MCTS::new(F32(0.0), 4);
    // one action with prior 1.0
    mcts.insert_node(Node::new(make_priors(&[(0usize, 1.0f32)]), F32(0.5), 4, None));

    let scores = mcts.puct_scores(4, F32(1.0));
    assert!(scores.contains_key(&0));
    let score = scores.get(&0).copied().unwrap().0;
    // score should be at least parent value (plus tiny exploration term)
    assert!(score >= 0.5);

    // select_action_puct should pick the only action
    let chosen = mcts.select_action_puct(4, F32(1.0)).unwrap();
    assert_eq!(chosen, 0);
}

#[test]
fn test_select_action() {
    let mut mcts = MCTS::new(F32(0.0), 4);
    let mut node = Node::new(make_priors(&[(0, 0.5), (1, 0.5)]), F32(0.0), 5, None);
    node.edge_visits.insert(0, 10);
    node.edge_visits.insert(1, 20);
    mcts.insert_node(node);
    let chosen = mcts.select_action(5).unwrap();
    assert_eq!(chosen, 1); // action 1 has more visits, prefer higher prior
}

#[test]
fn test_select_action_all_zero_visits_prefers_higher_prior() {
    let mut mcts = MCTS::new(F32(0.0), 4);
    mcts.insert_node(Node::new(make_priors(&[(0, 0.2), (1, 0.8)]), F32(0.0), 6, None));
    let chosen = mcts.select_action(6);
    assert_eq!(chosen, None);
}

#[test]
fn test_add_child_inserts_mapping() {
    let mut mcts = MCTS::new(F32(0.0), 4);
    mcts.insert_node(Node::new(make_priors(&[(0usize, 1.0f32)]), F32(0.0), 10, None));
    mcts.insert_node(Node::new(make_priors(&[]), F32(0.0), 11, None));

    // add child under action 0
    mcts.add_child(10, 0, 11);

    // verify parent's children map contains the mapping action -> child_id
    mcts.with_node_read(10, |n| {
        assert_eq!(n.children.get(&0), Some(&11));
    });
}

#[test]
fn shared_losses_and_penalties_revert() {
    let mut n = Node::new(make_priors(&[(0, 0.5), (1, 0.5)]), F32(0.0), 1, None);
    n.add_virtual_loss(1);
    n.add_virtual_loss(1);
    assert_eq!(n.virtual_loss_copy().get(&1), Some(&2));
    n.revert_virtual_loss(1);
    n.revert_virtual_loss(1);
    assert_eq!(n.virtual_losses.get(&1), Some(&0));
    n.apply_penalty(0);
    assert!(n.edge_penalties[&0].0 < 0.0);
    n.revert_penalty(0);
    assert_eq!(n.edge_penalties[&0], F32(0.0));
    let t: Node<F32> = Node::new_terminal(9, F32(1.0), None);
    assert!(t.terminal_state && t.select_action().is_none());
}

#[test]
fn shared_value_is_the_mean_over_visits() {
    let mut mcts = MCTS::new(F32(0.0), 4);
    mcts.insert_node(Node::new(make_priors(&[(0, 1.0)]), F32(0.2), 1, None));
    mcts.insert_node(Node::new(make_priors(&[]), F32(0.8), 2, None));
    mcts.add_child(1, 0, 2);
    mcts.with_node_write(1).unwrap().edge_visits.insert(0, 3);
    // (0.2 + 3 * 0.8) / 4
    assert!((mcts.recompute_value(1).0 - 0.65).abs() < 1e-6);
    let snapshot = mcts.node_snapshot(1).unwrap();
    assert_eq!(snapshot.edge_visits[&0], 3);
    assert_eq!(snapshot.children[&0], 2);
}

// The simulating engine.

fn par_node_of(pairs: &[(i32, f32)], value: f32) -> par_node::Node<F32> {
    par_node::Node::new(pairs.iter().map(|&(a, p)| (a, F32(p))).collect(), F32(value))
}

#[test]
fn simulation_nodes_count_and_revert() {
    let mut n = par_node_of(&[(0, 0.5), (1, 0.5)], 0.25);
    assert_eq!(n.edge_visits, HashMap::from([(0, 0), (1, 0)]));
    n.add_virtual_loss(1, 3);
    assert_eq!(n.virtual_losses[&1], 3);
    n.revert_virtual_loss(1, 5);
    assert_eq!(n.virtual_losses[&1], 0);
    n.apply_penalty(0, &F32(-1.0));
    assert_eq!(n.edge_penalties[&0], F32(-1.0));
    n.revert_penalty(0, &F32(-1.0));
    assert_eq!(n.edge_penalties[&0], F32(0.0));
    assert_eq!(n.recompute_value(&HashMap::new()), F32(0.25));
    assert_eq!(n.node_visits, 1);
    n.edge_visits.insert(0, 3);
    n.children.insert(0, 1);
    // (0.25 + 3 * 0.75) / 4
    assert_eq!(n.recompute_value(&HashMap::from([(0, F32(0.75))])), F32(0.625));
    assert_eq!(n.node_visits, 4);
    assert_eq!(n.select_action(), 0);
}

#[test]
fn simulation_scores_follow_the_formula() {
    let mut n = par_node_of(&[(0, 0.75), (1, 0.25)], 0.5);
    n.edge_visits.insert(0, 3);
    n.virtual_losses.insert(0, 1);
    let scores = n.puct_scores(&F32(2.0), &HashMap::from([(0, F32(0.125))]));
    let root = (4.0f32 + 1e-8).sqrt();
    assert_eq!(scores[&0], F32(0.125 + 2.0 * 0.75 * (root / 5.0)));
    assert_eq!(scores[&1], F32(0.5 + 2.0 * 0.25 * (root / 1.0)));
}

#[test]
fn ties_are_broken_among_the_best() {
    let n = par_node_of(&[(3, 0.4), (5, 0.4), (7, 0.2)], 0.0);
    let mut seen: Vec<i32> = Vec::new();
    for _ in 0..200 {
        let a = n.select_action_puct(&HashMap::new()).unwrap();
        if !seen.contains(&a) {
            seen.push(a);
        }
    }
    seen.sort();
    // With no visits the bonus is next to nothing: all three are within the tolerance.
    assert!(seen.iter().all(|a| [3, 5, 7].contains(a)));
    let mut m = par_node_of(&[(3, 0.4), (5, 0.4), (7, 0.2)], 0.0);
    m.edge_visits.insert(3, 5);
    m.edge_visits.insert(5, 5);
    for _ in 0..50 {
        let picked = m.select_action_puct(&HashMap::new()).unwrap();
        assert_eq!(picked, 7);
    }
    m.children.insert(3, 0);
    let mut most: Vec<i32> = (0..200).map(|_| m.select_action()).collect();
    most.sort();
    most.dedup();
    assert_eq!(most, vec![3, 5]);
    // Nothing can be picked where there is nothing.
    assert_eq!(par_node_of(&[], 0.0).select_action_puct(&HashMap::new()), None);
}

#[test]
fn priors_are_a_softmax() {
    let mcts: par_mcts::MCTS<F32> = par_mcts::MCTS::new();
    let priors = mcts.normalize_prior(&vec![F32(0.0), F32(0.0)], &vec![0, 1, 9, -1]);
    assert_eq!(priors[&0], F32(0.5));
    assert_eq!(priors[&1], F32(0.5));
    assert_eq!(priors[&9], F32(0.0));
    assert_eq!(priors[&-1], F32(0.0));
}

#[test]
fn simulation_run_finds_its_way() {
    let env = MockEnv { state: 0, limit: 3 };
    let agent = MockAgent::new(env.num_actions());
    let mut mcts: par_mcts::MCTS<F32> = par_mcts::MCTS::new();
    assert_eq!(mcts.terminal_value, F32(1.0));
    let root = mcts.run(&env, &agent, 200).unwrap();
    assert_eq!(mcts.get_node(0), Some(root));
    assert!(mcts.is_expanded(&mcts.get_node(0)));
    assert!(!mcts.is_expanded(&mcts.get_node(77)));
    let n = &mcts.nodes[root];
    // One visit per playout, and one for each of the two links.
    assert_eq!(n.edge_visits.values().sum::<u32>(), 202);
    assert_eq!(n.priors[&0], F32(0.5));
    assert!(n.virtual_losses.values().all(|&v| v == 0));
    assert!([0, 1].contains(&mcts.choose_action(root)));
    // The states passed are those of the line.
    assert!(mcts.nodes.len() <= 7);
    // A search keeps the nodes it found.
    let before = mcts.nodes.len();
    let again = mcts.run(&env, &agent, 10).unwrap();
    assert_eq!(again, root);
    assert!(mcts.nodes.len() >= before);
    assert_eq!(mcts.nodes[root].edge_visits.values().sum::<u32>(), 212);
}

#[test]
fn simulation_run_stops_at_once_when_done() {
    let env = MockEnv { state: 9, limit: 3 };
    let agent = MockAgent::new(2);
    let mut mcts: par_mcts::MCTS<F32> = par_mcts::MCTS::new();
    let root = mcts.run(&env, &agent, 50).unwrap();
    assert!(mcts.nodes[root].terminal_state);
    assert_eq!(mcts.nodes[root].value, F32(1.0));
    assert_eq!(mcts.nodes.len(), 1);
}

#[test]
fn simulations_step_by_step() {
    let start = MockEnv { state: 0, limit: 2 };
    let agent = MockAgent::new(2);
    let mut mcts: par_mcts::MCTS<F32> = par_mcts::MCTS::new();
    let mut passed: u32 = 0;
    for _ in 0..30 {
        let mut env = start;
        let mut path: Vec<(u64, i32)> = Vec::new();
        let mut place = mcts.ensure_node(&env, &agent);
        while !par_graph::Environment::<F32>::done(&env) {
            match mcts.descend(&mut env, &mut path, place) {
                Descent::Node(next) => place = next,
                Descent::Leaf => break,
                Descent::Stuck => panic!("two actions are always there"),
            }
        }
        mcts.settle(&env, &agent, &path);
        passed += path.iter().filter(|s| s.0 == 0).count() as u32;
    }
    let root = mcts.get_node(0).unwrap();
    // A simulation may pass a state more than once; every pass counts.
    assert!(passed >= 30);
    assert_eq!(mcts.nodes[root].edge_visits.values().sum::<u32>(), passed);
    assert!(mcts.nodes.iter().all(|n| n.virtual_losses.values().all(|&v| v == 0)));
    assert!(mcts.check_state_repeat(4, &vec![(1, 0), (4, 1)]));
    assert!(!mcts.check_state_repeat(5, &vec![(1, 0), (4, 1)]));
}

#[test]
fn a_repeated_state_is_penalized() {
    let agent = MockAgent::new(2);
    let env = MockEnv { state: 0, limit: 9 };
    let mut mcts: par_mcts::MCTS<F32> = par_mcts::MCTS::new();
    let root = mcts.ensure_node(&env, &agent);
    let right = MockEnv { state: 1, limit: 9 };
    let child = mcts.expand(root, 1, &right, &agent);
    assert_eq!(mcts.get_child_node(root, 1), Some(child));
    assert_eq!(mcts.nodes[root].edge_visits[&1], 1);
    mcts.backpropagate(&vec![(0, 1), (1, 0)], true);
    assert_eq!(mcts.nodes[child].edge_penalties[&0], F32(-1.0));
    assert_eq!(mcts.nodes[root].edge_penalties[&1], F32(0.0));
    assert_eq!(mcts.nodes[root].edge_visits[&1], 2);
    assert_eq!(mcts.nodes[child].edge_visits[&0], 1);
    let mut env = right;
    par_graph::Environment::<F32>::step(&mut env, 0);
    assert_eq!(env.state, 0);
    assert_eq!(mcts.child_values(root)[&1], mcts.nodes[child].value);
}

#[test]
fn agents_that_know_nothing() {
    let (priors, value): (HashMap<usize, F32>, F32) =
        Agent::<u8, F32>::infer(&DummyAgent::new(4), &0u8);
    assert_eq!(priors.len(), 4);
    assert!(priors.values().all(|p| *p == F32(0.25)));
    assert_eq!(value, F32(0.0));
    let (batch, values): (Vec<HashMap<usize, F32>>, Vec<F32>) =
        Agent::<u8, F32>::batch_infer(&DummyAgent::new(2), &vec![0u8, 1, 2]);
    assert_eq!((batch.len(), values.len()), (3, 3));
    let obs = token_obs();
    let (p, v): (HashMap<u16, F32>, F32) = core_agent::DummyAgent::new().infer(&obs);
    assert_eq!(p, HashMap::from([(1, F32(0.5)), (7, F32(0.5))]));
    assert_eq!(v, F32(-1.0));
    let mut request = RequestScratchPad::new(MAX_BATCH);
    request.pack(&[token_obs()]);
    let mut response: ResponseScratchPad<F32> = ResponseScratchPad::new(MAX_BATCH);
    core_agent::DummyAgent::new().infer_into(&request, 1, &mut response);
    assert_eq!(response.priors[0][7], F32(0.5));
    assert_eq!(response.priors[0][2], F32(0.0));
    assert_eq!(response.values[0], F32(-1.0));
}

fn token_obs() -> Observation {
    Observation {
        placement: vec![1, 2, 3, 4],
        objectives_0: vec![5],
        objectives_1: vec![6, 7],
        height: 2,
        width: 2,
        num_ancillas: 1,
        valid_actions: vec![1, 7],
    }
}

#[test]
fn leaves_are_batched_and_none_is_lost() {
    let mut batch: LeafBatch<u32> = LeafBatch::new(3);
    let mut out: Vec<u32> = Vec::new();
    for i in 0..7u32 {
        let step = batch.accept(Incoming::Item(i), false);
        assert!(!step.exit);
        assert!(step.batch.is_empty() || step.batch.len() == 3);
        out.extend(step.batch);
    }
    let step = batch.accept(Incoming::Timeout, false);
    assert!(!step.exit);
    out.extend(step.batch);
    assert_eq!(out, (0..7).collect::<Vec<u32>>());
    assert!(batch.goes_on(false));
    assert!(batch.accept(Incoming::Timeout, true).exit);
    assert!(batch.accept(Incoming::Disconnected, false).exit);
    let pairs = pair_results(
        vec!['a', 'b'],
        vec![HashMap::from([(1u8, F32(0.1))]), HashMap::new()],
        vec![F32(1.0), F32(2.0)],
    );
    assert_eq!((pairs[1].meta, pairs[1].value), ('b', F32(2.0)));
}

#[test]
fn the_coordinator_reacts_to_events() {
    assert!(matches!(coordinate(&Incoming::Item(1), false), CoordinatorStep::Apply));
    assert!(matches!(coordinate::<u8>(&Incoming::Timeout, false), CoordinatorStep::Wait));
    assert!(matches!(coordinate::<u8>(&Incoming::Timeout, true), CoordinatorStep::Exit));
    assert!(matches!(
        coordinate::<u8>(&Incoming::Disconnected, false),
        CoordinatorStep::Shutdown
    ));
    let runner = MCTSRunner::new(2, 8, 64);
    assert!(runner.keeps_running(3, 4, false));
    assert!(!runner.keeps_running(4, 4, false));
    assert!(!runner.keeps_running(3, 4, true));
}

#[derive(Clone, Debug, Hash, PartialEq, Eq)]
struct At(u64);

impl Obs for At {}

#[derive(Clone, Debug)]
struct Steps(u64);

impl Environment for Steps {
    type Act = u8;
    type Obs = At;

    fn clone_law(_a: Self, _b: Self) {}

    fn slots_law(_id: u64) {}

    fn step(&mut self, action: u8) {
        self.0 = self.0 * 2 + action as u64;
    }

    fn observation(&self) -> At {
        At(self.0)
    }

    fn valid_actions(&self) -> Vec<u8> {
        vec![0, 1]
    }

    fn num_actions(&self) -> usize {
        2
    }

    fn done(&self) -> bool {
        self.0 > 100
    }

    fn hash(&self) -> u64 {
        self.0
    }

    fn render(&self) -> String {
        format!("{}", self.0)
    }
}

#[test]
fn a_leaf_is_applied_to_the_tree() {
    let mut tree: TreeSearch<Steps, F32> = TreeSearch::new(4);
    let even = || HashMap::from([(0u8, F32(0.5)), (1u8, F32(0.5))]);
    let root = tree.create_node(&Steps(1), even(), F32(0.0));
    tree.root_id = Some(root);
    assert!(leaf_meta(vec![], None, None, Steps(1), false).is_none());
    let leaf = leaf_meta(vec![(1, 1)], Some(1), Some(1), Steps(3), false).unwrap();
    assert_eq!(leaf.obs, At(3));
    tree.apply_result(leaf, even(), F32(0.5));
    let n = tree.get_node_immut(1).unwrap();
    assert_eq!(n.children[1], Some(3));
    assert_eq!(n.edge_visits[1], 1);
    let stats = tree.edge_stats(n, 1);
    assert_eq!(stats.len(), 1);
    assert_eq!((stats[0].action, stats[0].visits, stats[0].expanded), (1, 1, true));
    assert_eq!(stats[0].q, F32(0.5));
    assert_eq!(tree.principal_variation(n, 5), vec![1]);
    assert_eq!(valid_visits(n), HashMap::from([(0, 0), (1, 1)]));
    assert_eq!(valid_priors(n), even());
}

#[test]
fn statistics_are_ranked_by_visits() {
    let mut tree: TreeSearch<Steps, F32> = TreeSearch::new(4);
    let mut n: TreeNode<u8, F32> =
        TreeNode::new(2, HashMap::from([(0u8, F32(0.9)), (1u8, F32(0.1))]), F32(0.0), 1, None);
    n.edge_visits[1] = 4;
    tree.insert_node(1, n);
    let n = tree.get_node_immut(1).unwrap();
    let stats = tree.edge_stats(n, 9);
    assert_eq!(stats.iter().map(|s| s.action).collect::<Vec<_>>(), vec![1, 0]);
    assert_eq!(stats[0].q, F32(0.0));
    assert!(!stats[0].expanded && !stats[0].terminal);
}

#[test]
fn terminal_modes() {
    let value = |mode, done, depth| {
        mode_value(mode, done, &F32(20.0), &F32(depth), &F32(1.0)).0
    };
    assert_eq!(value(TerminalMode::Ternary, true, 15.0), 1.0);
    assert_eq!(value(TerminalMode::Ternary, true, 20.0), 0.0);
    assert_eq!(value(TerminalMode::Ternary, true, 25.0), -1.0);
    assert_eq!(value(TerminalMode::Margin, true, 20.0), 0.0);
    assert_eq!(value(TerminalMode::Band, true, 20.0), 0.5);
    assert_eq!(value(TerminalMode::Band, false, 20.0), -1.0);
    assert!(matches!(terminal_mode(true, false), TerminalMode::Band));
    assert!(matches!(terminal_mode(false, true), TerminalMode::Margin));
    assert!(matches!(terminal_mode(false, false), TerminalMode::Ternary));
}

#[test]
fn requests_get_their_answers() {
    let requests = vec![
        InferenceRequest { observation_batch: vec!["a", "b"] },
        InferenceRequest { observation_batch: vec![] },
        InferenceRequest { observation_batch: vec!["c"] },
    ];
    let (all, counts) = flatten(requests);
    assert_eq!(all, vec!["a", "b", "c"]);
    assert_eq!(counts, vec![2, 0, 1]);
    let prior = |p| HashMap::from([(0u8, F32(p))]);
    let answers = split_answers(
        &counts,
        vec![prior(0.1), prior(0.2), prior(0.3)],
        vec![F32(1.0), F32(2.0), F32(3.0)],
    );
    assert_eq!(answers.len(), 3);
    assert_eq!(answers[0].value_batch, vec![F32(1.0), F32(2.0)]);
    assert!(answers[1].value_batch.is_empty());
    assert_eq!(answers[2].prior_batch, vec![prior(0.3)]);
    assert!(takes_more(MAX_BATCH_SIZE - 1));
    assert!(!takes_more(MAX_BATCH_SIZE));
}

// The smaller self-play worker.

#[test]
fn visits_in_proportion() {
    assert_eq!(proportional::<F32>(&vec![1, 3]), vec![F32(0.25), F32(0.75)]);
    assert_eq!(proportional::<F32>(&vec![0, 0]), vec![F32(0.5), F32(0.5)]);
    assert_eq!(noise_alpha::<F32>(20), F32(0.5));
    let worker: SelfPlay<F32, F32> = SelfPlay::new(1, 10, 30, "out".to_string(), F32(0.5));
    let visits = vec![0, 3, 1];
    let quiet = worker.move_weights(&visits, &[1, 2], true, vec![]);
    assert_eq!(quiet, vec![F32(0.375), F32(0.125)]);
    let noisy = worker.move_weights(&visits, &[1, 2], false, vec![F32(1.0), F32(1.0)]);
    assert_eq!(noisy, vec![F32(0.625), F32(0.375)]);
    assert!(!noiseless(0));
    assert!(noiseless(1000));
}

#[test]
fn supervision_puts_weight_on_the_selected_action() {
    let visits = supervised_edge_visits(5, &vec![2, 5, 9], &F32(0.5));
    assert_eq!(visits, HashMap::from([(5, 500), (2, 250), (9, 250)]));
    assert_eq!(supervised_edge_visits(5, &vec![5], &F32(0.5)).get(&5), Some(&500));
}

#[test]
fn transitions_are_scored() {
    let t = Transition { reference_depth: F32(4.0), agent_depth: F32(4.0), finishes: false };
    assert!((transition_score(&t).0 - 0.05f32.tanh()).abs() < 1e-6);
    let last = Transition { reference_depth: F32(4.0), agent_depth: F32(9.0), finishes: true };
    assert_eq!(transition_score(&last), F32(1.0));
    let all = vec![t, last];
    assert_eq!(score_transitions(&F32(9.0), &F32(8.0), &all), vec![F32(1.0), F32(1.0)]);
    let some = score_transitions(&F32(8.0), &F32(8.0), &all);
    assert!(some[0].0 < 1.0);
    assert_eq!(some[1], F32(1.0));
    assert_eq!(outcome_reward::<F32>(true, 3, 4), F32(1.0));
    assert_eq!(outcome_reward::<F32>(true, 4, 4), F32(0.0));
    assert_eq!(outcome_reward::<F32>(true, 5, 4), F32(-1.0));
    assert_eq!(outcome_reward::<F32>(false, 3, 4), F32(-1.0));
}

#[test]
fn ancillas_are_shuffled_among_themselves() {
    let places = ancilla_places(&[false, true, true, false, true]);
    assert_eq!(places, vec![1, 2, 4]);
    let layout = shuffled_layout(5, &places, &vec![4, 1, 2]);
    assert_eq!(layout, vec![0, 4, 1, 3, 2]);
    assert_eq!(oriented(2, 5), (2, 5));
    assert_eq!(oriented(5, 2), (2, 5));
    assert!(needs_clearing(&vec![1, 2], 4));
    assert!(!needs_clearing(&vec![0, 2], 4));
}

#[test]
fn actions_are_ranked_by_their_solutions() {
    assert_eq!((rank_weight(3, 4), rank_weight(4, 4), rank_weight(5, 4)), (10, 5, 1));
    let worker = HeuristicGatherer::new("out".to_string());
    let ranks = worker.ranked_actions(false, 4, &[2, 5, 9], &[3, 4, 5]);
    assert_eq!(ranks, HashMap::from([(2, 10), (5, 5), (9, 1)]));
    assert!(worker.ranked_actions(true, 4, &[2, 5, 9], &[3, 4, 5]).is_empty());
}

#[test]
fn formulas_can_be_written_out() {
    let two = Expr::binary(Binary::Plus, &Expr::decimal(1, 0), &Expr::count(1));
    match two {
        Expr::Binary(Binary::Plus, a, b) => {
            assert!(matches!(*a, Expr::Decimal(1, 0)));
            assert!(matches!(*b, Expr::Count(1)));
        }
        _ => panic!("a sum"),
    }
    let root = Expr::unary(Unary::Sqrt, &Expr::infinity(true));
    assert!(matches!(root, Expr::Unary(Unary::Sqrt, _)));
    assert!(matches!(root.convert(), Expr::Unary(Unary::Sqrt, _)));
    assert!(matches!(Expr::raise(&Expr::count(2), 5), Expr::Raise(_, 5)));
}
