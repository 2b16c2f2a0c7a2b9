//! Games on tokens: played by search, completed by a solver, recorded, scored and demonstrated.

use mcts::environment::Environment;
use mcts::heuristic::HeuristicGatherer;
use mcts::inference::{InferenceClient, InferenceError};
use mcts::node::Node;
use mcts::observation::{Action, Observation};
use mcts::playthrough::Chance;
use mcts::records::Field;
use mcts::scalar::{Binary, Scalar, Unary};
use mcts::scoring::{score_game, transitions};
use mcts::selfplay::SelfPlay;
use mcts::token_play::{game_records, outcome_record, token_record, Style, TokenError, TokenRow};
use std::collections::HashMap;

/// Machine numbers of double precision.
#[derive(Clone, Copy, Debug, PartialEq)]
struct F64(f64);

impl Scalar for F64 {
    fn decimal(digits: i64, exponent: i32) -> Self {
        F64(format!("{}e{}", digits, exponent).parse::<f64>().unwrap())
    }

    fn count(n: usize) -> Self {
        F64(n as f64)
    }

    fn infinity(positive: bool) -> Self {
        F64(if positive { f64::INFINITY } else { f64::NEG_INFINITY })
    }

    fn unary(op: Unary, x: &Self) -> Self {
        F64(match op {
            Unary::Abs => x.0.abs(),
            Unary::Sqrt => x.0.sqrt(),
            Unary::Tanh => x.0.tanh(),
            Unary::Exp => x.0.exp(),
            Unary::Ln => x.0.ln(),
            Unary::Ceil => x.0.ceil(),
            Unary::Floor => x.0.floor(),
            Unary::Round => x.0.round(),
        })
    }

    fn binary(op: Binary, x: &Self, y: &Self) -> Self {
        F64(match op {
            Binary::Plus => x.0 + y.0,
            Binary::Minus => x.0 - y.0,
            Binary::Times => x.0 * y.0,
            Binary::Over => x.0 / y.0,
            Binary::Power => x.0.powf(y.0),
            Binary::Max => x.0.max(y.0),
            Binary::Min => x.0.min(y.0),
        })
    }

    fn raise(x: &Self, n: usize) -> Self {
        F64(x.0.powi(n as i32))
    }

    fn less(x: &Self, y: &Self) -> bool {
        x.0 < y.0
    }

    fn same(x: &Self, y: &Self) -> bool {
        x.0 == y.0
    }

    fn to_count(x: &Self) -> usize {
        x.0 as usize
    }

    fn dup(&self) -> Self {
        *self
    }

    fn less_law(_x: Self) {}

    fn same_law() {}
}

/// Stairs to be climbed by one step or by two.
#[derive(Clone, Debug, PartialEq)]
struct Stairs {
    at: u64,
    moves: u64,
    goal: u64,
}

fn stairs(goal: u64) -> Stairs {
    Stairs { at: 0, moves: 0, goal }
}

fn seen(e: &Stairs) -> Observation {
    Observation {
        placement: vec![e.at as u16],
        objectives_0: vec![e.goal as u16],
        objectives_1: vec![],
        height: 1,
        width: 1,
        num_ancillas: 4,
        valid_actions: vec![1, 2],
    }
}

/// Two steps as long as they fit.
fn plan(e: &Stairs) -> Vec<Action> {
    let rest = e.goal - e.at;
    let mut out = vec![2; (rest / 2) as usize];
    if rest % 2 == 1 {
        out.push(1);
    }
    out
}

fn reference(e: &Stairs) -> F64 {
    F64((e.moves + (e.goal.max(e.at) - e.at + 1) / 2) as f64)
}

impl Environment for Stairs {
    type Act = Action;
    type Obs = Observation;

    fn clone_law(_a: Self, _b: Self) {}

    fn slots_law(_id: u64) {}

    fn step(&mut self, action: Action) {
        self.at += action as u64;
        self.moves += 1;
    }

    fn observation(&self) -> Observation {
        seen(self)
    }

    fn valid_actions(&self) -> Vec<Action> {
        if self.done() {
            vec![]
        } else {
            vec![1, 2]
        }
    }

    fn num_actions(&self) -> usize {
        3
    }

    fn done(&self) -> bool {
        self.at >= self.goal
    }

    fn hash(&self) -> u64 {
        self.at * 64 + self.moves
    }

    fn render(&self) -> String {
        format!("{} of {}", self.at, self.goal)
    }
}

/// The same stairs with plain numbers for actions.
#[derive(Clone)]
struct Ladder(Stairs);

impl Environment for Ladder {
    type Act = usize;
    type Obs = Observation;

    fn clone_law(_a: Self, _b: Self) {}

    fn slots_law(_id: u64) {}

    fn step(&mut self, action: usize) {
        self.0.step(action as Action);
    }

    fn observation(&self) -> Observation {
        seen(&self.0)
    }

    fn valid_actions(&self) -> Vec<usize> {
        self.0.valid_actions().into_iter().map(usize::from).collect()
    }

    fn num_actions(&self) -> usize {
        3
    }

    fn done(&self) -> bool {
        self.0.done()
    }

    fn hash(&self) -> u64 {
        self.0.hash()
    }

    fn render(&self) -> String {
        self.0.render()
    }
}

/// Values every state alike.
struct Even;

impl InferenceClient<Stairs, F64> for Even {
    fn infer(
        &self,
        observations: &[Observation],
    ) -> Result<(Vec<HashMap<Action, F64>>, Vec<F64>), InferenceError> {
        let prior: HashMap<Action, F64> = HashMap::from([(1, F64(0.5)), (2, F64(0.5))]);
        Ok((vec![prior; observations.len()], vec![F64(0.0); observations.len()]))
    }
}

/// Never answers.
struct Mute;

impl InferenceClient<Stairs, F64> for Mute {
    fn infer(
        &self,
        _observations: &[Observation],
    ) -> Result<(Vec<HashMap<Action, F64>>, Vec<F64>), InferenceError> {
        Err(InferenceError::Failed("no answer".to_string()))
    }
}

/// Draws what it was told to draw, and keeps what it was shown.
struct Fixed {
    pick: Option<usize>,
    gammas: usize,
    shown: Vec<Vec<F64>>,
}

fn fixed(pick: Option<usize>) -> Fixed {
    Fixed { pick, gammas: 0, shown: vec![] }
}

impl Chance<F64, F64> for Fixed {
    fn unit(&mut self) -> F64 {
        F64(0.0)
    }

    fn gamma(&mut self, _shape: &F64) -> F64 {
        self.gammas += 1;
        F64(1.0)
    }

    fn between(&mut self, lo: usize, hi: usize) -> usize {
        assert!(lo <= hi);
        lo
    }

    fn weighted(&mut self, weights: &Vec<F64>) -> Option<usize> {
        self.shown.push(weights.clone());
        self.pick
    }
}

fn worker(max_actions: usize) -> SelfPlay<F64, F64> {
    SelfPlay {
        batch_size: 2,
        mcts_steps: 8,
        max_actions,
        output_path: "out".to_string(),
        terminal_value: F64(1.0),
        noise_strength: F64(0.5),
    }
}

const PLAIN: Style = Style { always_noisy: false, advances: true };

#[test]
fn a_game_of_tokens_is_played_to_its_goal() {
    let mut env = stairs(5);
    let mut chance = fixed(Some(0));
    let (rows, actions) = worker(9).play(&mut env, &Even, F64(1.0), PLAIN, &mut chance).unwrap();
    assert_eq!(actions, vec![1, 1, 1, 1, 1]);
    assert_eq!(env, Stairs { at: 5, moves: 5, goal: 5 });
    assert_eq!(rows.len(), 5);
    for (i, row) in rows.iter().enumerate() {
        assert_eq!(row.obs.placement, vec![i as u16]);
        assert_eq!(row.valid_actions, vec![1, 2]);
        assert!(row.edge_visits.keys().all(|a| [1, 2].contains(a)));
        assert!(row.edge_visits.values().sum::<usize>() > 0);
    }
    // The first three moves are noisy, with one sample for each action.
    assert_eq!(chance.gammas, 6);
    assert_eq!(chance.shown.len(), 5);
}

#[test]
fn a_game_of_tokens_stops_at_the_limit() {
    let mut env = stairs(50);
    let mut chance = fixed(Some(1));
    let style = Style { always_noisy: true, advances: false };
    let (rows, actions) = worker(4).play(&mut env, &Even, F64(1.0), style, &mut chance).unwrap();
    assert_eq!(actions, vec![2, 2, 2, 2]);
    assert_eq!(rows.len(), 4);
    assert!(!env.done());
    assert_eq!(chance.gammas, 8);
    let (none, nothing) =
        worker(0).play(&mut env, &Mute, F64(1.0), style, &mut chance).unwrap();
    assert!(none.is_empty() && nothing.is_empty());
}

#[test]
fn the_move_is_drawn_by_visits_and_noise() {
    let priors = HashMap::from([(1, F64(0.5)), (2, F64(0.5))]);
    let mut node: Node<Action, F64> = Node::new(3, priors, F64(0.0), 7, None);
    node.edge_visits = vec![0, 1, 3];
    let mut quiet = fixed(Some(1));
    assert_eq!(worker(1).select_action(&node, &vec![1, 2], true, &mut quiet), Some(2));
    assert_eq!(quiet.shown, vec![vec![F64(0.125), F64(0.375)]]);
    let mut noisy = fixed(Some(0));
    assert_eq!(worker(1).select_action(&node, &vec![1, 2], false, &mut noisy), Some(1));
    assert_eq!(noisy.shown, vec![vec![F64(0.375), F64(0.625)]]);
    assert_eq!(worker(1).select_action(&node, &vec![1, 2], true, &mut fixed(None)), None);
    assert_eq!(worker(1).select_action(&node, &vec![], true, &mut fixed(Some(0))), None);
}

#[test]
fn an_unfinished_game_is_completed_by_the_solver() {
    let game =
        worker(1).gather(stairs(5), &Even, F64(1.0), &plan, &mut fixed(Some(0))).ok().unwrap();
    assert_eq!(game.actions, vec![1, 2, 2]);
    assert_eq!(game.env.at, 5);
    assert_eq!(game.rows.len(), 4);
    let places: Vec<u16> = game.rows.iter().map(|r| r.obs.placement[0]).collect();
    assert_eq!(places, vec![0, 1, 3, 5]);
    for row in &game.rows[1..3] {
        assert_eq!(row.valid_actions, vec![1, 2]);
        assert_eq!(row.edge_visits, HashMap::from([(2, 700), (1, 300)]));
    }
    assert!(game.rows[3].valid_actions.is_empty());
    assert!(game.rows[3].edge_visits.is_empty());
}

#[test]
fn a_game_that_cannot_be_gathered_says_why() {
    let none = |_: &Stairs| -> Vec<Action> { vec![] };
    let mute = worker(1).gather(stairs(5), &Mute, F64(1.0), &plan, &mut fixed(Some(0)));
    assert!(matches!(
        mute.err(),
        Some(TokenError::Inference(InferenceError::Failed(m))) if m == "no answer"
    ));
    // Without an action to search for, nothing is asked.
    let solved = worker(0).gather(stairs(5), &Mute, F64(1.0), &plan, &mut fixed(None));
    assert_eq!(solved.ok().unwrap().actions, vec![2, 2, 1]);
    let stuck = worker(1).gather(stairs(5), &Even, F64(1.0), &plan, &mut fixed(None));
    assert_eq!(stuck.err(), Some(TokenError::NoMove));
    let open = worker(1).gather(stairs(5), &Even, F64(1.0), &none, &mut fixed(Some(0)));
    assert_eq!(open.err(), Some(TokenError::Unsolved));
}

#[test]
fn states_of_tokens_are_recorded() {
    let row = TokenRow {
        obs: seen(&stairs(5)),
        valid_actions: vec![1, 2],
        edge_visits: HashMap::from([(1, 7)]),
    };
    let full = token_record(&row, 3, 4, Some(6), F64(0.5));
    let names: Vec<&str> = full.iter().map(|(n, _)| *n).collect();
    assert_eq!(
        names,
        vec![
            "height", "width", "num_ancillas", "placement", "objectives_0", "objectives_1",
            "valid_actions", "edge_visits", "reward",
        ]
    );
    assert!(matches!(full[0].1, Field::Count(3)));
    assert!(matches!(full[2].1, Field::Count(6)));
    assert!(matches!(full[4].1, Field::Ids(v) if *v == vec![5]));
    assert!(matches!(full[7].1, Field::Visits(m) if m.get(&1) == Some(&7)));
    assert!(matches!(full[8].1, Field::Number(x) if x == F64(0.5)));
    let short = token_record(&row, 3, 4, None, F64(0.5));
    assert_eq!(short.len(), 8);
    assert_eq!(short[2].0, "placement");
    let outcome = outcome_record(&row, F64(-1.0));
    let names: Vec<&str> = outcome.iter().map(|(n, _)| *n).collect();
    assert_eq!(names, vec!["tokens", "edge_visits", "reward"]);
    let rows = vec![row];
    let two = game_records(&rows, 3, 4, 6, &vec![F64(0.25), F64(1.0)]);
    assert_eq!(two.len(), 1);
    assert!(matches!(two[0][8].1, Field::Number(x) if x == F64(0.25)));
    assert!(game_records::<F64>(&rows, 3, 4, 6, &vec![]).is_empty());
}

fn depth(e: &Stairs) -> F64 {
    F64(e.moves as f64)
}

fn forget(mut e: Stairs) -> Stairs {
    e.moves = 0;
    e
}

/// Marks the state as cleared by its moves.
fn clear(mut e: Stairs) -> Stairs {
    e.moves = 7;
    e
}

#[test]
fn every_move_is_measured_against_the_reference() {
    let ts = transitions(stairs(3), &vec![1, 1, 1], 4, &forget, &clear, &reference, &depth);
    let parts: Vec<(f64, f64, bool)> =
        ts.iter().map(|t| (t.reference_depth.0, t.agent_depth.0, t.finishes)).collect();
    assert_eq!(parts, vec![(9.0, 3.0, false), (8.0, 2.0, false), (8.0, 1.0, true)]);
    // With an action past the ancillas nothing has to be cleared.
    let ts = transitions(stairs(3), &vec![1, 1, 1], 1, &forget, &clear, &reference, &depth);
    let parts: Vec<f64> = ts.iter().map(|t| t.reference_depth.0).collect();
    assert_eq!(parts, vec![2.0, 1.0, 1.0]);
}

#[test]
fn a_game_is_scored_move_by_move() {
    let scores = score_game(stairs(3), &vec![1, 1, 1], 1, &forget, &clear, &reference, &depth);
    let expected = [((0.1 + 2.0 - 3.0) / 2.0f64).tanh(), ((0.1 + 1.0 - 2.0) / 2.0f64).tanh(), 1.0];
    assert_eq!(scores.len(), 3);
    for (s, e) in scores.iter().zip(expected) {
        assert!((s.0 - e).abs() < 1e-12);
    }
    let slow = |e: &Stairs| F64(reference(e).0 + 5.0);
    let ahead = score_game(stairs(3), &vec![1, 1, 1], 1, &forget, &clear, &slow, &depth);
    assert_eq!(ahead, vec![F64(1.0); 3]);
}

#[test]
fn the_reference_solution_is_demonstrated() {
    let solve = |e: &Ladder| -> (Vec<usize>, usize) {
        let steps = if e.done() { vec![] } else { plan(&e.0) };
        (steps.into_iter().map(usize::from).collect(), reference(&e.0).0 as usize)
    };
    let rows = HeuristicGatherer::new("out".to_string()).run(Ladder(stairs(4)), &solve);
    assert_eq!(rows.len(), 2);
    assert_eq!(rows[0].obs.placement, vec![0]);
    assert_eq!(rows[1].obs.placement, vec![2]);
    for row in &rows {
        assert_eq!(row.valid_actions, vec![1, 2]);
        assert_eq!(row.edge_visits, HashMap::from([(1, 1), (2, 5)]));
    }
    let done = Ladder(Stairs { at: 4, moves: 2, goal: 4 });
    assert!(HeuristicGatherer::new("out".to_string()).rank(&done, &solve).is_empty());
}
