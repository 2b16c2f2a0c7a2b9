//! One self-play episode: turns of search, resignation and play, and what is recorded of them.

use crate::advance::{next_root, reachable_set};
use crate::environment::{Act, Environment};
use crate::flight::grown;
use crate::gatherer::Gatherer;
use crate::grading::{Ending, Grade, Reference, RewardKind};
use crate::inference::{
    can_ask, is_failure, oracle_of, InferenceClient, InferenceError, Oracle,
};
use crate::mcts::{lemma_total_take, MCTS};
use crate::moves::{dirichlet_noise, spec_dirichlet_noise};
use crate::node::{terminal_node, total, Node, NodeId};
use crate::policy::spec_policy_target;
use crate::reward::{spec_terminal_score, terminal_score};
use crate::run::{batches, playouts, rules_of};
use crate::scalar::{at_most, spec_at_most, times, zero, Binary, Convert, Scalar, Unary};
use crate::search::sound;
use crate::trace::{
    asked_by, asked_first, is_cut_short, is_searched, lemma_search_weaken, Rules,
};
use crate::tilers_obs::{Action, BoardCell, TilersObs};
use crate::tree::{fresh_tuning, quiet, Tuning};
use std::collections::HashMap;
use vstd::prelude::*;

verus! {

/// The search of a turn.
#[derive(Clone, Copy, Debug, PartialEq, Eq, Structural)]
pub struct SearchPlan {
    /// Whether it is a full search, which is recorded.
    pub full: bool,
    /// Playouts.
    pub steps: usize,
    /// Whether noise is mixed into the root priors.
    pub noisy: bool,
}

impl<R: Scalar, D: Scalar> Gatherer<R, D> {
    /// What [`Gatherer::plan_search`] gives.
    pub open spec fn spec_plan_search(&self, draw: R) -> SearchPlan {
        let full = R::spec_less(draw, self.p_full_search);
        SearchPlan {
            full,
            steps: if full {
                self.mcts_steps
            } else {
                self.fast_steps
            },
            noisy: full && R::spec_less(zero(), self.dirichlet_epsilon),
        }
    }

    /// The search of a turn, by a number drawn from 0 to 1.
    pub fn plan_search(&self, draw: &R) -> (r: SearchPlan)
        ensures
            r == self.spec_plan_search(*draw),
    {
        let full: bool = R::less(draw, &self.p_full_search);
        SearchPlan {
            full,
            steps: if full {
                self.mcts_steps
            } else {
                self.fast_steps
            },
            noisy: full && R::less(&R::decimal(0, 0), &self.dirichlet_epsilon),
        }
    }
}

/// A number per action, the last one for an action that occurs more than once.
pub open spec fn spec_noise_map<D: Convert<R>, R: Scalar>(
    ids: Seq<Action>,
    noise: Seq<D>,
) -> Map<Action, R>
    decreases ids.len(),
{
    if ids.len() == 0 {
        Map::empty()
    } else {
        spec_noise_map::<D, R>(ids.drop_last(), noise).insert(
            ids.last(),
            noise[ids.len() - 1].spec_convert(),
        )
    }
}

/// A number per action.
fn noise_map<D: Convert<R>, R: Scalar>(ids: &Vec<Action>, noise: &Vec<D>) -> (r: HashMap<Action, R>)
    requires
        noise@.len() == ids@.len(),
    ensures
        r@ == spec_noise_map::<D, R>(ids@, noise@),
{
    broadcast use vstd::std_specs::hash::group_hash_axioms;

    let mut out: HashMap<Action, R> = HashMap::new();
    let mut i: usize = 0;
    assert(ids@.take(0).len() == 0);
    assert(out@ =~= spec_noise_map::<D, R>(ids@.take(0), noise@));
    while i < ids.len()
        invariant
            i <= ids@.len(),
            noise@.len() == ids@.len(),
            out@ == spec_noise_map::<D, R>(ids@.take(i as int), noise@),
        decreases ids.len() - i,
    {
        assert(ids@.take(i + 1).drop_last() =~= ids@.take(i as int));
        out.insert(ids[i], noise[i].convert());
        i += 1;
    }
    assert(ids@.take(i as int) =~= ids@);
    out
}

/// A share of some visits as a number of visits, rounded.
pub open spec fn visits_of_share<R: Scalar>(share: R, visits: usize) -> usize {
    R::spec_to_count(R::spec_unary(Unary::Round, times(share, R::spec_count(visits))))
}

/// A target distribution in terms of visits.
pub open spec fn spec_target_visits<R: Scalar>(
    target: Map<Action, R>,
    visits: usize,
) -> Map<Action, usize> {
    Map::new(
        |a: Action| target.contains_key(a),
        |a: Action| visits_of_share(target[a], visits),
    )
}

/// A target distribution in terms of visits.
fn target_visits<R: Scalar>(target: &HashMap<Action, R>, visits: usize) -> (r: HashMap<
    Action,
    usize,
>)
    ensures
        r@ == spec_target_visits(target@, visits),
{
    broadcast use vstd::std_specs::hash::group_hash_axioms;

    let mut out: HashMap<Action, usize> = HashMap::new();
    for entry in it: target.iter()
        invariant
            forall|a: Action| #[trigger]
                out@.contains_key(a) ==> target@.contains_key(a) && out@[a] == visits_of_share(
                    target@[a],
                    visits,
                ),
            forall|a: Action|
                target@.contains_key(a) && !(#[trigger] out@.contains_key(a)) ==> exists|j: int|
                    it.index() <= j < it.seq().len() && *(#[trigger] it.seq()[j]).0 == a,
    {
        let share: R = R::binary(Binary::Times, entry.1, &R::count(visits));
        out.insert(*entry.0, R::to_count(&R::unary(Unary::Round, &share)));
    }
    assert(out@ =~= spec_target_visits(target@, visits));
    out
}

/// The sum of some counts.
pub fn count_total(counts: &Vec<usize>) -> (r: usize)
    requires
        total(counts@) <= usize::MAX,
    ensures
        r == total(counts@),
{
    let mut out: usize = 0;
    let mut i: usize = 0;
    assert(counts@.take(0).len() == 0);
    while i < counts.len()
        invariant
            i <= counts@.len(),
            total(counts@) <= usize::MAX,
            out == total(counts@.take(i as int)),
        decreases counts.len() - i,
    {
        proof {
            lemma_total_take(counts@, i as int);
        }
        out = out + counts[i];
        i += 1;
    }
    assert(counts@.take(i as int) =~= counts@);
    out
}


/// What a full search is recorded as: the state, and the visits that make up its policy target.
pub struct TurnRecord {
    pub board: Vec<Vec<BoardCell>>,
    pub num_ancillas: usize,
    pub valid_actions: Vec<Action>,
    pub edge_visits: HashMap<Action, usize>,
}

/// What a step is recorded as: the state and the action taken in it.
pub struct StepRecord {
    pub board: Vec<Vec<BoardCell>>,
    pub num_ancillas: usize,
    pub valid_actions: Vec<Action>,
    pub action: Action,
    pub height: usize,
    pub width: usize,
}

/// Whether two boards hold the same cells.
pub open spec fn same_board(a: Seq<Vec<BoardCell>>, b: Seq<Vec<BoardCell>>) -> bool {
    &&& a.len() == b.len()
    &&& forall|l: int| 0 <= l < a.len() ==> (#[trigger] a[l])@ == b[l]@
}

/// What happened in the search of a turn.
pub enum Turn<R: Scalar> {
    /// The episode is over.
    Resigned,
    /// A move is to be drawn by the visits of the root, among the valid actions.
    Move(Node<Action, R>, Vec<Action>),
}

/// An episode that is being played.
#[verifier::reject_recursive_types(E)]
#[verifier::reject_recursive_types(R)]
pub struct Episode<E: Environment, R: Scalar> {
    pub mcts: MCTS<E, R>,
    pub env: E,
    pub reference: Reference<R>,
    pub max_actions: usize,
    /// Steps played.
    pub step: usize,
    pub resignation_enabled: bool,
    pub resign_allowed: bool,
    /// Searches in a row whose value was at most the threshold.
    pub low_value_streak: usize,
    pub resigned: bool,
    /// Whether nothing is left to play.
    pub over: bool,
    /// The recorded full searches.
    pub temp_data: Vec<TurnRecord>,
    /// The recorded steps.
    pub all_steps_data: Vec<StepRecord>,
    /// The value of the root at each search, where it is logged.
    pub q_trace: Vec<R>,
    /// Whether the depth was beyond the reference at each search, where it is logged.
    pub over_solver_trace: Vec<bool>,
    /// Playouts of all searches so far.
    pub played: Ghost<nat>,
}

/// Whether a searched root makes an episode resign.
pub open spec fn spec_resigns<R: Scalar, D: Scalar>(
    g: &Gatherer<R, D>,
    reference_depth: R,
    allowed: bool,
    streak: int,
    step: usize,
) -> bool {
    allowed && streak >= g.resign_consecutive_moves && step >= g.spec_resign_floor(reference_depth)
}

/// The number of low values in a row, with one more value.
pub open spec fn spec_streak<R: Scalar, D: Scalar>(g: &Gatherer<R, D>, streak: int, q: R) -> int {
    if spec_at_most(q, g.resign_value_threshold) {
        streak + 1
    } else {
        0
    }
}

/// What a search is tuned by once noise over actions is mixed into its root priors, made from
/// Gamma samples.
pub open spec fn noised<R: Scalar, D: Convert<R>>(
    tuning: Tuning<Action, R>,
    g: &Gatherer<R, D>,
    ids: Seq<Action>,
    samples: Seq<D>,
) -> Tuning<Action, R> {
    Tuning {
        root_noise: Some(spec_noise_map::<D, R>(ids, spec_dirichlet_noise(samples))),
        root_noise_epsilon: g.dirichlet_epsilon,
        ..tuning
    }
}

/// Whether a value is the score of a terminal state, by its depth against the reference.
pub open spec fn is_score<E: Environment, R: Scalar, D: Scalar, G: Fn(&E) -> R>(
    g: &Gatherer<R, D>,
    reference: Reference<R>,
    depth: &G,
    id: NodeId,
    value: R,
) -> bool {
    exists|e: &E, d: R| #[trigger]
        call_ensures(depth, (e,), d) && e.spec_hash() == id && value == spec_terminal_score(
            E::spec_done(id),
            reference.depth,
            reference.spec_scaffold_depth(),
            d,
            g.reward_saturation_temperature,
        )
}

/// What the search of a turn is led by. Full searches have forced playouts.
pub open spec fn turn_rules<E: Environment<Act = Action>, R: Scalar, D: Scalar, G: Fn(&E) -> R>(
    g: &Gatherer<R, D>,
    oracle: Oracle<Action, R>,
    reference: Reference<R>,
    depth: &G,
    root: NodeId,
    tuning: Tuning<Action, R>,
    c_puct: R,
    full: bool,
) -> Rules<Action, R> {
    Rules {
        root,
        tuning,
        c_puct,
        forced: full,
        finishes: |id: NodeId, value: R| is_score::<E, R, D, G>(g, reference, depth, id, value),
        oracle,
    }
}

/// Whether a full search is recorded: the state as it is seen, and the visits that make up the
/// policy target.
pub open spec fn is_recorded<E: Environment<Act = Action, Obs = TilersObs>, R: Scalar>(
    rec: TurnRecord,
    env: E,
    mcts: &MCTS<E, R>,
    c_puct: R,
) -> bool {
    exists|obs: TilersObs|
        {
            &&& #[trigger] call_ensures(E::observation, (&env,), obs)
            &&& same_board(rec.board@, obs.board@)
            &&& rec.num_ancillas == obs.num_ancillas
            &&& rec.valid_actions@ == E::spec_actions(env.spec_hash())
            &&& rec.edge_visits@ == spec_recorded_visits(mcts, c_puct)
        }
}

/// Whether a step is recorded: the state as it is seen, and the action taken in it.
pub open spec fn is_noted<E: Environment<Act = Action, Obs = TilersObs>>(
    rec: StepRecord,
    env: E,
    action: Action,
) -> bool {
    exists|obs: TilersObs|
        {
            &&& #[trigger] call_ensures(E::observation, (&env,), obs)
            &&& same_board(rec.board@, obs.board@)
            &&& rec.num_ancillas == obs.num_ancillas
            &&& rec.valid_actions@ == E::spec_actions(env.spec_hash())
            &&& rec.action == action
            &&& rec.height == obs.height
            &&& rec.width == obs.width
        }
}

impl<E: Environment<Act = Action, Obs = TilersObs>, R: Scalar> Episode<E, R> {
    /// Whether nothing of an episode was played yet. The number drawn decides whether it may
    /// resign.
    pub open spec fn is_start<D: Scalar>(
        &self,
        g: &Gatherer<R, D>,
        env: E,
        reference: Reference<R>,
        draw: R,
    ) -> bool {
        &&& self.env == env
        &&& self.reference == reference
        &&& self.max_actions == g.spec_action_budget(reference.actions)
        &&& self.step == 0
        &&& self.mcts.batch_size == g.batch_size
        &&& self.mcts.nodes@.len() == 0
        &&& self.mcts.root_id is None
        &&& self.mcts.tuning() == fresh_tuning::<Action, R>()
        &&& self.resignation_enabled == g.spec_resignation_enabled()
        &&& self.resign_allowed == (g.spec_resignation_enabled() && spec_at_most(
            g.no_resign_rate,
            draw,
        ))
        &&& self.low_value_streak == 0
        &&& !self.resigned
        &&& self.over == (self.max_actions == 0)
        &&& self.temp_data@.len() == 0
        &&& self.all_steps_data@.len() == 0
        &&& self.q_trace@.len() == 0
        &&& self.over_solver_trace@.len() == 0
        &&& self.played@ == 0
    }

    /// The tuning of the search of a turn: with the noise of the samples, if the plan asks for it.
    pub open spec fn spec_tuning<D: Convert<R>>(
        &self,
        g: &Gatherer<R, D>,
        plan: SearchPlan,
        samples: Seq<D>,
    ) -> Tuning<Action, R> {
        if plan.noisy {
            noised(self.mcts.tuning(), g, E::spec_actions(self.env.spec_hash()), samples)
        } else {
            self.mcts.tuning()
        }
    }

    /// What the search of a turn is led by.
    pub open spec fn spec_rules<D: Convert<R>, G: Fn(&E) -> R>(
        &self,
        g: &Gatherer<R, D>,
        c_puct: R,
        plan: SearchPlan,
        samples: Seq<D>,
        depth: &G,
        oracle: Oracle<Action, R>,
    ) -> Rules<Action, R> {
        turn_rules::<E, R, D, G>(
            g,
            oracle,
            self.reference,
            depth,
            self.env.spec_hash(),
            self.spec_tuning(g, plan, samples),
            c_puct,
            plan.full,
        )
    }

    /// The batches that the search of a turn asks for.
    pub open spec fn asked_in_search<D: Convert<R>, G: Fn(&E) -> R>(
        &self,
        g: &Gatherer<R, D>,
        c_puct: R,
        plan: SearchPlan,
        samples: Seq<D>,
        depth: &G,
        oracle: Oracle<Action, R>,
    ) -> spec_fn(Seq<TilersObs>) -> bool {
        asked_by::<E, R>(
            self.spec_rules(g, c_puct, plan, samples, depth, oracle),
            self.mcts.tree(),
            batches(plan.steps, self.mcts.batch_size),
            self.mcts.batch_size as nat,
        )
    }

    /// Whether the search of a turn makes this episode into another.
    ///
    /// The tree is searched from the state of the episode. The value of its root is logged,
    /// counts for resignation, and may end the episode. Else a full search is recorded.
    pub open spec fn has_searched<D: Convert<R>, G: Fn(&E) -> R>(
        &self,
        after: &Self,
        g: &Gatherer<R, D>,
        c_puct: R,
        plan: SearchPlan,
        samples: Seq<D>,
        depth: &G,
        oracle: Oracle<Action, R>,
    ) -> bool {
        let root = self.env.spec_hash();
        let tree = after.mcts.tree();
        let q = tree[root].value;
        let tuning = self.spec_tuning(g, plan, samples);
        &&& after.env == self.env
        &&& after.reference == self.reference
        &&& after.max_actions == self.max_actions
        &&& after.step == self.step
        &&& after.resignation_enabled == self.resignation_enabled
        &&& after.resign_allowed == self.resign_allowed
        &&& after.all_steps_data == self.all_steps_data
        &&& after.mcts.batch_size == self.mcts.batch_size
        &&& after.mcts.root_id == Some(root)
        &&& after.mcts.tuning() == quiet(tuning)
        &&& tree.contains_key(root)
        &&& E::spec_done(root) && self.mcts.tree().contains_key(root) ==> tree == self.mcts.tree()
        &&& E::spec_done(root) && !self.mcts.tree().contains_key(root) ==> tree
            == self.mcts.tree().insert(root, tree[root]) && terminal_node(tree[root], root, q)
            && is_score::<E, R, D, G>(g, self.reference, depth, root, q)
        &&& !E::spec_done(root) ==> is_searched::<E, R>(
            self.spec_rules(g, c_puct, plan, samples, depth, oracle),
            self.mcts.tree(),
            tree,
            batches(plan.steps, self.mcts.batch_size),
            self.mcts.batch_size as nat,
        )
        &&& after.played@ == self.played@ + playouts(plan.steps, self.mcts.batch_size)
        &&& after.q_trace@ == (if g.resignation_log_dir is Some {
            self.q_trace@.push(q)
        } else {
            self.q_trace@
        })
        &&& if g.resignation_log_dir is Some {
            exists|d: R| #[trigger]
                call_ensures(depth, (&self.env,), d) && after.over_solver_trace@
                    == self.over_solver_trace@.push(R::spec_less(self.reference.depth, d))
        } else {
            after.over_solver_trace@ == self.over_solver_trace@
        }
        &&& after.low_value_streak == (if self.resignation_enabled {
            spec_streak(g, self.low_value_streak as int, q)
        } else {
            self.low_value_streak as int
        })
        &&& after.over == (self.resignation_enabled && spec_resigns(
            g,
            self.reference.depth,
            self.resign_allowed,
            after.low_value_streak as int,
            self.step,
        ))
        &&& after.resigned == (self.resigned || after.over)
        &&& if plan.full && !after.over {
            &&& after.temp_data@.len() == self.temp_data@.len() + 1
            &&& after.temp_data@.drop_last() == self.temp_data@
            &&& is_recorded::<E, R>(after.temp_data@.last(), self.env, &after.mcts, c_puct)
        } else {
            after.temp_data == self.temp_data
        }
    }

    /// Whether an action makes this episode into another: the step is recorded, and the game
    /// goes on from the state that it leads to, with the part of the tree below it, unless the
    /// goal is reached or the budget is spent.
    pub open spec fn has_played(&self, after: &Self, action: Action) -> bool {
        let next = E::spec_next(self.env.spec_hash(), action);
        let below = next_root(self.mcts.root_id, self.mcts.tree(), action);
        &&& E::spec_actions(self.env.spec_hash()).contains(action)
        &&& after.env.spec_hash() == next
        &&& after.reference == self.reference
        &&& after.max_actions == self.max_actions
        &&& after.resignation_enabled == self.resignation_enabled
        &&& after.resign_allowed == self.resign_allowed
        &&& after.low_value_streak == self.low_value_streak
        &&& after.resigned == self.resigned
        &&& after.temp_data == self.temp_data
        &&& after.q_trace == self.q_trace
        &&& after.over_solver_trace == self.over_solver_trace
        &&& after.played == self.played
        &&& after.mcts.batch_size == self.mcts.batch_size
        &&& after.mcts.tuning() == self.mcts.tuning()
        &&& after.step == self.step + 1
        &&& after.over == (E::spec_done(next) || after.step == after.max_actions)
        &&& !E::spec_done(next) ==> after.mcts.root_id == below
        &&& after.mcts.tree() == (match below {
            Some(id) if !E::spec_done(next) => self.mcts.tree().restrict(
                reachable_set(self.mcts.tree(), id),
            ),
            _ => self.mcts.tree(),
        })
        &&& after.all_steps_data@.len() == self.all_steps_data@.len() + 1
        &&& after.all_steps_data@.drop_last() == self.all_steps_data@
        &&& is_noted::<E>(after.all_steps_data@.last(), self.env, action)
    }

    /// The tree is one of the environment, and no node was visited more often than playouts
    /// were made.
    pub open spec fn wf(&self) -> bool {
        &&& self.mcts.wf()
        &&& sound::<E, R>(self.mcts.tree())
        &&& forall|id: NodeId| #[trigger]
            self.mcts.tree().contains_key(id) ==> self.mcts.tree()[id].load() <= self.played@
        &&& self.step <= self.max_actions
        &&& self.low_value_streak <= self.step + 1
        &&& !self.over ==> self.step < self.max_actions
    }

    /// Whether the next thing to do is a search.
    pub open spec fn ready(&self) -> bool {
        !self.over && self.low_value_streak <= self.step
    }

    /// Begins an episode. Where resignation is enabled, the number drawn from 0 to 1 decides
    /// whether the episode may resign; else it is not looked at.
    pub fn start<D: Scalar>(
        g: &Gatherer<R, D>,
        env: E,
        reference: Reference<R>,
        draw: &R,
    ) -> (r: Self)
        requires
            g.spec_action_budget(reference.actions) <= usize::MAX,
        ensures
            r.wf(),
            r.is_start(g, env, reference, *draw),
            !r.over ==> r.ready(),
    {
        let max_actions: usize = g.action_budget(reference.actions);
        let resignation_enabled: bool = g.resignation_enabled();
        let mcts: MCTS<E, R> = MCTS::new(g.batch_size);
        let r: Self = Episode {
            mcts,
            env,
            reference,
            max_actions,
            step: 0,
            resignation_enabled,
            resign_allowed: resignation_enabled && at_most(&g.no_resign_rate, draw),
            low_value_streak: 0,
            resigned: false,
            over: max_actions == 0,
            temp_data: Vec::new(),
            all_steps_data: Vec::new(),
            q_trace: Vec::new(),
            over_solver_trace: Vec::new(),
            played: Ghost(0),
        };
        r
    }

    /// Takes the value of the searched root and the depth of the state: logs them, counts low
    /// values in a row, and resigns where the rules say so.
    pub fn judge<D: Scalar>(&mut self, g: &Gatherer<R, D>, q: &R, depth: &R)
        requires
            old(self).wf(),
            old(self).ready(),
        ensures
            final(self).wf(),
            final(self).mcts == old(self).mcts,
            final(self).env == old(self).env,
            final(self).reference == old(self).reference,
            final(self).max_actions == old(self).max_actions,
            final(self).step == old(self).step,
            final(self).resignation_enabled == old(self).resignation_enabled,
            final(self).resign_allowed == old(self).resign_allowed,
            final(self).temp_data == old(self).temp_data,
            final(self).all_steps_data == old(self).all_steps_data,
            final(self).played == old(self).played,
            final(self).q_trace@ == (if g.resignation_log_dir is Some {
                old(self).q_trace@.push(*q)
            } else {
                old(self).q_trace@
            }),
            final(self).over_solver_trace@ == (if g.resignation_log_dir is Some {
                old(self).over_solver_trace@.push(R::spec_less(old(self).reference.depth, *depth))
            } else {
                old(self).over_solver_trace@
            }),
            final(self).low_value_streak == (if old(self).resignation_enabled {
                spec_streak(g, old(self).low_value_streak as int, *q)
            } else {
                old(self).low_value_streak as int
            }),
            final(self).over == (old(self).resignation_enabled && spec_resigns(
                g,
                old(self).reference.depth,
                old(self).resign_allowed,
                final(self).low_value_streak as int,
                old(self).step,
            )),
            final(self).resigned == (old(self).resigned || final(self).over),
    {
        if g.resignation_log_dir.is_some() {
            self.q_trace.push(q.dup());
            self.over_solver_trace.push(R::less(&self.reference.depth, depth));
        }
        if self.resignation_enabled {
            if at_most(q, &g.resign_value_threshold) {
                self.low_value_streak = self.low_value_streak + 1;
            } else {
                self.low_value_streak = 0;
            }
            if self.resign_allowed && self.low_value_streak >= g.resign_consecutive_moves
                && self.step >= g.resign_floor(&self.reference.depth) {
                self.resigned = true;
                self.over = true;
            }
        }
    }

    /// Registers noise over the actions for the next search of the root. The samples are Gamma
    /// samples, one per action.
    pub fn register_noise<D: Convert<R>>(
        &mut self,
        g: &Gatherer<R, D>,
        ids: &Vec<Action>,
        samples: Vec<D>,
    )
        requires
            samples@.len() == ids@.len(),
        ensures
            final(self).mcts.tuning() == noised(old(self).mcts.tuning(), g, ids@, samples@),
            final(self).mcts.root_id == old(self).mcts.root_id,
            final(self).mcts.batch_size == old(self).mcts.batch_size,
            final(self).mcts.nodes == old(self).mcts.nodes,
            final(self).mcts.transposition_table == old(self).mcts.transposition_table,
            final(self).mcts.tree() == old(self).mcts.tree(),
            *final(self) == (Episode { mcts: final(self).mcts, ..*old(self) }),
    {
        let noise: Vec<D> = dirichlet_noise(samples);
        let mixed_in: HashMap<Action, R> = noise_map(ids, &noise);
        self.mcts.perturb_root_prior(&mixed_in, g.dirichlet_epsilon.dup());
        assert(self.mcts.tree() =~= old(self).mcts.tree());
    }

    /// Searches the state of the turn, takes the value of the root, and records the search if it
    /// is a full one.
    ///
    /// `depth` gives the depth of a state. The samples are Gamma samples for the noise on the
    /// root priors, one per valid action, and are needed where the plan asks for noise.
    pub fn search<
        D: Convert<R>,
        C: InferenceClient<E, R> + ?Sized,
        G: Fn(&E) -> R,
    >(
        &mut self,
        g: &Gatherer<R, D>,
        client: &C,
        c_puct: R,
        plan: SearchPlan,
        samples: Vec<D>,
        depth: &G,
    ) -> (r: Result<Turn<R>, InferenceError>)
        requires
            old(self).wf(),
            old(self).ready(),
            forall|e: &E| call_requires(depth, (e,)),
            plan.noisy ==> samples@.len() == E::spec_actions(old(self).env.spec_hash()).len(),
            1 <= plan.steps + old(self).mcts.batch_size <= usize::MAX,
            old(self).played@ + playouts(plan.steps, old(self).mcts.batch_size) + 2 < usize::MAX,
            !E::spec_done(old(self).env.spec_hash()) ==> can_ask::<E, R, C>(
                client,
                old(self).asked_in_search(
                    g,
                    c_puct,
                    plan,
                    samples@,
                    depth,
                    oracle_of::<E, R, C>(client),
                ),
            ),
        ensures
            final(self).wf(),
            final(self).all_steps_data == old(self).all_steps_data,
            final(self).step == old(self).step,
            grown(old(self).mcts.tree(), final(self).mcts.tree()),
            E::spec_done(old(self).env.spec_hash()) ==> r is Ok,
            r matches Err(e) ==> is_failure::<E, R, C>(
                client,
                old(self).asked_in_search(
                    g,
                    c_puct,
                    plan,
                    samples@,
                    depth,
                    oracle_of::<E, R, C>(client),
                ),
                asked_first::<E, R>(old(self).mcts.tree(), old(self).env.spec_hash()),
                e,
            ),
            match r {
                Ok(turn) => {
                    &&& old(self).has_searched(
                        final(self),
                        g,
                        c_puct,
                        plan,
                        samples@,
                        depth,
                        oracle_of::<E, R, C>(client),
                    )
                    &&& turn is Resigned <==> final(self).over
                    &&& turn matches Turn::Move(node, ids) ==> node@
                        == final(self).mcts.tree()[old(self).env.spec_hash()] && ids@
                        == E::spec_actions(old(self).env.spec_hash())
                },
                Err(_) => {
                    &&& is_cut_short::<E, R>(
                        old(self).spec_rules(
                            g,
                            c_puct,
                            plan,
                            samples@,
                            depth,
                            oracle_of::<E, R, C>(client),
                        ),
                        old(self).mcts.tree(),
                        final(self).mcts.tree(),
                        batches(plan.steps, old(self).mcts.batch_size),
                        old(self).mcts.batch_size as nat,
                    )
                    &&& final(self).mcts.tuning() == quiet(old(self).mcts.tuning())
                    &&& final(self).temp_data == old(self).temp_data
                    &&& final(self).q_trace == old(self).q_trace
                    &&& !final(self).over
                    &&& final(self).low_value_streak == old(self).low_value_streak
                },
            },
    {
        let ghost given = samples@;
        let ids: Vec<Action> = self.env.valid_actions();
        if plan.noisy {
            self.register_noise(g, &ids, samples);
        }
        let ghost tuning = self.mcts.tuning();
        let scaffold_depth: R = self.reference.scaffold_depth();
        let reference_depth: &R = &self.reference.depth;
        let scaffold: &R = &scaffold_depth;
        let tau: &R = &g.reward_saturation_temperature;
        let evaluate = |e: &E| -> (v: R)
            requires
                call_requires(depth, (e,)),
            ensures
                exists|d: R| #[trigger]
                    call_ensures(depth, (e,), d) && v == spec_terminal_score(
                        E::spec_done(e.spec_hash()),
                        *reference_depth,
                        *scaffold,
                        d,
                        *tau,
                    ),
            {
                let d: R = depth(e);
                terminal_score(e.done(), reference_depth, scaffold, &d, tau)
            };
        proof {
            let id = self.env.spec_hash();
            let oracle = oracle_of::<E, R, C>(client);
            let strict = rules_of::<E, R, _>(oracle, id, tuning, c_puct, plan.full, &evaluate);
            let rules = old(self).spec_rules(g, c_puct, plan, given, depth, oracle);
            assert forall|at: NodeId, value: R| #[trigger]
                (strict.finishes)(at, value) implies (rules.finishes)(at, value) by {
                let e = choose|e: &E| #[trigger]
                    call_ensures(evaluate, (e,), value) && e.spec_hash() == at;
                let d = choose|d: R| #[trigger]
                    call_ensures(depth, (e,), d) && value == spec_terminal_score(
                        E::spec_done(e.spec_hash()),
                        *reference_depth,
                        *scaffold,
                        d,
                        *tau,
                    );
                assert(call_ensures(depth, (e,), d));
            }
            lemma_search_weaken::<E, R, C>(
                client,
                strict,
                rules,
                self.mcts.tree(),
                batches(plan.steps, self.mcts.batch_size),
                self.mcts.batch_size as nat,
            );
        }
        let searched: Result<Node<Action, R>, InferenceError> = self.mcts.run(
            &self.env,
            client,
            plan.steps,
            c_puct.dup(),
            &evaluate,
            plan.full,
        );
        proof {
            self.played@ = self.played@ + playouts(plan.steps, old(self).mcts.batch_size);
        }
        let root: Node<Action, R> = match searched {
            Ok(node) => node,
            Err(e) => {
                return Err(e);
            },
        };
        let here: R = depth(&self.env);
        self.judge(g, &root.value, &here);
        if self.over {
            return Ok(Turn::Resigned);
        }
        if plan.full {
            let obs: TilersObs = self.env.observation();
            let ghost seen = obs;
            let target: HashMap<Action, R> = match self.mcts.policy_target(c_puct.dup()) {
                Some(t) => t,
                None => HashMap::new(),
            };
            let visits: usize = count_total(&root.edge_visits);
            let edge_visits: HashMap<Action, usize> = target_visits(&target, visits);
            self.temp_data.push(
                TurnRecord {
                    board: obs.board,
                    num_ancillas: obs.num_ancillas,
                    valid_actions: ids.clone(),
                    edge_visits,
                },
            );
            proof {
                let rec = self.temp_data@.last();
                assert(call_ensures(E::observation, (&old(self).env,), seen));
                assert(rec.valid_actions@ =~= ids@);
                assert(rec.edge_visits@ =~= spec_recorded_visits(&self.mcts, c_puct));
                assert(is_recorded::<E, R>(rec, old(self).env, &self.mcts, c_puct));
                assert(self.temp_data@.drop_last() =~= old(self).temp_data@);
            }
        }
        Ok(Turn::Move(root, ids))
    }

    /// Records the step and plays it: the game goes on from the state that the action leads to,
    /// with the part of the tree below it, unless the goal is reached or the budget is spent.
    pub fn play(&mut self, action: Action)
        requires
            old(self).wf(),
            !old(self).over,
            E::spec_actions(old(self).env.spec_hash()).contains(action),
        ensures
            final(self).wf(),
            old(self).has_played(final(self), action),
            !final(self).over ==> final(self).ready(),
    {
        let obs: TilersObs = self.env.observation();
        let valid_actions: Vec<Action> = self.env.valid_actions();
        self.all_steps_data.push(
            StepRecord {
                board: obs.board,
                num_ancillas: obs.num_ancillas,
                valid_actions,
                action,
                height: obs.height,
                width: obs.width,
            },
        );
        assert(self.all_steps_data@.drop_last() =~= old(self).all_steps_data@);
        self.env.step(action);
        self.step = self.step + 1;
        if self.env.done() {
            self.over = true;
            return ;
        }
        let ghost before = self.mcts.tree();
        self.mcts.advance_root(action);
        proof {
            if self.mcts.root_id is None {
                assert(self.mcts.tree() =~= before);
            }
        }
        if self.step == self.max_actions {
            self.over = true;
        }
    }

    /// The outcome of an episode that is over, or that was broken off, by how it ended.
    pub open spec fn outcome<D: Scalar>(
        self,
        g: &Gatherer<R, D>,
        instance: Instance,
        end: Ending<R>,
    ) -> EpisodeOutcome<R> {
        let grade = g.spec_grade(&self.reference, &end);
        EpisodeOutcome {
            reference_depth: self.reference.depth,
            solution_depth: end.depth,
            done: end.done,
            score: grade.score,
            reward_kind: grade.kind,
            achieved_objectives: grade.achieved,
            reference_action_count: self.reference.actions,
            temp_data: self.temp_data,
            all_steps_data: self.all_steps_data,
            q_trace: self.q_trace,
            over_solver_trace: self.over_solver_trace,
            resigned: self.resigned,
            resign_allowed: self.resign_allowed,
            resignation_enabled: self.resignation_enabled,
            instance,
        }
    }

    /// The outcome of an episode that is over, or that was broken off, by how it ended.
    pub fn finish<D: Scalar>(self, g: &Gatherer<R, D>, instance: Instance, end: Ending<R>) -> (r:
        EpisodeOutcome<R>)
        requires
            g.cusp_frontier + g.cusp_margin <= usize::MAX,
        ensures
            r == self.outcome(g, instance, end),
    {
        let grade: Grade<R> = g.grade(&self.reference, &end);
        EpisodeOutcome {
            reference_depth: self.reference.depth,
            solution_depth: end.depth,
            done: end.done,
            score: grade.score,
            reward_kind: grade.kind,
            achieved_objectives: grade.achieved,
            reference_action_count: self.reference.actions,
            temp_data: self.temp_data,
            all_steps_data: self.all_steps_data,
            q_trace: self.q_trace,
            over_solver_trace: self.over_solver_trace,
            resigned: self.resigned,
            resign_allowed: self.resign_allowed,
            resignation_enabled: self.resignation_enabled,
            instance,
        }
    }
}

/// The instance that an episode was played on.
#[derive(Clone, Copy, Debug, PartialEq, Eq, Structural)]
pub struct Instance {
    pub height: usize,
    pub width: usize,
    pub num_ancillas: usize,
    pub num_objectives: usize,
}

/// What came out of an episode.
pub struct EpisodeOutcome<R> {
    pub reference_depth: R,
    pub solution_depth: R,
    pub done: bool,
    pub score: R,
    pub reward_kind: RewardKind,
    pub achieved_objectives: usize,
    /// Actions of the reference that were left to play: how hard the episode was.
    pub reference_action_count: usize,
    pub temp_data: Vec<TurnRecord>,
    pub all_steps_data: Vec<StepRecord>,
    pub q_trace: Vec<R>,
    pub over_solver_trace: Vec<bool>,
    pub resigned: bool,
    pub resign_allowed: bool,
    pub resignation_enabled: bool,
    pub instance: Instance,
}

/// The visits that the policy target of a searched root is recorded as: the shares of the
/// target in all visits of the root, rounded. Nothing for a root without visits.
pub open spec fn spec_recorded_visits<E: Environment<Act = Action, Obs = TilersObs>, R: Scalar>(
    mcts: &MCTS<E, R>,
    c_puct: R,
) -> Map<Action, usize> {
    match spec_policy_target(mcts.tree(), mcts.root_id, mcts.tuning(), c_puct) {
        Some(target) => spec_target_visits(
            target,
            total(mcts.tree()[mcts.root_id->0].edge_visits) as usize,
        ),
        None => Map::empty(),
    }
}

} // verus!
