//! What the turns of an episode do: which search they get, when an episode resigns, and what a
//! search is recorded as.

use crate::environment::Environment;
use crate::episode::{
    noised, spec_noise_map, spec_recorded_visits, spec_streak, turn_rules, Episode, SearchPlan,
};
use crate::gatherer::Gatherer;
use crate::grading::{Ending, Reference, RewardKind};
use crate::inference::Oracle;
use crate::mcts::MCTS;
use crate::moves::spec_dirichlet_noise;
use crate::node::NodeId;
use crate::policy::spec_policy_target;
use crate::puct_laws::lemma_total_folds;
use crate::reward::spec_done_score;
use crate::run::batches;
use crate::scalar::{minus, times, Binary, Convert, Scalar, Unary};
use crate::tilers_obs::{Action, TilersObs};
use crate::trace::is_searched;
use crate::tree::Tuning;
use vstd::prelude::*;

verus! {

/// Law: a turn whose draw is below the fraction of full searches gets a full search with all its
/// playouts, and noise if that has a positive weight. Any other turn gets a fast search, without
/// noise.
pub proof fn law_draw_decides_search<R: Scalar, D: Scalar>(g: &Gatherer<R, D>, draw: R)
    ensures
        R::spec_less(draw, g.p_full_search) ==> g.spec_plan_search(draw) == (SearchPlan {
            full: true,
            steps: g.mcts_steps,
            noisy: R::spec_less(R::spec_decimal(0, 0), g.dirichlet_epsilon),
        }),
        !R::spec_less(draw, g.p_full_search) ==> g.spec_plan_search(draw) == (SearchPlan {
            full: false,
            steps: g.fast_steps,
            noisy: false,
        }),
{
}

proof fn lemma_noise_map<D: Convert<R>, R: Scalar>(ids: Seq<Action>, noise: Seq<D>, i: int)
    requires
        0 <= i < ids.len(),
        forall|k: int| i < k < ids.len() ==> #[trigger] ids[k] != ids[i],
    ensures
        spec_noise_map::<D, R>(ids, noise).contains_key(ids[i]),
        spec_noise_map::<D, R>(ids, noise)[ids[i]] == noise[i].spec_convert(),
    decreases ids.len(),
{
    let before = ids.drop_last();
    if i < before.len() {
        assert forall|k: int| i < k < before.len() implies #[trigger] before[k] != before[i] by {
            assert(ids[k] != ids[i]);
        }
        lemma_noise_map::<D, R>(before, noise, i);
        assert(ids[ids.len() - 1] != ids[i]);
    }
}

/// Law: noise on a root gives each action the number made of the sample at its place among the
/// valid actions, and is blended in with the weight that is set. Nothing else of a search is
/// changed by it.
pub proof fn law_noise_goes_to_its_action<D: Convert<R>, R: Scalar>(
    tuning: Tuning<Action, R>,
    g: &Gatherer<R, D>,
    ids: Seq<Action>,
    samples: Seq<D>,
    i: int,
)
    requires
        0 <= i < ids.len(),
        forall|k: int| i < k < ids.len() ==> #[trigger] ids[k] != ids[i],
    ensures
        ({
            let n = noised(tuning, g, ids, samples);
            &&& n.root_noise is Some
            &&& n.root_noise->0.contains_key(ids[i])
            &&& n.root_noise->0[ids[i]] == spec_dirichlet_noise(samples)[i].spec_convert()
            &&& n.root_noise_epsilon == g.dirichlet_epsilon
            &&& n.c_fpu == tuning.c_fpu
            &&& n.root_softmax_temp == tuning.root_softmax_temp
            &&& n.k_forced == tuning.k_forced
        }),
{
    lemma_noise_map::<D, R>(ids, spec_dirichlet_noise(samples), i);
}

/// Law: the streak of low values is how many of the last values were at most the threshold,
/// whatever came before the last one that was not.
pub proof fn law_streak_counts_last_low_values<R: Scalar, D: Scalar>(
    g: &Gatherer<R, D>,
    values: Seq<R>,
    n: int,
    before: int,
)
    requires
        0 <= n <= values.len(),
        forall|i: int|
            values.len() - n <= i < values.len() ==> R::spec_less(
                #[trigger] values[i],
                g.resign_value_threshold,
            ) || R::spec_same(values[i], g.resign_value_threshold),
        n < values.len() ==> !R::spec_less(
            values[values.len() - n - 1],
            g.resign_value_threshold,
        ) && !R::spec_same(values[values.len() - n - 1], g.resign_value_threshold),
    ensures
        values.fold_left(before, |streak: int, q: R| spec_streak(g, streak, q)) == (if n
            == values.len() {
            before + n
        } else {
            n
        }),
    decreases values.len(),
{
    if values.len() > 0 {
        let rest = values.drop_last();
        if n > 0 {
            assert(values[values.len() - 1] == values.last());
            assert forall|i: int| rest.len() - (n - 1) <= i < rest.len() implies R::spec_less(
                #[trigger] rest[i],
                g.resign_value_threshold,
            ) || R::spec_same(rest[i], g.resign_value_threshold) by {
                assert(rest[i] == values[i]);
            }
            law_streak_counts_last_low_values(g, rest, n - 1, before);
        } else {
            assert(values[values.len() - 1] == values.last());
        }
    }
}

/// Law: a search ends an episode exactly where the episode may resign, the value that the search
/// gave its root is one more low value in a row and there are then enough of them, or enough are
/// asked to be none, and the step is late enough.
pub proof fn law_resignation<
    E: Environment<Act = Action, Obs = TilersObs>,
    R: Scalar,
    D: Convert<R>,
    G: Fn(&E) -> R,
>(
    before: &Episode<E, R>,
    after: &Episode<E, R>,
    g: &Gatherer<R, D>,
    c_puct: R,
    plan: SearchPlan,
    samples: Seq<D>,
    depth: &G,
    oracle: Oracle<Action, R>,
)
    requires
        before.has_searched(after, g, c_puct, plan, samples, depth, oracle),
    ensures
        ({
            let value = after.mcts.tree()[before.env.spec_hash()].value;
            let low = R::spec_less(value, g.resign_value_threshold) || R::spec_same(
                value,
                g.resign_value_threshold,
            );
            let streak = if low {
                before.low_value_streak + 1
            } else {
                0
            };
            &&& before.resignation_enabled ==> after.low_value_streak == streak
            &&& !before.resignation_enabled ==> after.low_value_streak == before.low_value_streak
            &&& after.over <==> {
                &&& before.resignation_enabled
                &&& before.resign_allowed
                &&& streak >= g.resign_consecutive_moves
                &&& before.step >= g.spec_resign_floor(before.reference.depth)
            }
            &&& after.over ==> after.resigned
            &&& after.resigned ==> before.resigned || after.over
        }),
{
}

/// Law: resignation needs low values in a row and a threshold below 1, and an episode that drew
/// below the rate of exempt ones never resigns.
pub proof fn law_exempt_episodes_play_on<
    E: Environment<Act = Action, Obs = TilersObs>,
    R: Scalar,
    D: Scalar,
>(e: &Episode<E, R>, g: &Gatherer<R, D>, env: E, reference: Reference<R>, draw: R)
    requires
        e.is_start(g, env, reference, draw),
    ensures
        e.resign_allowed <==> {
            &&& g.resign_consecutive_moves > 0
            &&& R::spec_less(g.resign_value_threshold, R::spec_decimal(1, 0))
            &&& R::spec_less(g.no_resign_rate, draw) || R::spec_same(g.no_resign_rate, draw)
        },
        !e.resigned,
        e.low_value_streak == 0,
        e.step == 0,
        e.over <==> e.max_actions == 0,
        e.env == env,
        e.reference == reference,
        e.max_actions == g.spec_action_budget(reference.actions),
        e.resignation_enabled == g.spec_resignation_enabled(),
        e.mcts.batch_size == g.batch_size,
        e.mcts.root_id is None,
        e.mcts.nodes@.len() == 0,
        e.mcts.tuning().root_noise is None,
        e.mcts.tuning().c_fpu == R::spec_decimal(2, -1),
        e.mcts.tuning().root_softmax_temp == R::spec_decimal(103, -2),
        e.mcts.tuning().k_forced == R::spec_decimal(2, 0),
        e.all_steps_data@.len() == 0,
        e.temp_data@.len() == 0,
        e.q_trace@.len() == 0,
        e.over_solver_trace@.len() == 0,
{
}

/// Law: the value that a search gives a finished state is the score of what was played to it behind
/// the scaffold, and -1 for a state that is not at the goal.
pub proof fn law_search_values_finished_states<
    E: Environment<Act = Action>,
    R: Scalar,
    D: Scalar,
    G: Fn(&E) -> R,
>(
    g: &Gatherer<R, D>,
    oracle: Oracle<Action, R>,
    reference: Reference<R>,
    depth: &G,
    root: NodeId,
    tuning: Tuning<Action, R>,
    c_puct: R,
    full: bool,
    id: NodeId,
    value: R,
)
    requires
        (turn_rules::<E, R, D, G>(
            g,
            oracle,
            reference,
            depth,
            root,
            tuning,
            c_puct,
            full,
        ).finishes)(id, value),
    ensures
        exists|e: &E, d: R| #[trigger]
            call_ensures(depth, (e,), d) && e.spec_hash() == id && ({
                let scaffold = match reference.scaffold {
                    Some(s) => s,
                    None => R::spec_decimal(0, 0),
                };
                value == (if E::spec_done(id) {
                    spec_done_score(
                        R::spec_binary(
                            Binary::Max,
                            minus(reference.depth, scaffold),
                            R::spec_decimal(1, 0),
                        ),
                        R::spec_binary(
                            Binary::Max,
                            minus(d, scaffold),
                            R::spec_decimal(0, 0),
                        ),
                        g.reward_saturation_temperature,
                    )
                } else {
                    R::spec_decimal(-1, 0)
                })
            }),
{
}

/// Law: a full search is recorded with the shares of its policy target in all visits of the root,
/// rounded to whole visits, and with no other action.
pub proof fn law_recorded_visits_are_shares<
    E: Environment<Act = Action, Obs = TilersObs>,
    R: Scalar,
>(mcts: &MCTS<E, R>, c_puct: R, a: Action)
    ensures
        ({
            let target = spec_policy_target(mcts.tree(), mcts.root_id, mcts.tuning(), c_puct);
            let recorded = spec_recorded_visits(mcts, c_puct);
            let visits = mcts.tree()[mcts.root_id->0].edge_visits.fold_left(
                0int,
                |sum: int, x: usize| sum + x,
            );
            &&& recorded.contains_key(a) <==> target is Some && target->0.contains_key(a)
            &&& recorded.contains_key(a) ==> recorded[a] == R::spec_to_count(
                R::spec_unary(
                    Unary::Round,
                    times(target->0[a], R::spec_count(visits as usize)),
                ),
            )
        }),
{
    lemma_total_folds(mcts.tree()[mcts.root_id->0].edge_visits);
}

/// Law: an action is played as it was chosen, is noted with the state that it was chosen in, and
/// ends the episode exactly where it reaches the goal or spends the budget.
pub proof fn law_play_takes_one_step<E: Environment<Act = Action, Obs = TilersObs>, R: Scalar>(
    before: &Episode<E, R>,
    after: &Episode<E, R>,
    action: Action,
)
    requires
        before.has_played(after, action),
    ensures
        after.env.spec_hash() == E::spec_next(before.env.spec_hash(), action),
        after.step == before.step + 1,
        after.all_steps_data@.len() == before.all_steps_data@.len() + 1,
        after.all_steps_data@.last().action == action,
        after.all_steps_data@.last().valid_actions@ == E::spec_actions(before.env.spec_hash()),
        after.all_steps_data@.last().valid_actions@.contains(action),
        forall|i: int|
            0 <= i < before.all_steps_data@.len() ==> #[trigger] after.all_steps_data@[i]
                == before.all_steps_data@[i],
        after.over <==> E::spec_done(E::spec_next(before.env.spec_hash(), action))
            || before.step + 1 == before.max_actions,
        after.temp_data == before.temp_data,
        after.resigned == before.resigned,
        after.reference == before.reference,
        after.max_actions == before.max_actions,
        after.resign_allowed == before.resign_allowed,
        after.low_value_streak == before.low_value_streak,
        ({
            let step = after.all_steps_data@[before.all_steps_data@.len() as int];
            exists|obs: TilersObs|
                {
                    &&& #[trigger] call_ensures(E::observation, (&before.env,), obs)
                    &&& step.num_ancillas == obs.num_ancillas
                    &&& step.height == obs.height
                    &&& step.width == obs.width
                    &&& step.board@.len() == obs.board@.len()
                    &&& forall|l: int|
                        0 <= l < obs.board@.len() ==> (#[trigger] step.board@[l])@
                            == obs.board@[l]@
                }
        }),
{
    assert forall|i: int|
        0 <= i < before.all_steps_data@.len() implies #[trigger] after.all_steps_data@[i]
        == before.all_steps_data@[i] by {
        assert(after.all_steps_data@.drop_last()[i] == before.all_steps_data@[i]);
    }
}

/// Law: an outcome tells what was recorded and how the episode ended, and a finished episode
/// without a scaffold has the score of its depth against that of the reference.
pub proof fn law_outcome_tells_the_episode<
    E: Environment<Act = Action, Obs = TilersObs>,
    R: Scalar,
    D: Scalar,
>(e: Episode<E, R>, g: &Gatherer<R, D>, instance: crate::episode::Instance, end: Ending<R>)
    ensures
        ({
            let out = e.outcome(g, instance, end);
            &&& out.done == end.done
            &&& out.solution_depth == end.depth
            &&& out.reference_depth == e.reference.depth
            &&& out.reference_action_count == e.reference.actions
            &&& out.temp_data == e.temp_data
            &&& out.all_steps_data == e.all_steps_data
            &&& out.resigned == e.resigned
            &&& out.q_trace == e.q_trace
            &&& out.over_solver_trace == e.over_solver_trace
            &&& out.instance == instance
            &&& end.done ==> out.reward_kind == RewardKind::Done && out.achieved_objectives
                == end.start_objectives
            &&& end.done && e.reference.scaffold is None ==> out.score == spec_done_score(
                R::spec_binary(
                    Binary::Max,
                    minus(e.reference.depth, R::spec_decimal(0, 0)),
                    R::spec_decimal(1, 0),
                ),
                R::spec_binary(
                    Binary::Max,
                    minus(end.depth, R::spec_decimal(0, 0)),
                    R::spec_decimal(0, 0),
                ),
                g.reward_saturation_temperature,
            )
        }),
{
}

/// Law: a full search that does not end the episode is recorded, with the state that was searched
/// and the visits that its policy target stands for; any other search leaves the records as they
/// were. The value of the root is logged where there is a log.
pub proof fn law_full_searches_are_recorded<
    E: Environment<Act = Action, Obs = TilersObs>,
    R: Scalar,
    D: Convert<R>,
    G: Fn(&E) -> R,
>(
    before: &Episode<E, R>,
    after: &Episode<E, R>,
    g: &Gatherer<R, D>,
    c_puct: R,
    plan: SearchPlan,
    samples: Seq<D>,
    depth: &G,
    oracle: Oracle<Action, R>,
)
    requires
        before.has_searched(after, g, c_puct, plan, samples, depth, oracle),
    ensures
        plan.full && !after.over ==> {
            &&& after.temp_data@.len() == before.temp_data@.len() + 1
            &&& after.temp_data@.last().edge_visits@ == spec_recorded_visits(&after.mcts, c_puct)
            &&& after.temp_data@.last().valid_actions@ == E::spec_actions(before.env.spec_hash())
            &&& after.temp_data@.take(before.temp_data@.len() as int) == before.temp_data@
            &&& exists|obs: TilersObs|
                {
                    let turn = after.temp_data@[before.temp_data@.len() as int];
                    &&& #[trigger] call_ensures(E::observation, (&before.env,), obs)
                    &&& turn.num_ancillas == obs.num_ancillas
                    &&& turn.board@.len() == obs.board@.len()
                    &&& forall|l: int|
                        0 <= l < obs.board@.len() ==> (#[trigger] turn.board@[l])@
                            == obs.board@[l]@
                }
        },
        !plan.full || after.over ==> after.temp_data == before.temp_data,
        after.mcts.root_id == Some(before.env.spec_hash()),
        after.env == before.env,
        after.step == before.step,
        after.all_steps_data == before.all_steps_data,
        g.resignation_log_dir is Some ==> after.q_trace@ == before.q_trace@.push(
            after.mcts.tree()[before.env.spec_hash()].value,
        ),
        g.resignation_log_dir is None ==> after.q_trace@ == before.q_trace@,
        g.resignation_log_dir is Some ==> exists|d: R| #[trigger]
            call_ensures(depth, (&before.env,), d) && after.over_solver_trace@
                == before.over_solver_trace@.push(R::spec_less(before.reference.depth, d)),
        ({
            let root = before.env.spec_hash();
            !E::spec_done(root) ==> is_searched::<E, R>(
                turn_rules::<E, R, D, G>(
                    g,
                    oracle,
                    before.reference,
                    depth,
                    root,
                    if plan.noisy {
                        noised(before.mcts.tuning(), g, E::spec_actions(root), samples)
                    } else {
                        before.mcts.tuning()
                    },
                    c_puct,
                    plan.full,
                ),
                before.mcts.tree(),
                after.mcts.tree(),
                batches(plan.steps, before.mcts.batch_size),
                before.mcts.batch_size as nat,
            )
        }),
        after.mcts.tuning().root_noise is None,
        after.mcts.tuning().c_fpu == before.mcts.tuning().c_fpu,
        after.mcts.tuning().root_softmax_temp == before.mcts.tuning().root_softmax_temp,
        after.mcts.tuning().k_forced == before.mcts.tuning().k_forced,
{
    if plan.full && !after.over {
        assert(after.temp_data@.take(before.temp_data@.len() as int)
            =~= after.temp_data@.drop_last());
    }
}

} // verus!
