//! What comes of an instance that is gathered on: how its episodes are measured, and what a climb
//! keeps of them.

use crate::climb::Bracket;
use crate::environment::Environment;
use crate::episode::{EpisodeOutcome, StepRecord};
use crate::gatherer::Gatherer;
use crate::grading::{Ending, Hindsight, Reference, RewardKind};
use crate::inference::Oracle;
use crate::node::NodeId;
use crate::playthrough::Luck;
use crate::reward::spec_done_score;
use crate::scalar::{minus, Binary, Convert, Scalar};
use crate::session::{
    are_probes, bracket_after, first_bracket, is_climb, is_demonstration, is_ending, is_episode,
    is_gathered, is_gathered_by, is_outcome, is_probe_at, is_scaffolded, is_solved, last_with,
    Climb, Demonstration, Gathered, Look, Solver, Survey,
};
use crate::tilers_obs::{Action, TilersObs};
use vstd::prelude::*;

verus! {

/// Law: an episode is measured by what is seen at its two ends: the objectives at the start and
/// those that are left, the depth at the end, and the factors merged in between. What it reached is
/// asked for only where it failed without a scaffold, within reach or without a goal just past it,
/// and hindsight is wanted.
pub proof fn law_ending_is_seen<
    E: Environment,
    R: Scalar,
    D: Scalar,
    G: Fn(&E) -> R,
    S: Fn(&E) -> Survey<R>,
    P: Fn(&E, &E) -> (usize, usize),
    H: Fn(&E, &E) -> Hindsight<R>,
>(
    g: &Gatherer<R, D>,
    look: &Look<G, S, P, H>,
    scaffolded: bool,
    start: E,
    end: E,
    before: Survey<R>,
    after: Survey<R>,
    ending: Ending<R>,
)
    requires
        is_ending::<E, R, D, G, S, P, H>(g, look, scaffolded, start, end, before, after, ending),
    ensures
        call_ensures(look.survey, (&start,), before),
        call_ensures(look.survey, (&end,), after),
        call_ensures(look.progress, (&start, &end), (ending.merged, ending.factors)),
        ending.done == E::spec_done(end.spec_hash()),
        ending.depth == after.depth,
        ending.start_objectives == before.instance.num_objectives,
        ending.remaining_objectives == after.instance.num_objectives,
        ({
            let past = g.cusp_reward && (ending.start_objectives > g.cusp_frontier
                || ending.max_weight > g.cusp_frontier + g.cusp_margin);
            if !ending.done && !scaffolded && !past && g.her_reward {
                call_ensures(look.look_back, (&start, &end), ending.hindsight)
            } else {
                ending.hindsight == Hindsight::<R>::Nothing
            }
        }),
{
}

/// The reference of an outcome is that of its episode.
proof fn lemma_outcome_reference<
    E: Environment<Act = Action, Obs = TilersObs>,
    R: Convert<D>,
    D: Convert<R>,
    G: Fn(&E) -> R,
    S: Fn(&E) -> Survey<R>,
    P: Fn(&E, &E) -> (usize, usize),
    H: Fn(&E, &E) -> Hindsight<R>,
>(
    g: &Gatherer<R, D>,
    c_puct: R,
    look: &Look<G, S, P, H>,
    oracle: Oracle<Action, R>,
    luck: Luck<R, D>,
    start: NodeId,
    reference: Reference<R>,
    o: EpisodeOutcome<R>,
)
    requires
        is_outcome::<E, R, D, G, S, P, H>(g, c_puct, look, oracle, luck, start, reference, o),
    ensures
        o.reference_depth == reference.depth,
        o.reference_action_count == reference.actions,
        o.done ==> o.reward_kind == RewardKind::Done,
        o.done ==> o.score == spec_done_score(
            R::spec_binary(
                Binary::Max,
                minus(
                    reference.depth,
                    match reference.scaffold {
                        Some(s) => s,
                        None => R::spec_decimal(0, 0),
                    },
                ),
                R::spec_decimal(1, 0),
            ),
            R::spec_binary(
                Binary::Max,
                minus(
                    o.solution_depth,
                    match reference.scaffold {
                        Some(s) => s,
                        None => R::spec_decimal(0, 0),
                    },
                ),
                R::spec_decimal(0, 0),
            ),
            g.reward_saturation_temperature,
        ),
{
    let (first, kept, last, states, episode, before, after, ending) = choose|
        first: E,
        kept: E,
        last: E,
        states: Seq<crate::episode::Episode<E, R>>,
        episode: crate::episode::Episode<E, R>,
        before: Survey<R>,
        after: Survey<R>,
        ending: Ending<R>,
    |
        {
            &&& #[trigger] crate::playthrough::is_game::<E, R, D, G>(
                g,
                c_puct,
                &look.depth,
                oracle,
                luck,
                first,
                reference,
                states,
                episode,
            )
            &&& first.spec_hash() == start
            &&& episode.is_complete(g, start)
            &&& #[trigger] is_ending::<E, R, D, G, S, P, H>(
                g,
                look,
                reference.scaffold is Some,
                kept,
                last,
                before,
                after,
                ending,
            )
            &&& kept.spec_hash() == start
            &&& last.spec_hash() == episode.env.spec_hash()
            &&& o == episode.outcome(g, before.instance, ending)
        };
    lemma_reference_stays::<E, R, D, G>(
        g,
        c_puct,
        &look.depth,
        oracle,
        luck,
        first,
        reference,
        states,
        episode,
        states.len() - 1,
    );
}

/// An episode keeps its reference.
proof fn lemma_reference_stays<
    E: Environment<Act = Action, Obs = TilersObs>,
    R: Convert<D>,
    D: Convert<R>,
    G: Fn(&E) -> R,
>(
    g: &Gatherer<R, D>,
    c_puct: R,
    depth: &G,
    oracle: Oracle<Action, R>,
    luck: Luck<R, D>,
    env: E,
    reference: Reference<R>,
    states: Seq<crate::episode::Episode<E, R>>,
    end: crate::episode::Episode<E, R>,
    i: int,
)
    requires
        crate::playthrough::is_game::<E, R, D, G>(
            g,
            c_puct,
            depth,
            oracle,
            luck,
            env,
            reference,
            states,
            end,
        ),
        0 <= i < states.len(),
    ensures
        states[i].reference == reference,
    decreases i,
{
    if i > 0 {
        lemma_reference_stays::<E, R, D, G>(
            g,
            c_puct,
            depth,
            oracle,
            luck,
            env,
            reference,
            states,
            end,
            i - 1,
        );
        assert(crate::playthrough::is_turn_at::<E, R, D, G>(
            g,
            c_puct,
            depth,
            oracle,
            luck,
            states,
            i,
        ));
    }
}

/// Law: an episode behind a scaffold is measured by the whole reference and by the actions of the
/// plan that the scaffold leaves. If it reaches the goal, the depth of the scaffold is taken off
/// both the depth of the reference and its own.
pub proof fn law_scaffold_is_taken_off<
    E: Environment<Act = Action, Obs = TilersObs>,
    R: Convert<D>,
    D: Convert<R>,
    M,
    G: Fn(&E) -> R,
    S: Fn(&E) -> Survey<R>,
    P: Fn(&E, &E) -> (usize, usize),
    H: Fn(&E, &E) -> Hindsight<R>,
    W: Fn(&E, &Vec<M>, usize) -> (E, R),
>(
    g: &Gatherer<R, D>,
    c_puct: R,
    look: &Look<G, S, P, H>,
    oracle: Oracle<Action, R>,
    luck: Luck<R, D>,
    scaffold: &W,
    game: NodeId,
    d_full: R,
    plan: &Vec<M>,
    p: usize,
    o: EpisodeOutcome<R>,
)
    requires
        is_scaffolded::<E, R, D, M, G, S, P, H, W>(
            g,
            c_puct,
            look,
            oracle,
            luck,
            scaffold,
            game,
            d_full,
            plan,
            p,
            o,
        ),
        p <= plan@.len() <= usize::MAX,
    ensures
        o.reference_depth == d_full,
        o.reference_action_count + p == plan@.len(),
        exists|e: &E, start: E, depth: R| #[trigger]
            call_ensures(scaffold, (e, plan, p), (start, depth)) && e.spec_hash() == game && (o.done
                ==> o.score == spec_done_score(
                R::spec_binary(Binary::Max, minus(d_full, depth), R::spec_decimal(1, 0)),
                R::spec_binary(
                    Binary::Max,
                    minus(o.solution_depth, depth),
                    R::spec_decimal(0, 0),
                ),
                g.reward_saturation_temperature,
            )),
{
    let (e, start, depth) = choose|e: &E, start: E, depth: R| #[trigger]
        call_ensures(scaffold, (e, plan, p), (start, depth)) && e.spec_hash() == game
            && is_outcome::<E, R, D, G, S, P, H>(
            g,
            c_puct,
            look,
            oracle,
            luck,
            start.spec_hash(),
            Reference { depth: d_full, actions: (plan@.len() - p) as usize, scaffold: Some(depth) },
            o,
        );
    lemma_outcome_reference::<E, R, D, G, S, P, H>(
        g,
        c_puct,
        look,
        oracle,
        luck,
        start.spec_hash(),
        Reference { depth: d_full, actions: (plan@.len() - p) as usize, scaffold: Some(depth) },
        o,
    );
}

/// Law: an episode from the start is measured by the depth and the length of a reference plan of
/// its instance.
pub proof fn law_episode_is_measured_by_its_plan<
    E: Environment<Act = Action, Obs = TilersObs>,
    R: Convert<D>,
    D: Convert<R>,
    M,
    G: Fn(&E) -> R,
    S: Fn(&E) -> Survey<R>,
    P: Fn(&E, &E) -> (usize, usize),
    H: Fn(&E, &E) -> Hindsight<R>,
    V: Fn(&E) -> (R, Vec<M>),
    W: Fn(&E, &Vec<M>, usize) -> (E, R),
    Z: Fn(&E, &Vec<M>) -> Vec<StepRecord>,
>(
    g: &Gatherer<R, D>,
    c_puct: R,
    look: &Look<G, S, P, H>,
    solver: &Solver<V, W, Z>,
    oracle: Oracle<Action, R>,
    luck: Luck<R, D>,
    game: NodeId,
    o: EpisodeOutcome<R>,
    keep: R,
    demo: Option<Demonstration>,
)
    requires
        is_episode::<E, R, D, M, G, S, P, H, V, W, Z>(
            g,
            c_puct,
            look,
            solver,
            oracle,
            luck,
            game,
            o,
            keep,
            demo,
        ),
    ensures
        exists|depth: R, plan: Vec<M>| #[trigger]
            is_solved::<E, R, M, V>(&solver.solve, game, depth, plan) && o.reference_depth == depth
                && o.reference_action_count == plan@.len() as usize,
        demo is Some ==> !o.done && o.instance.num_objectives > g.demo_min_objectives,
{
    let (depth, plan) = choose|depth: R, plan: Vec<M>| #[trigger]
        is_solved::<E, R, M, V>(&solver.solve, game, depth, plan) && is_outcome::<
            E,
            R,
            D,
            G,
            S,
            P,
            H,
        >(
            g,
            c_puct,
            look,
            oracle,
            luck,
            game,
            Reference { depth, actions: plan@.len() as usize, scaffold: None },
            o,
        );
    lemma_outcome_reference::<E, R, D, G, S, P, H>(
        g,
        c_puct,
        look,
        oracle,
        luck,
        game,
        Reference { depth, actions: plan@.len() as usize, scaffold: None },
        o,
    );
}

/// Law: of the episodes of a climb the last one that reached the goal is kept, and the last one
/// that did not; none exactly where there is none.
pub proof fn law_climb_keeps_last_of_each<R>(outcomes: Seq<EpisodeOutcome<R>>, done: bool)
    ensures
        last_with(outcomes, done) is None <==> forall|i: int|
            0 <= i < outcomes.len() ==> (#[trigger] outcomes[i]).done != done,
        last_with(outcomes, done) is Some ==> exists|i: int|
            0 <= i < outcomes.len() && (#[trigger] outcomes[i]) == last_with(outcomes, done)->0
                && outcomes[i].done == done && forall|j: int|
                i < j < outcomes.len() ==> (#[trigger] outcomes[j]).done != done,
    decreases outcomes.len(),
{
    if outcomes.len() > 0 {
        let n = outcomes.len() - 1;
        assert(outcomes[n] == outcomes.last());
        if outcomes.last().done != done {
            let before = outcomes.drop_last();
            law_climb_keeps_last_of_each(before, done);
            if last_with(before, done) is Some {
                let i = choose|i: int|
                    0 <= i < before.len() && (#[trigger] before[i]) == last_with(before, done)->0
                        && before[i].done == done && forall|j: int|
                        i < j < before.len() ==> (#[trigger] before[j]).done != done;
                assert(outcomes[i] == before[i]);
                assert forall|j: int| i < j < outcomes.len() implies (
                #[trigger] outcomes[j]).done != done by {
                    if j < n {
                        assert(before[j] == outcomes[j]);
                    }
                }
            } else {
                assert forall|j: int| 0 <= j < outcomes.len() implies (
                #[trigger] outcomes[j]).done != done by {
                    if j < n {
                        assert(before[j] == outcomes[j]);
                    }
                }
            }
        }
    }
}

/// Law: a probe that is enough becomes the upper end of what a climb still searches, and one that
/// is not becomes the lower end; the other end stays. The next probe lies between the ends, and
/// there is none where nothing lies between them, or after a probe without a scaffold that is
/// enough.
pub proof fn law_probe_narrows_the_climb(b: Bracket, enough: bool)
    requires
        b.probe is Some,
    ensures
        ({
            let p = b.probe->0;
            let next = b.after(enough);
            &&& enough ==> next.hi == p && next.lo == b.lo
            &&& !enough ==> next.lo == p && next.hi == b.hi
            &&& next.probe is Some ==> next.lo < next.probe->0 < next.hi
            &&& next.probe is None <==> next.hi - next.lo <= 1 || enough && p == 0
        }),
{
}

/// Law: a climb first probes its seed, or the whole plan if that is shorter, and begins between its
/// floor and the whole plan.
pub proof fn law_climb_begins_at_its_seed(len: nat, seed: usize, floor: usize)
    requires
        floor <= len,
    ensures
        first_bracket(len, seed, floor).lo == floor,
        first_bracket(len, seed, floor).hi == len,
        seed <= len ==> first_bracket(len, seed, floor).probe == Some(seed as int),
        seed > len ==> first_bracket(len, seed, floor).probe == Some(len as int),
{
}

/// Law: a climb probes at the lengths that its search asks for, each with an episode behind as many
/// actions of the plan. It ends when the search is done or its probes are spent, and tells of the
/// last episode; without one, of nothing.
pub proof fn law_climb_probes_where_it_is_led<
    E: Environment<Act = Action, Obs = TilersObs>,
    R: Convert<D>,
    D: Convert<R>,
    M,
    G: Fn(&E) -> R,
    S: Fn(&E) -> Survey<R>,
    P: Fn(&E, &E) -> (usize, usize),
    H: Fn(&E, &E) -> Hindsight<R>,
    W: Fn(&E, &Vec<M>, usize) -> (E, R),
>(
    g: &Gatherer<R, D>,
    c_puct: R,
    look: &Look<G, S, P, H>,
    oracle: Oracle<Action, R>,
    luck: Luck<R, D>,
    scaffold: &W,
    game: NodeId,
    d_full: R,
    plan: &Vec<M>,
    seed: usize,
    floor: usize,
    climb: Climb<R>,
) -> (outcomes: Seq<EpisodeOutcome<R>>)
    requires
        is_climb::<E, R, D, M, G, S, P, H, W>(
            g,
            c_puct,
            look,
            oracle,
            luck,
            scaffold,
            game,
            d_full,
            plan,
            seed,
            floor,
            climb,
        ),
    ensures
        climb.len == plan@.len(),
        outcomes.len() == climb.probes@.len(),
        outcomes.len() <= g.reverse_curriculum_max_probes,
        outcomes.len() < g.reverse_curriculum_max_probes ==> bracket_after(
            first_bracket(plan@.len(), seed, floor),
            climb.probes@,
        ).probe is None,
        forall|i: int|
            #![trigger outcomes[i]]
            0 <= i < outcomes.len() ==> {
                let p = climb.probes@[i].0;
                &&& bracket_after(
                    first_bracket(plan@.len(), seed, floor),
                    climb.probes@.take(i),
                ).probe == Some(p as int)
                &&& climb.probes@[i].1 == outcomes[i].done
                &&& is_scaffolded::<E, R, D, M, G, S, P, H, W>(
                    g,
                    c_puct,
                    look,
                    oracle,
                    luck,
                    scaffold,
                    game,
                    d_full,
                    plan,
                    p,
                    outcomes[i],
                )
            },
        climb.best == last_with(outcomes, true),
        climb.failed == last_with(outcomes, false),
        outcomes.len() == 0 ==> climb.summary == (
            R::spec_decimal(0, 0),
            R::spec_decimal(0, 0),
            false,
        ),
        outcomes.len() > 0 ==> {
            let o = outcomes[outcomes.len() - 1];
            climb.summary == (o.solution_depth, o.reference_depth, o.done)
        },
{
    let bracket = first_bracket(plan@.len(), seed, floor);
    let probes = climb.probes@;
    let outcomes = choose|outcomes: Seq<EpisodeOutcome<R>>|
        {
            &&& #[trigger] are_probes::<E, R, D, M, G, S, P, H, W>(
                g,
                c_puct,
                look,
                oracle,
                luck,
                scaffold,
                game,
                d_full,
                plan,
                bracket,
                probes,
                outcomes,
            )
            &&& climb.best == last_with(outcomes, true)
            &&& climb.failed == last_with(outcomes, false)
            &&& climb.summary == (if outcomes.len() == 0 {
                (R::spec_decimal(0, 0), R::spec_decimal(0, 0), false)
            } else {
                (
                    outcomes.last().solution_depth,
                    outcomes.last().reference_depth,
                    outcomes.last().done,
                )
            })
        };
    assert forall|i: int| #![trigger outcomes[i]] 0 <= i < outcomes.len() implies is_probe_at::<
        E,
        R,
        D,
        M,
        G,
        S,
        P,
        H,
        W,
    >(
        g,
        c_puct,
        look,
        oracle,
        luck,
        scaffold,
        game,
        d_full,
        plan,
        bracket,
        probes,
        outcomes,
        i,
    ) by {}
    outcomes
}

/// Law: what was gathered tells the depth reached, that of the reference, and whether the goal was
/// reached: of its episode, of its climb, or nothing for a demonstration alone.
pub proof fn law_summary_tells_what_was_reached<R: Scalar>(gathered: Gathered<R>)
    ensures
        gathered is Demo ==> gathered.spec_summary() == (
            R::spec_decimal(0, 0),
            R::spec_decimal(0, 0),
            false,
        ),
        gathered is Climbed ==> gathered.spec_summary() == gathered->Climbed_0.summary,
        gathered is Played ==> {
            let o = gathered->Played_0;
            gathered.spec_summary() == (o.solution_depth, o.reference_depth, o.done)
        },
{
}

/// Law: a demonstration replays a plan of the reference solver from the state that it solves, and
/// says how long that plan is.
pub proof fn law_demonstration_replays_a_plan<
    E: Environment,
    R: Scalar,
    M,
    V: Fn(&E) -> (R, Vec<M>),
    W: Fn(&E, &Vec<M>, usize) -> (E, R),
    Z: Fn(&E, &Vec<M>) -> Vec<StepRecord>,
>(solver: &Solver<V, W, Z>, state: NodeId, demo: Demonstration)
    requires
        is_demonstration::<E, R, M, V, W, Z>(solver, state, demo),
    ensures
        demo.states@.len() <= demo.plan_len,
        exists|depth: R, plan: Vec<M>, a: &E, b: &E|
            {
                &&& #[trigger] call_ensures(solver.solve, (a,), (depth, plan))
                &&& a.spec_hash() == state
                &&& #[trigger] call_ensures(solver.replay, (b, &plan), demo.states)
                &&& b.spec_hash() == state
                &&& demo.plan_len == plan@.len()
            },
{
}

/// Law: an instance is gathered on by the route that it is given: a demonstration, a climb along
/// the reference plan that was solved for, or an episode. A climb is tried exactly where the
/// number that was drawn says so.
pub proof fn law_instance_takes_its_route<
    E: Environment<Act = Action, Obs = TilersObs>,
    R: Convert<D>,
    D: Convert<R>,
    M,
    G: Fn(&E) -> R,
    S: Fn(&E) -> Survey<R>,
    P: Fn(&E, &E) -> (usize, usize),
    H: Fn(&E, &E) -> Hindsight<R>,
    V: Fn(&E) -> (R, Vec<M>),
    W: Fn(&E, &Vec<M>, usize) -> (E, R),
    Z: Fn(&E, &Vec<M>) -> Vec<StepRecord>,
>(
    g: &Gatherer<R, D>,
    c_puct: R,
    look: &Look<G, S, P, H>,
    solver: &Solver<V, W, Z>,
    oracle: Oracle<Action, R>,
    luck: Luck<R, D>,
    game: NodeId,
    gathered: Gathered<R>,
) -> (w: (Option<(R, Vec<M>)>, R))
    requires
        is_gathered::<E, R, D, M, G, S, P, H, V, W, Z>(
            g,
            c_puct,
            look,
            solver,
            oracle,
            luck,
            game,
            gathered,
        ),
    ensures
        ({
            let len = if w.0 is Some {
                Some((w.0->0).1@.len() as usize)
            } else {
                None
            };
            let route = g.spec_route(len);
            &&& g.spec_tries_climb(w.1) <==> w.0 is Some
            &&& g.spec_may_climb() ==> (luck.unit)(w.1)
            &&& w.0 is Some ==> exists|e: &E| #[trigger]
                call_ensures(solver.solve, (e,), ((w.0->0).0, (w.0->0).1)) && e.spec_hash() == game
            &&& route is Demo <==> gathered is Demo
            &&& route is Climb <==> gathered is Climbed
            &&& route is Episode <==> gathered is Played
            &&& gathered is Demo ==> is_demonstration::<E, R, M, V, W, Z>(
                solver,
                game,
                gathered->Demo_0,
            )
            &&& gathered is Climbed ==> w.0 is Some && is_climb::<E, R, D, M, G, S, P, H, W>(
                g,
                c_puct,
                look,
                oracle,
                luck,
                &solver.scaffold,
                game,
                (w.0->0).0,
                &(w.0->0).1,
                route->seed,
                route->floor,
                gathered->Climbed_0,
            )
            &&& gathered is Played ==> is_episode::<E, R, D, M, G, S, P, H, V, W, Z>(
                g,
                c_puct,
                look,
                solver,
                oracle,
                luck,
                game,
                gathered->Played_0,
                gathered->Played_1,
                gathered->Played_2,
            )
        }),
{
    let (climbed, draw) = choose|climbed: Option<(R, Vec<M>)>, draw: R|
        {
            &&& #[trigger] g.spec_tries_climb(draw) == (climbed is Some)
            &&& g.spec_may_climb() ==> (luck.unit)(draw)
            &&& climbed matches Some(s) ==> is_solved::<E, R, M, V>(&solver.solve, game, s.0, s.1)
            &&& #[trigger] is_gathered_by::<E, R, D, M, G, S, P, H, V, W, Z>(
                g,
                c_puct,
                look,
                solver,
                oracle,
                luck,
                game,
                climbed,
                gathered,
            )
        };
    (climbed, draw)
}

} // verus!
