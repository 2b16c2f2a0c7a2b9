//! The gathering of one instance: an episode from its start, a climb of episodes behind scaffolds,
//! or a demonstration of its reference plan.

use crate::climb::{law_search_pins_cusp, Bracket, CuspSearch};
use crate::environment::Environment;
use crate::episode::{Episode, EpisodeOutcome, Instance, StepRecord};
use crate::gatherer::Gatherer;
use crate::generation::Route;
use crate::grading::{pp_weights, spec_pp_weights, Ending, Hindsight, Reference};
use crate::inference::{
    alone, can_ask, is_batch, is_failure, largest_batch, lemma_failure_widens, oracle_of,
    InferenceClient, Oracle,
};
use crate::node::NodeId;
use crate::playthrough::{
    asked_in_game, asks_in_game, draw_unit, is_game, is_stuck, law_episode_asks_open_batches,
    luck_of, run_episode, Chance, EpisodeError, Luck,
};
use crate::scalar::{zero, Convert, Scalar};
use crate::tilers_obs::{Action, TilersObs};
use vstd::arithmetic::power2::pow2;
use vstd::prelude::*;

verus! {

/// What is seen of a game from outside.
pub struct Survey<R> {
    pub instance: Instance,
    /// The weight of each objective that has one.
    pub weights: Vec<Option<usize>>,
    pub depth: R,
}

/// What an episode is told of its game.
pub struct Look<G, S, P, H> {
    /// The depth of a state.
    pub depth: G,
    /// What is seen of a state.
    pub survey: S,
    /// The factors merged between two states, and all factors.
    pub progress: P,
    /// The goal that was reached between two states.
    pub look_back: H,
}

/// Whether all questions about the game can be asked, and the weights of its objectives added up.
pub open spec fn can_look<
    E: Environment,
    R: Scalar,
    G: Fn(&E) -> R,
    S: Fn(&E) -> Survey<R>,
    P: Fn(&E, &E) -> (usize, usize),
    H: Fn(&E, &E) -> Hindsight<R>,
>(look: &Look<G, S, P, H>) -> bool {
    &&& forall|e: &E| call_requires(look.depth, (e,))
    &&& forall|e: &E| call_requires(look.survey, (e,))
    &&& forall|a: &E, b: &E| call_requires(look.progress, (a, b))
    &&& forall|a: &E, b: &E| call_requires(look.look_back, (a, b))
    &&& forall|e: &E, s: Survey<R>| #[trigger]
        call_ensures(look.survey, (e,), s) ==> spec_pp_weights(s.weights@).0 <= usize::MAX
}

impl<R: Scalar, D: Convert<R>> Gatherer<R, D> {
    /// Whether an episode on a reference of some actions can be counted: its budget, and the
    /// playouts of all its turns.
    pub open spec fn can_play(&self, actions: usize) -> bool {
        &&& self.spec_action_budget(actions) < usize::MAX
        &&& 1 <= self.mcts_steps + self.batch_size <= usize::MAX
        &&& 1 <= self.fast_steps + self.batch_size <= usize::MAX
        &&& (self.spec_action_budget(actions) + 1) * self.turn_playouts() + 2 < usize::MAX
    }
}

/// Whether an ending is what is seen of the two ends of an episode. The goal that was reached is
/// asked for only where the grade depends on it.
pub open spec fn is_ending<
    E: Environment,
    R: Scalar,
    D: Scalar,
    G: Fn(&E) -> R,
    S: Fn(&E) -> Survey<R>,
    P: Fn(&E, &E) -> (usize, usize),
    H: Fn(&E, &E) -> Hindsight<R>,
>(
    g: &Gatherer<R, D>,
    look: &Look<G, S, P, H>,
    scaffolded: bool,
    start: E,
    end: E,
    before: Survey<R>,
    after: Survey<R>,
    ending: Ending<R>,
) -> bool {
    let objectives = before.instance.num_objectives;
    let max_weight = spec_pp_weights(before.weights@).1;
    &&& call_ensures(look.survey, (&start,), before)
    &&& call_ensures(look.survey, (&end,), after)
    &&& call_ensures(look.progress, (&start, &end), (ending.merged, ending.factors))
    &&& ending.done == E::spec_done(end.spec_hash())
    &&& ending.depth == after.depth
    &&& ending.start_objectives == objectives
    &&& ending.remaining_objectives == after.instance.num_objectives
    &&& ending.max_weight == max_weight
    &&& if g.spec_needs_hindsight(ending.done, scaffolded, objectives, ending.max_weight) {
        call_ensures(look.look_back, (&start, &end), ending.hindsight)
    } else {
        ending.hindsight == Hindsight::<R>::Nothing
    }
}

/// Whether an outcome is that of an episode which was played from `start` and then looked at.
pub open spec fn is_outcome<
    E: Environment<Act = Action, Obs = TilersObs>,
    R: Convert<D>,
    D: Convert<R>,
    G: Fn(&E) -> R,
    S: Fn(&E) -> Survey<R>,
    P: Fn(&E, &E) -> (usize, usize),
    H: Fn(&E, &E) -> Hindsight<R>,
>(
    g: &Gatherer<R, D>,
    c_puct: R,
    look: &Look<G, S, P, H>,
    oracle: Oracle<Action, R>,
    luck: Luck<R, D>,
    start: NodeId,
    reference: Reference<R>,
    o: EpisodeOutcome<R>,
) -> bool {
    exists|
        first: E,
        kept: E,
        last: E,
        states: Seq<Episode<E, R>>,
        episode: Episode<E, R>,
        before: Survey<R>,
        after: Survey<R>,
        ending: Ending<R>,
    |
        {
            &&& #[trigger] is_game::<E, R, D, G>(
                g,
                c_puct,
                &look.depth,
                oracle,
                luck,
                first,
                reference,
                states,
                episode,
            )
            &&& first.spec_hash() == start
            &&& episode.is_complete(g, start)
            &&& #[trigger] is_ending::<E, R, D, G, S, P, H>(
                g,
                look,
                reference.scaffold is Some,
                kept,
                last,
                before,
                after,
                ending,
            )
            &&& kept.spec_hash() == start
            &&& last.spec_hash() == episode.env.spec_hash()
            &&& o == episode.outcome(g, before.instance, ending)
        }
}

impl<R: Convert<D>, D: Convert<R>> Gatherer<R, D> {
    /// Plays an episode, looks at how it ended, and grades it.
    pub fn run_episode_from<
        E: Environment<Act = Action, Obs = TilersObs>,
        C: InferenceClient<E, R> + ?Sized,
        G: Fn(&E) -> R,
        S: Fn(&E) -> Survey<R>,
        P: Fn(&E, &E) -> (usize, usize),
        H: Fn(&E, &E) -> Hindsight<R>,
        K: Chance<R, D>,
    >(
        &self,
        start: E,
        reference: Reference<R>,
        client: &C,
        c_puct: R,
        look: &Look<G, S, P, H>,
        chance: &mut K,
    ) -> (r: Result<EpisodeOutcome<R>, EpisodeError>)
        requires
            self.can_play(reference.actions),
            self.cusp_frontier + self.cusp_margin <= usize::MAX,
            can_look::<E, R, G, S, P, H>(look),
            can_ask::<E, R, C>(
                client,
                asked_in_game::<E, R, D, G>(
                    self,
                    c_puct,
                    &look.depth,
                    oracle_of::<E, R, C>(client),
                    luck_of::<R, D, K>(),
                    start,
                    reference,
                ),
            ),
        ensures
            self.spec_action_budget(reference.actions) == 0 ==> r is Ok,
            r matches Err(EpisodeError::Inference(e)) ==> {
                let asked = asked_in_game::<E, R, D, G>(
                    self,
                    c_puct,
                    &look.depth,
                    oracle_of::<E, R, C>(client),
                    luck_of::<R, D, K>(),
                    start,
                    reference,
                );
                is_failure::<E, R, C>(client, asked, alone::<E>(asked), e)
            },
            r is Err && r->Err_0 is NoMove ==> is_stuck::<E, R, D, G>(
                self,
                c_puct,
                &look.depth,
                oracle_of::<E, R, C>(client),
                luck_of::<R, D, K>(),
                start,
                reference,
            ),
            r matches Ok(o) ==> is_outcome::<E, R, D, G, S, P, H>(
                self,
                c_puct,
                look,
                oracle_of::<E, R, C>(client),
                luck_of::<R, D, K>(),
                start.spec_hash(),
                reference,
                o,
            ),
    {
        let kept: E = start.clone();
        proof {
            E::clone_law(start, kept);
        }
        let ghost first = start;
        let ghost c = c_puct;
        let ghost oracle = oracle_of::<E, R, C>(client);
        let ghost luck = luck_of::<R, D, K>();
        let scaffolded: bool = match reference.scaffold {
            Some(_) => true,
            None => false,
        };
        let ghost asked = reference;
        let episode: Episode<E, R> = match run_episode(
            self,
            start,
            reference,
            client,
            c_puct,
            &look.depth,
            chance,
        ) {
            Ok(e) => e,
            Err(e) => {
                return Err(e);
            },
        };
        let before: Survey<R> = (look.survey)(&kept);
        let after: Survey<R> = (look.survey)(&episode.env);
        let widest: usize = pp_weights(before.weights.as_slice()).1;
        let (merged, factors) = (look.progress)(&kept, &episode.env);
        let done: bool = episode.env.done();
        let objectives: usize = before.instance.num_objectives;
        let hindsight: Hindsight<R> = if self.needs_hindsight(done, scaffolded, objectives, widest) {
            (look.look_back)(&kept, &episode.env)
        } else {
            Hindsight::Nothing
        };
        let ending: Ending<R> = Ending {
            done,
            depth: after.depth.dup(),
            start_objectives: objectives,
            remaining_objectives: after.instance.num_objectives,
            max_weight: widest,
            merged,
            factors,
            hindsight,
        };
        let ghost last = episode.env;
        let ghost played = episode;
        assert(is_ending::<E, R, D, G, S, P, H>(
            self,
            look,
            asked.scaffold is Some,
            kept,
            last,
            before,
            after,
            ending,
        ));
        let instance: Instance = before.instance;
        let ghost told = ending;
        let o: EpisodeOutcome<R> = episode.finish(self, instance, ending);
        proof {
            let states = choose|states: Seq<Episode<E, R>>| #[trigger]
                is_game::<E, R, D, G>(self, c, &look.depth, oracle, luck, first, asked, states, played);
            assert(is_game::<E, R, D, G>(self, c, &look.depth, oracle, luck, first, asked, states, played));
            assert(o == played.outcome(self, before.instance, told));
        }
        Ok(o)
    }
}

/// What is behind a scaffold of some actions of the reference plan.
pub open spec fn is_scaffolded<
    E: Environment<Act = Action, Obs = TilersObs>,
    R: Convert<D>,
    D: Convert<R>,
    M,
    G: Fn(&E) -> R,
    S: Fn(&E) -> Survey<R>,
    P: Fn(&E, &E) -> (usize, usize),
    H: Fn(&E, &E) -> Hindsight<R>,
    W: Fn(&E, &Vec<M>, usize) -> (E, R),
>(
    g: &Gatherer<R, D>,
    c_puct: R,
    look: &Look<G, S, P, H>,
    oracle: Oracle<Action, R>,
    luck: Luck<R, D>,
    scaffold: &W,
    game: NodeId,
    d_full: R,
    plan: &Vec<M>,
    p: usize,
    o: EpisodeOutcome<R>,
) -> bool {
    exists|e: &E, start: E, depth: R| #[trigger]
        call_ensures(scaffold, (e, plan, p), (start, depth)) && e.spec_hash() == game
            && is_outcome::<E, R, D, G, S, P, H>(
            g,
            c_puct,
            look,
            oracle,
            luck,
            start.spec_hash(),
            Reference { depth: d_full, actions: (plan@.len() - p) as usize, scaffold: Some(depth) },
            o,
        )
}

/// Where a search stands after some probes, by whether each was enough.
pub open spec fn bracket_after(b: Bracket, probes: Seq<(usize, bool)>) -> Bracket
    decreases probes.len(),
{
    if probes.len() == 0 {
        b
    } else {
        bracket_after(b, probes.drop_last()).after(probes.last().1)
    }
}

/// The last outcome that did, or did not, reach its goal.
pub open spec fn last_with<R>(outcomes: Seq<EpisodeOutcome<R>>, done: bool) -> Option<
    EpisodeOutcome<R>,
>
    decreases outcomes.len(),
{
    if outcomes.len() == 0 {
        None
    } else if outcomes.last().done == done {
        Some(outcomes.last())
    } else {
        last_with(outcomes.drop_last(), done)
    }
}

/// What came of a climb.
pub struct Climb<R> {
    /// Actions of the reference plan.
    pub len: usize,
    /// The probes in their order: the length of the scaffold, and whether the goal was reached.
    pub probes: Vec<(usize, bool)>,
    /// The episode behind the shortest scaffold that was enough.
    pub best: Option<EpisodeOutcome<R>>,
    /// The episode behind the longest scaffold that was not.
    pub failed: Option<EpisodeOutcome<R>>,
    /// The depth of the last episode, that of its reference, and whether it reached its goal.
    pub summary: (R, R, bool),
}

/// Whether the probe at `i` is the one that the search asks for, and was played.
pub open spec fn is_probe_at<
    E: Environment<Act = Action, Obs = TilersObs>,
    R: Convert<D>,
    D: Convert<R>,
    M,
    G: Fn(&E) -> R,
    S: Fn(&E) -> Survey<R>,
    P: Fn(&E, &E) -> (usize, usize),
    H: Fn(&E, &E) -> Hindsight<R>,
    W: Fn(&E, &Vec<M>, usize) -> (E, R),
>(
    g: &Gatherer<R, D>,
    c_puct: R,
    look: &Look<G, S, P, H>,
    oracle: Oracle<Action, R>,
    luck: Luck<R, D>,
    scaffold: &W,
    game: NodeId,
    d_full: R,
    plan: &Vec<M>,
    bracket: Bracket,
    probes: Seq<(usize, bool)>,
    outcomes: Seq<EpisodeOutcome<R>>,
    i: int,
) -> bool {
    &&& bracket_after(bracket, probes.take(i)).probe == Some(probes[i].0 as int)
    &&& probes[i].0 <= plan@.len()
    &&& probes[i].1 == outcomes[i].done
    &&& is_scaffolded::<E, R, D, M, G, S, P, H, W>(
        g,
        c_puct,
        look,
        oracle,
        luck,
        scaffold,
        game,
        d_full,
        plan,
        probes[i].0,
        outcomes[i],
    )
}

/// Whether all probes are those that the search asks for, and were played.
pub open spec fn are_probes<
    E: Environment<Act = Action, Obs = TilersObs>,
    R: Convert<D>,
    D: Convert<R>,
    M,
    G: Fn(&E) -> R,
    S: Fn(&E) -> Survey<R>,
    P: Fn(&E, &E) -> (usize, usize),
    H: Fn(&E, &E) -> Hindsight<R>,
    W: Fn(&E, &Vec<M>, usize) -> (E, R),
>(
    g: &Gatherer<R, D>,
    c_puct: R,
    look: &Look<G, S, P, H>,
    oracle: Oracle<Action, R>,
    luck: Luck<R, D>,
    scaffold: &W,
    game: NodeId,
    d_full: R,
    plan: &Vec<M>,
    bracket: Bracket,
    probes: Seq<(usize, bool)>,
    outcomes: Seq<EpisodeOutcome<R>>,
) -> bool {
    &&& outcomes.len() == probes.len()
    &&& forall|i: int|
        0 <= i < probes.len() ==> #[trigger] is_probe_at::<E, R, D, M, G, S, P, H, W>(
            g,
            c_puct,
            look,
            oracle,
            luck,
            scaffold,
            game,
            d_full,
            plan,
            bracket,
            probes,
            outcomes,
            i,
        )
}

/// Where a climb begins.
pub open spec fn first_bracket(len: nat, seed: usize, floor: usize) -> Bracket {
    Bracket {
        lo: if floor <= len {
            floor as int
        } else {
            len as int
        },
        hi: len as int,
        probe: Some(
            if seed <= len {
                seed as int
            } else {
                len as int
            },
        ),
    }
}

/// Whether a climb was made: probe after probe, until the cusp is pinned or the probes are used
/// up, with the last episode on either side of the cusp kept.
pub open spec fn is_climb<
    E: Environment<Act = Action, Obs = TilersObs>,
    R: Convert<D>,
    D: Convert<R>,
    M,
    G: Fn(&E) -> R,
    S: Fn(&E) -> Survey<R>,
    P: Fn(&E, &E) -> (usize, usize),
    H: Fn(&E, &E) -> Hindsight<R>,
    W: Fn(&E, &Vec<M>, usize) -> (E, R),
>(
    g: &Gatherer<R, D>,
    c_puct: R,
    look: &Look<G, S, P, H>,
    oracle: Oracle<Action, R>,
    luck: Luck<R, D>,
    scaffold: &W,
    game: NodeId,
    d_full: R,
    plan: &Vec<M>,
    seed: usize,
    floor: usize,
    climb: Climb<R>,
) -> bool {
    let bracket = first_bracket(plan@.len(), seed, floor);
    let most = g.reverse_curriculum_max_probes;
    let probes = climb.probes@;
    &&& climb.len == plan@.len()
    &&& probes.len() <= most
    &&& probes.len() == most || bracket_after(bracket, probes).probe is None
    &&& exists|outcomes: Seq<EpisodeOutcome<R>>|
        {
            &&& #[trigger] are_probes::<E, R, D, M, G, S, P, H, W>(
                g,
                c_puct,
                look,
                oracle,
                luck,
                scaffold,
                game,
                d_full,
                plan,
                bracket,
                probes,
                outcomes,
            )
            &&& climb.best == last_with(outcomes, true)
            &&& climb.failed == last_with(outcomes, false)
            &&& climb.summary == (if outcomes.len() == 0 {
                (zero(), zero(), false)
            } else {
                (
                    outcomes.last().solution_depth,
                    outcomes.last().reference_depth,
                    outcomes.last().done,
                )
            })
        }
}

/// Whether the episode behind a scaffold of some actions of the reference plan comes to a state
/// for which no action is drawn.
pub open spec fn is_stuck_behind<
    E: Environment<Act = Action, Obs = TilersObs>,
    R: Convert<D>,
    D: Convert<R>,
    M,
    G: Fn(&E) -> R,
    S: Fn(&E) -> Survey<R>,
    P: Fn(&E, &E) -> (usize, usize),
    H: Fn(&E, &E) -> Hindsight<R>,
    W: Fn(&E, &Vec<M>, usize) -> (E, R),
>(
    g: &Gatherer<R, D>,
    c_puct: R,
    look: &Look<G, S, P, H>,
    oracle: Oracle<Action, R>,
    luck: Luck<R, D>,
    scaffold: &W,
    game: NodeId,
    d_full: R,
    plan: &Vec<M>,
    p: usize,
) -> bool {
    exists|e: &E, start: E, depth: R| #[trigger]
        call_ensures(scaffold, (e, plan, p), (start, depth)) && e.spec_hash() == game && is_stuck::<
            E,
            R,
            D,
            G,
        >(
            g,
            c_puct,
            &look.depth,
            oracle,
            luck,
            start,
            Reference { depth: d_full, actions: (plan@.len() - p) as usize, scaffold: Some(depth) },
        )
}

/// Whether the episode behind a scaffold of some actions of the reference plan asks for a batch.
pub open spec fn asks_behind<
    E: Environment<Act = Action, Obs = TilersObs>,
    R: Convert<D>,
    D: Convert<R>,
    M,
    G: Fn(&E) -> R,
    S: Fn(&E) -> Survey<R>,
    P: Fn(&E, &E) -> (usize, usize),
    H: Fn(&E, &E) -> Hindsight<R>,
    W: Fn(&E, &Vec<M>, usize) -> (E, R),
>(
    g: &Gatherer<R, D>,
    c_puct: R,
    look: &Look<G, S, P, H>,
    oracle: Oracle<Action, R>,
    luck: Luck<R, D>,
    scaffold: &W,
    game: NodeId,
    d_full: R,
    plan: &Vec<M>,
    p: usize,
    e: &E,
    start: E,
    depth: R,
    obs: Seq<TilersObs>,
) -> bool {
    &&& call_ensures(scaffold, (e, plan, p), (start, depth))
    &&& e.spec_hash() == game
    &&& asks_in_game::<E, R, D, G>(
        g,
        c_puct,
        &look.depth,
        oracle,
        luck,
        start,
        Reference { depth: d_full, actions: (plan@.len() - p) as usize, scaffold: Some(depth) },
        obs,
    )
}

/// Whether a climb asks for a batch after some probes, at the one that the search asks for next.
pub open spec fn asks_at_probe<
    E: Environment<Act = Action, Obs = TilersObs>,
    R: Convert<D>,
    D: Convert<R>,
    M,
    G: Fn(&E) -> R,
    S: Fn(&E) -> Survey<R>,
    P: Fn(&E, &E) -> (usize, usize),
    H: Fn(&E, &E) -> Hindsight<R>,
    W: Fn(&E, &Vec<M>, usize) -> (E, R),
>(
    g: &Gatherer<R, D>,
    c_puct: R,
    look: &Look<G, S, P, H>,
    oracle: Oracle<Action, R>,
    luck: Luck<R, D>,
    scaffold: &W,
    game: NodeId,
    d_full: R,
    plan: &Vec<M>,
    bracket: Bracket,
    probes: Seq<(usize, bool)>,
    outcomes: Seq<EpisodeOutcome<R>>,
    p: usize,
    obs: Seq<TilersObs>,
) -> bool {
    &&& are_probes::<E, R, D, M, G, S, P, H, W>(
        g,
        c_puct,
        look,
        oracle,
        luck,
        scaffold,
        game,
        d_full,
        plan,
        bracket,
        probes,
        outcomes,
    )
    &&& probes.len() < g.reverse_curriculum_max_probes
    &&& bracket_after(bracket, probes).probe == Some(p as int)
    &&& p <= plan@.len()
    &&& exists|e: &E, start: E, depth: R| #[trigger]
        asks_behind::<E, R, D, M, G, S, P, H, W>(
            g,
            c_puct,
            look,
            oracle,
            luck,
            scaffold,
            game,
            d_full,
            plan,
            p,
            e,
            start,
            depth,
            obs,
        )
}

/// Whether a climb asks for a batch.
pub open spec fn asks_in_climb<
    E: Environment<Act = Action, Obs = TilersObs>,
    R: Convert<D>,
    D: Convert<R>,
    M,
    G: Fn(&E) -> R,
    S: Fn(&E) -> Survey<R>,
    P: Fn(&E, &E) -> (usize, usize),
    H: Fn(&E, &E) -> Hindsight<R>,
    W: Fn(&E, &Vec<M>, usize) -> (E, R),
>(
    g: &Gatherer<R, D>,
    c_puct: R,
    look: &Look<G, S, P, H>,
    oracle: Oracle<Action, R>,
    luck: Luck<R, D>,
    scaffold: &W,
    game: NodeId,
    d_full: R,
    plan: &Vec<M>,
    seed: usize,
    floor: usize,
    obs: Seq<TilersObs>,
) -> bool {
    exists|probes: Seq<(usize, bool)>, outcomes: Seq<EpisodeOutcome<R>>, p: usize| #[trigger]
        asks_at_probe::<E, R, D, M, G, S, P, H, W>(
            g,
            c_puct,
            look,
            oracle,
            luck,
            scaffold,
            game,
            d_full,
            plan,
            first_bracket(plan@.len(), seed, floor),
            probes,
            outcomes,
            p,
            obs,
        )
}

/// The batches that a climb asks for: those of the episode of each of its probes.
pub open spec fn asked_in_climb<
    E: Environment<Act = Action, Obs = TilersObs>,
    R: Convert<D>,
    D: Convert<R>,
    M,
    G: Fn(&E) -> R,
    S: Fn(&E) -> Survey<R>,
    P: Fn(&E, &E) -> (usize, usize),
    H: Fn(&E, &E) -> Hindsight<R>,
    W: Fn(&E, &Vec<M>, usize) -> (E, R),
>(
    g: &Gatherer<R, D>,
    c_puct: R,
    look: &Look<G, S, P, H>,
    oracle: Oracle<Action, R>,
    luck: Luck<R, D>,
    scaffold: &W,
    game: NodeId,
    d_full: R,
    plan: &Vec<M>,
    seed: usize,
    floor: usize,
) -> spec_fn(Seq<TilersObs>) -> bool {
    |obs: Seq<TilersObs>|
        asks_in_climb::<E, R, D, M, G, S, P, H, W>(
            g,
            c_puct,
            look,
            oracle,
            luck,
            scaffold,
            game,
            d_full,
            plan,
            seed,
            floor,
            obs,
        )
}

/// Whether a climb breaks off at a probe: after some that were played, the episode behind the
/// scaffold that the search asks for next comes to a state for which no action is drawn.
pub open spec fn is_stuck_climb<
    E: Environment<Act = Action, Obs = TilersObs>,
    R: Convert<D>,
    D: Convert<R>,
    M,
    G: Fn(&E) -> R,
    S: Fn(&E) -> Survey<R>,
    P: Fn(&E, &E) -> (usize, usize),
    H: Fn(&E, &E) -> Hindsight<R>,
    W: Fn(&E, &Vec<M>, usize) -> (E, R),
>(
    g: &Gatherer<R, D>,
    c_puct: R,
    look: &Look<G, S, P, H>,
    oracle: Oracle<Action, R>,
    luck: Luck<R, D>,
    scaffold: &W,
    game: NodeId,
    d_full: R,
    plan: &Vec<M>,
    seed: usize,
    floor: usize,
) -> bool {
    let bracket = first_bracket(plan@.len(), seed, floor);
    exists|probes: Seq<(usize, bool)>, outcomes: Seq<EpisodeOutcome<R>>, p: usize|
        {
            &&& #[trigger] are_probes::<E, R, D, M, G, S, P, H, W>(
                g,
                c_puct,
                look,
                oracle,
                luck,
                scaffold,
                game,
                d_full,
                plan,
                bracket,
                probes,
                outcomes,
            )
            &&& probes.len() < g.reverse_curriculum_max_probes
            &&& bracket_after(bracket, probes).probe == Some(p as int)
            &&& p <= plan@.len()
            &&& #[trigger] is_stuck_behind::<E, R, D, M, G, S, P, H, W>(
                g,
                c_puct,
                look,
                oracle,
                luck,
                scaffold,
                game,
                d_full,
                plan,
                p,
            )
        }
}

impl<R: Convert<D>, D: Convert<R>> Gatherer<R, D> {
    /// Looks for the shortest scaffold behind which the goal is still reached: the first actions of
    /// the reference plan are given, and the rest is played.
    #[verifier::rlimit(40)]
    pub fn gather_reverse_curriculum<
        E: Environment<Act = Action, Obs = TilersObs>,
        M,
        C: InferenceClient<E, R> + ?Sized,
        G: Fn(&E) -> R,
        S: Fn(&E) -> Survey<R>,
        P: Fn(&E, &E) -> (usize, usize),
        H: Fn(&E, &E) -> Hindsight<R>,
        W: Fn(&E, &Vec<M>, usize) -> (E, R),
        K: Chance<R, D>,
    >(
        &self,
        game: &E,
        d_full: &R,
        plan: &Vec<M>,
        seed: usize,
        floor: usize,
        client: &C,
        c_puct: &R,
        look: &Look<G, S, P, H>,
        scaffold: &W,
        chance: &mut K,
    ) -> (r: Result<Climb<R>, EpisodeError>)
        requires
            plan@.len() < usize::MAX,
            forall|n: usize| n <= plan@.len() ==> #[trigger] self.can_play(n),
            self.cusp_frontier + self.cusp_margin <= usize::MAX,
            can_look::<E, R, G, S, P, H>(look),
            forall|e: &E, m: &Vec<M>, p: usize| call_requires(scaffold, (e, m, p)),
            can_ask::<E, R, C>(
                client,
                asked_in_climb::<E, R, D, M, G, S, P, H, W>(
                    self,
                    *c_puct,
                    look,
                    oracle_of::<E, R, C>(client),
                    luck_of::<R, D, K>(),
                    scaffold,
                    game.spec_hash(),
                    *d_full,
                    plan,
                    seed,
                    floor,
                ),
            ),
        ensures
            self.reverse_curriculum_max_probes == 0 ==> r is Ok,
            r matches Err(EpisodeError::Inference(e)) ==> {
                let asked = asked_in_climb::<E, R, D, M, G, S, P, H, W>(
                    self,
                    *c_puct,
                    look,
                    oracle_of::<E, R, C>(client),
                    luck_of::<R, D, K>(),
                    scaffold,
                    game.spec_hash(),
                    *d_full,
                    plan,
                    seed,
                    floor,
                );
                is_failure::<E, R, C>(client, asked, alone::<E>(asked), e)
            },
            r is Err && r->Err_0 is NoMove ==> is_stuck_climb::<E, R, D, M, G, S, P, H, W>(
                self,
                *c_puct,
                look,
                oracle_of::<E, R, C>(client),
                luck_of::<R, D, K>(),
                scaffold,
                game.spec_hash(),
                *d_full,
                plan,
                seed,
                floor,
            ),
            r matches Ok(c) ==> is_climb::<E, R, D, M, G, S, P, H, W>(
                self,
                *c_puct,
                look,
                oracle_of::<E, R, C>(client),
                luck_of::<R, D, K>(),
                scaffold,
                game.spec_hash(),
                *d_full,
                plan,
                seed,
                floor,
                c,
            ),
    {
        let len: usize = plan.len();
        let lowest: usize = if floor <= len {
            floor
        } else {
            len
        };
        let most: usize = self.reverse_curriculum_max_probes;
        let mut search: CuspSearch<EpisodeOutcome<R>> = CuspSearch::new(len, seed, lowest, most);
        let mut probes: Vec<(usize, bool)> = Vec::new();
        let mut summary: (R, R, bool) = (R::decimal(0, 0), R::decimal(0, 0), false);
        let ghost bracket = first_bracket(plan@.len(), seed, floor);
        let ghost oracle = oracle_of::<E, R, C>(client);
        let ghost luck = luck_of::<R, D, K>();
        let ghost here = game.spec_hash();
        let ghost asked = asked_in_climb::<E, R, D, M, G, S, P, H, W>(
            self,
            *c_puct,
            look,
            oracle,
            luck,
            scaffold,
            here,
            *d_full,
            plan,
            seed,
            floor,
        );
        let ghost mut outcomes: Seq<EpisodeOutcome<R>> = Seq::empty();
        assert(are_probes::<E, R, D, M, G, S, P, H, W>(
            self,
            *c_puct,
            look,
            oracle,
            luck,
            scaffold,
            here,
            *d_full,
            plan,
            bracket,
            probes@,
            outcomes,
        ));
        let mut next: Option<usize> = search.next();
        while next.is_some()
            invariant
                len == plan@.len(),
                len < usize::MAX,
                forall|n: usize| n <= plan@.len() ==> #[trigger] self.can_play(n),
                self.cusp_frontier + self.cusp_margin <= usize::MAX,
                can_look::<E, R, G, S, P, H>(look),
                forall|e: &E, m: &Vec<M>, p: usize| call_requires(scaffold, (e, m, p)),
                most == self.reverse_curriculum_max_probes,
                asked == asked_in_climb::<E, R, D, M, G, S, P, H, W>(
                    self,
                    *c_puct,
                    look,
                    oracle,
                    luck,
                    scaffold,
                    here,
                    *d_full,
                    plan,
                    seed,
                    floor,
                ),
                can_ask::<E, R, C>(client, asked),
                bracket == first_bracket(plan@.len(), seed, floor),
                oracle == oracle_of::<E, R, C>(client),
                luck == luck_of::<R, D, K>(),
                here == game.spec_hash(),
                search.wf(),
                search.len == len,
                next == search.spec_next(),
                search.probes_left + probes@.len() == most,
                search.bracket() == bracket_after(bracket, probes@),
                search.best == last_with(outcomes, true),
                search.failed == last_with(outcomes, false),
                summary == (if outcomes.len() == 0 {
                    (zero::<R>(), zero::<R>(), false)
                } else {
                    (
                        outcomes.last().solution_depth,
                        outcomes.last().reference_depth,
                        outcomes.last().done,
                    )
                }),
                are_probes::<E, R, D, M, G, S, P, H, W>(
                    self,
                    *c_puct,
                    look,
                    oracle,
                    luck,
                    scaffold,
                    here,
                    *d_full,
                    plan,
                    bracket,
                    probes@,
                    outcomes,
                ),
            decreases search.probes_left,
        {
            let p: usize = search.prefix;
            assert(search.bracket().probe == Some(p as int));
            let (start, depth): (E, R) = scaffold(game, plan, p);
            assert(call_ensures(scaffold, (game, plan, p), (start, depth)));
            let ghost from = start;
            let ghost told = depth;
            let reference: Reference<R> = Reference {
                depth: d_full.dup(),
                actions: len - p,
                scaffold: Some(depth),
            };
            assert(self.can_play((len - p) as usize));
            let ghost inner = asked_in_game::<E, R, D, G>(
                self,
                *c_puct,
                &look.depth,
                oracle,
                luck,
                from,
                reference,
            );
            proof {
                assert forall|obs: Seq<TilersObs>| #[trigger] inner(obs) implies asked(obs) by {
                    assert(asks_behind::<E, R, D, M, G, S, P, H, W>(
                        self,
                        *c_puct,
                        look,
                        oracle,
                        luck,
                        scaffold,
                        here,
                        *d_full,
                        plan,
                        p,
                        game,
                        from,
                        told,
                        obs,
                    ));
                    assert(asks_at_probe::<E, R, D, M, G, S, P, H, W>(
                        self,
                        *c_puct,
                        look,
                        oracle,
                        luck,
                        scaffold,
                        here,
                        *d_full,
                        plan,
                        bracket,
                        probes@,
                        outcomes,
                        p,
                        obs,
                    ));
                }
            }
            let o: EpisodeOutcome<R> = match self.run_episode_from(
                start,
                reference,
                client,
                c_puct.dup(),
                look,
                chance,
            ) {
                Ok(o) => o,
                Err(e) => {
                    proof {
                        if e is Inference {
                            lemma_failure_widens::<E, R, C>(
                                client,
                                inner,
                                alone::<E>(inner),
                                asked,
                                alone::<E>(asked),
                                e->Inference_0,
                            );
                        }
                        if e is NoMove {
                            assert(is_stuck_behind::<E, R, D, M, G, S, P, H, W>(
                                self,
                                *c_puct,
                                look,
                                oracle,
                                luck,
                                scaffold,
                                here,
                                *d_full,
                                plan,
                                p,
                            ));
                        }
                    }
                    return Err(e);
                },
            };
            let done: bool = o.done;
            summary = (o.solution_depth.dup(), o.reference_depth.dup(), done);
            let ghost earlier = outcomes;
            let ghost earlier_probes = probes@;
            proof {
                assert(is_scaffolded::<E, R, D, M, G, S, P, H, W>(
                    self,
                    *c_puct,
                    look,
                    oracle,
                    luck,
                    scaffold,
                    here,
                    *d_full,
                    plan,
                    p,
                    o,
                ));
                outcomes = outcomes.push(o);
                assert(outcomes.drop_last() =~= earlier);
            }
            probes.push((p, done));
            search.report(o, done);
            proof {
                assert(probes@.drop_last() =~= earlier_probes);
                assert forall|i: int| 0 <= i < probes@.len() implies #[trigger] is_probe_at::<
                    E,
                    R,
                    D,
                    M,
                    G,
                    S,
                    P,
                    H,
                    W,
                >(
                    self,
                    *c_puct,
                    look,
                    oracle,
                    luck,
                    scaffold,
                    here,
                    *d_full,
                    plan,
                    bracket,
                    probes@,
                    outcomes,
                    i,
                ) by {
                    if i < earlier_probes.len() {
                        assert(is_probe_at::<E, R, D, M, G, S, P, H, W>(
                            self,
                            *c_puct,
                            look,
                            oracle,
                            luck,
                            scaffold,
                            here,
                            *d_full,
                            plan,
                            bracket,
                            earlier_probes,
                            earlier,
                            i,
                        ));
                        assert(probes@.take(i) =~= earlier_probes.take(i));
                    } else {
                        assert(probes@.take(i) =~= earlier_probes);
                    }
                }
            }
            next = search.next();
        }
        let climb: Climb<R> = Climb {
            len,
            probes,
            best: search.best,
            failed: search.failed,
            summary,
        };
        assert(is_climb::<E, R, D, M, G, S, P, H, W>(
            self,
            *c_puct,
            look,
            oracle,
            luck,
            scaffold,
            here,
            *d_full,
            plan,
            seed,
            floor,
            climb,
        ));
        Ok(climb)
    }
}

/// The reference solver of a game, and what can be made of its plans.
pub struct Solver<V, W, Z> {
    /// The depth of the reference solution of a state, and its plan; an empty one where there is
    /// none.
    pub solve: V,
    /// The state behind the first actions of a plan, and its depth.
    pub scaffold: W,
    /// The states along a plan, each with the action of the plan in it; at most one per action.
    pub replay: Z,
}

/// Whether all questions to the solver can be asked, and the episodes on its plans counted.
pub open spec fn can_solve<
    E: Environment,
    R: Scalar,
    D: Convert<R>,
    M,
    V: Fn(&E) -> (R, Vec<M>),
    W: Fn(&E, &Vec<M>, usize) -> (E, R),
    Z: Fn(&E, &Vec<M>) -> Vec<StepRecord>,
>(g: &Gatherer<R, D>, solver: &Solver<V, W, Z>) -> bool {
    &&& forall|e: &E| call_requires(solver.solve, (e,))
    &&& forall|e: &E, m: &Vec<M>, p: usize| call_requires(solver.scaffold, (e, m, p))
    &&& forall|e: &E, m: &Vec<M>| call_requires(solver.replay, (e, m))
    &&& forall|e: &E, d: R, plan: Vec<M>, n: usize|
        #![trigger call_ensures(solver.solve, (e,), (d, plan)), g.can_play(n)]
        call_ensures(solver.solve, (e,), (d, plan)) && n <= plan@.len() ==> g.can_play(n)
    &&& forall|e: &E, d: R, plan: Vec<M>| #[trigger]
        call_ensures(solver.solve, (e,), (d, plan)) ==> plan@.len() < usize::MAX
    &&& forall|e: &E, plan: &Vec<M>, states: Vec<StepRecord>| #[trigger]
        call_ensures(solver.replay, (e, plan), states) ==> states@.len() <= plan@.len()
}

/// Whether a solver may solve a state by a plan.
pub open spec fn is_solved<E: Environment, R: Scalar, M, V: Fn(&E) -> (R, Vec<M>)>(
    solve: &V,
    state: NodeId,
    depth: R,
    plan: Vec<M>,
) -> bool {
    exists|e: &E| #[trigger] call_ensures(solve, (e,), (depth, plan)) && e.spec_hash() == state
}

/// A demonstration: the states along a reference plan.
pub struct Demonstration {
    /// Actions of the plan.
    pub plan_len: usize,
    pub states: Vec<StepRecord>,
}

/// Whether a demonstration replays a reference plan of a state.
pub open spec fn is_demonstration<
    E: Environment,
    R: Scalar,
    M,
    V: Fn(&E) -> (R, Vec<M>),
    W: Fn(&E, &Vec<M>, usize) -> (E, R),
    Z: Fn(&E, &Vec<M>) -> Vec<StepRecord>,
>(solver: &Solver<V, W, Z>, state: NodeId, demo: Demonstration) -> bool {
    exists|depth: R, plan: Vec<M>, e: &E|
        {
            &&& #[trigger] is_solved::<E, R, M, V>(&solver.solve, state, depth, plan)
            &&& demo.plan_len == plan@.len()
            &&& #[trigger] call_ensures(solver.replay, (e, &plan), demo.states)
            &&& demo.states@.len() <= demo.plan_len
            &&& e.spec_hash() == state
        }
}

/// What was gathered on an instance.
pub enum Gathered<R> {
    /// A demonstration alone.
    Demo(Demonstration),
    /// A climb.
    Climbed(Climb<R>),
    /// An episode from the start, a number drawn for whether it is kept, and a demonstration if
    /// there is to be one.
    Played(EpisodeOutcome<R>, R, Option<Demonstration>),
}

impl<R: Scalar> Gathered<R> {
    /// What [`Gathered::summary`] gives.
    pub open spec fn spec_summary(self) -> (R, R, bool) {
        match self {
            Gathered::Demo(_) => (zero(), zero(), false),
            Gathered::Climbed(climb) => climb.summary,
            Gathered::Played(o, _, _) => (o.solution_depth, o.reference_depth, o.done),
        }
    }

    /// The depth that was reached, that of the reference, and whether the goal was reached. A
    /// demonstration alone reaches nothing.
    pub fn summary(&self) -> (r: (R, R, bool))
        ensures
            r == self.spec_summary(),
    {
        match self {
            Gathered::Demo(_) => (R::decimal(0, 0), R::decimal(0, 0), false),
            Gathered::Climbed(climb) => (
                climb.summary.0.dup(),
                climb.summary.1.dup(),
                climb.summary.2,
            ),
            Gathered::Played(o, _, _) => (o.solution_depth.dup(), o.reference_depth.dup(), o.done),
        }
    }
}

/// Whether an instance was gathered on by a route: `climbed` holds the reference solution where a
/// climb was tried.
pub open spec fn is_gathered_by<
    E: Environment<Act = Action, Obs = TilersObs>,
    R: Convert<D>,
    D: Convert<R>,
    M,
    G: Fn(&E) -> R,
    S: Fn(&E) -> Survey<R>,
    P: Fn(&E, &E) -> (usize, usize),
    H: Fn(&E, &E) -> Hindsight<R>,
    V: Fn(&E) -> (R, Vec<M>),
    W: Fn(&E, &Vec<M>, usize) -> (E, R),
    Z: Fn(&E, &Vec<M>) -> Vec<StepRecord>,
>(
    g: &Gatherer<R, D>,
    c_puct: R,
    look: &Look<G, S, P, H>,
    solver: &Solver<V, W, Z>,
    oracle: Oracle<Action, R>,
    luck: Luck<R, D>,
    game: NodeId,
    climbed: Option<(R, Vec<M>)>,
    gathered: Gathered<R>,
) -> bool {
    let len = match climbed {
        Some(solution) => Some(solution.1@.len() as usize),
        None => None,
    };
    match (g.spec_route(len), gathered) {
        (Route::Demo, Gathered::Demo(demo)) => {
            is_demonstration::<E, R, M, V, W, Z>(solver, game, demo)
        },
        (Route::Climb { seed, floor }, Gathered::Climbed(climb)) => match climbed {
            Some(solution) => is_climb::<E, R, D, M, G, S, P, H, W>(
                g,
                c_puct,
                look,
                oracle,
                luck,
                &solver.scaffold,
                game,
                solution.0,
                &solution.1,
                seed,
                floor,
                climb,
            ),
            None => false,
        },
        (Route::Episode, Gathered::Played(o, keep, demo)) => {
            is_episode::<E, R, D, M, G, S, P, H, V, W, Z>(
                g,
                c_puct,
                look,
                solver,
                oracle,
                luck,
                game,
                o,
                keep,
                demo,
            )
        },
        _ => false,
    }
}

/// Whether an instance was gathered on. A climb is tried by a number drawn, and with the reference
/// solution.
pub open spec fn is_gathered<
    E: Environment<Act = Action, Obs = TilersObs>,
    R: Convert<D>,
    D: Convert<R>,
    M,
    G: Fn(&E) -> R,
    S: Fn(&E) -> Survey<R>,
    P: Fn(&E, &E) -> (usize, usize),
    H: Fn(&E, &E) -> Hindsight<R>,
    V: Fn(&E) -> (R, Vec<M>),
    W: Fn(&E, &Vec<M>, usize) -> (E, R),
    Z: Fn(&E, &Vec<M>) -> Vec<StepRecord>,
>(
    g: &Gatherer<R, D>,
    c_puct: R,
    look: &Look<G, S, P, H>,
    solver: &Solver<V, W, Z>,
    oracle: Oracle<Action, R>,
    luck: Luck<R, D>,
    game: NodeId,
    gathered: Gathered<R>,
) -> bool {
    exists|climbed: Option<(R, Vec<M>)>, draw: R|
        {
            &&& #[trigger] g.spec_tries_climb(draw) == (climbed is Some)
            &&& g.spec_may_climb() ==> (luck.unit)(draw)
            &&& climbed matches Some(s) ==> is_solved::<E, R, M, V>(&solver.solve, game, s.0, s.1)
            &&& #[trigger] is_gathered_by::<E, R, D, M, G, S, P, H, V, W, Z>(
                g,
                c_puct,
                look,
                solver,
                oracle,
                luck,
                game,
                climbed,
                gathered,
            )
        }
}

/// The states along a reference plan of a game.
fn demonstrate<
    E: Environment,
    R: Scalar,
    D: Convert<R>,
    M,
    V: Fn(&E) -> (R, Vec<M>),
    W: Fn(&E, &Vec<M>, usize) -> (E, R),
    Z: Fn(&E, &Vec<M>) -> Vec<StepRecord>,
>(g: &Gatherer<R, D>, game: &E, solver: &Solver<V, W, Z>) -> (r: Demonstration)
    requires
        can_solve::<E, R, D, M, V, W, Z>(g, solver),
    ensures
        is_demonstration::<E, R, M, V, W, Z>(solver, game.spec_hash(), r),
{
    let (depth, plan): (R, Vec<M>) = (solver.solve)(game);
    assert(call_ensures(solver.solve, (game,), (depth, plan)));
    assert(is_solved::<E, R, M, V>(&solver.solve, game.spec_hash(), depth, plan));
    let states: Vec<StepRecord> = (solver.replay)(game, &plan);
    let demo: Demonstration = Demonstration { plan_len: plan.len(), states };
    assert(call_ensures(solver.replay, (game, &plan), demo.states));
    demo
}

/// Whether one episode was played on an instance, and demonstrated after it only where it may be.
pub open spec fn is_episode<
    E: Environment<Act = Action, Obs = TilersObs>,
    R: Convert<D>,
    D: Convert<R>,
    M,
    G: Fn(&E) -> R,
    S: Fn(&E) -> Survey<R>,
    P: Fn(&E, &E) -> (usize, usize),
    H: Fn(&E, &E) -> Hindsight<R>,
    V: Fn(&E) -> (R, Vec<M>),
    W: Fn(&E, &Vec<M>, usize) -> (E, R),
    Z: Fn(&E, &Vec<M>) -> Vec<StepRecord>,
>(
    g: &Gatherer<R, D>,
    c_puct: R,
    look: &Look<G, S, P, H>,
    solver: &Solver<V, W, Z>,
    oracle: Oracle<Action, R>,
    luck: Luck<R, D>,
    game: NodeId,
    o: EpisodeOutcome<R>,
    keep: R,
    demo: Option<Demonstration>,
) -> bool {
    &&& exists|depth: R, plan: Vec<M>| #[trigger]
        is_solved::<E, R, M, V>(&solver.solve, game, depth, plan) && is_outcome::<
            E,
            R,
            D,
            G,
            S,
            P,
            H,
        >(
            g,
            c_puct,
            look,
            oracle,
            luck,
            game,
            Reference { depth, actions: plan@.len() as usize, scaffold: None },
            o,
        )
    &&& exists|draw: R| #[trigger]
        g.spec_wants_demo(o.done, o.instance.num_objectives, draw) == (demo is Some) && (
        g.spec_may_demo(o.done, o.instance.num_objectives) ==> (luck.unit)(draw))
    &&& g.spec_needs_keep_draw(o.reward_kind, o.score) ==> (luck.unit)(keep)
    &&& demo matches Some(d) ==> is_demonstration::<E, R, M, V, W, Z>(solver, game, d)
}

/// Whether the episode from the start of an instance comes to a state for which no action is
/// drawn.
pub open spec fn is_stuck_episode<
    E: Environment<Act = Action, Obs = TilersObs>,
    R: Convert<D>,
    D: Convert<R>,
    M,
    G: Fn(&E) -> R,
    S: Fn(&E) -> Survey<R>,
    P: Fn(&E, &E) -> (usize, usize),
    H: Fn(&E, &E) -> Hindsight<R>,
    V: Fn(&E) -> (R, Vec<M>),
    W: Fn(&E, &Vec<M>, usize) -> (E, R),
    Z: Fn(&E, &Vec<M>) -> Vec<StepRecord>,
>(
    g: &Gatherer<R, D>,
    c_puct: R,
    look: &Look<G, S, P, H>,
    solver: &Solver<V, W, Z>,
    oracle: Oracle<Action, R>,
    luck: Luck<R, D>,
    game: NodeId,
) -> bool {
    exists|depth: R, plan: Vec<M>, start: E|
        {
            &&& #[trigger] is_solved::<E, R, M, V>(&solver.solve, game, depth, plan)
            &&& start.spec_hash() == game
            &&& #[trigger] is_stuck::<E, R, D, G>(
                g,
                c_puct,
                &look.depth,
                oracle,
                luck,
                start,
                Reference { depth, actions: plan@.len() as usize, scaffold: None },
            )
        }
}

/// Whether an instance cannot be gathered on by its route, since an episode of it comes to a state
/// for which no action is drawn.
pub open spec fn is_stuck_by<
    E: Environment<Act = Action, Obs = TilersObs>,
    R: Convert<D>,
    D: Convert<R>,
    M,
    G: Fn(&E) -> R,
    S: Fn(&E) -> Survey<R>,
    P: Fn(&E, &E) -> (usize, usize),
    H: Fn(&E, &E) -> Hindsight<R>,
    V: Fn(&E) -> (R, Vec<M>),
    W: Fn(&E, &Vec<M>, usize) -> (E, R),
    Z: Fn(&E, &Vec<M>) -> Vec<StepRecord>,
>(
    g: &Gatherer<R, D>,
    c_puct: R,
    look: &Look<G, S, P, H>,
    solver: &Solver<V, W, Z>,
    oracle: Oracle<Action, R>,
    luck: Luck<R, D>,
    game: NodeId,
    climbed: Option<(R, Vec<M>)>,
) -> bool {
    let len = match climbed {
        Some(solution) => Some(solution.1@.len() as usize),
        None => None,
    };
    match g.spec_route(len) {
        Route::Demo => false,
        Route::Climb { seed, floor } => match climbed {
            Some(solution) => is_stuck_climb::<E, R, D, M, G, S, P, H, W>(
                g,
                c_puct,
                look,
                oracle,
                luck,
                &solver.scaffold,
                game,
                solution.0,
                &solution.1,
                seed,
                floor,
            ),
            None => false,
        },
        Route::Episode => is_stuck_episode::<E, R, D, M, G, S, P, H, V, W, Z>(
            g,
            c_puct,
            look,
            solver,
            oracle,
            luck,
            game,
        ),
    }
}

/// Whether an instance cannot be gathered on, since an episode that would be played on it comes to
/// a state for which no action is drawn.
pub open spec fn is_stuck_instance<
    E: Environment<Act = Action, Obs = TilersObs>,
    R: Convert<D>,
    D: Convert<R>,
    M,
    G: Fn(&E) -> R,
    S: Fn(&E) -> Survey<R>,
    P: Fn(&E, &E) -> (usize, usize),
    H: Fn(&E, &E) -> Hindsight<R>,
    V: Fn(&E) -> (R, Vec<M>),
    W: Fn(&E, &Vec<M>, usize) -> (E, R),
    Z: Fn(&E, &Vec<M>) -> Vec<StepRecord>,
>(
    g: &Gatherer<R, D>,
    c_puct: R,
    look: &Look<G, S, P, H>,
    solver: &Solver<V, W, Z>,
    oracle: Oracle<Action, R>,
    luck: Luck<R, D>,
    game: NodeId,
) -> bool {
    exists|climbed: Option<(R, Vec<M>)>, draw: R|
        {
            &&& #[trigger] g.spec_tries_climb(draw) == (climbed is Some)
            &&& g.spec_may_climb() ==> (luck.unit)(draw)
            &&& climbed matches Some(s) ==> is_solved::<E, R, M, V>(&solver.solve, game, s.0, s.1)
            &&& #[trigger] is_stuck_by::<E, R, D, M, G, S, P, H, V, W, Z>(
                g,
                c_puct,
                look,
                solver,
                oracle,
                luck,
                game,
                climbed,
            )
        }
}

/// Whether the episode from the start of an instance asks for a batch, with a reference solution.
pub open spec fn asks_with_solution<
    E: Environment<Act = Action, Obs = TilersObs>,
    R: Convert<D>,
    D: Convert<R>,
    M,
    G: Fn(&E) -> R,
    S: Fn(&E) -> Survey<R>,
    P: Fn(&E, &E) -> (usize, usize),
    H: Fn(&E, &E) -> Hindsight<R>,
    V: Fn(&E) -> (R, Vec<M>),
    W: Fn(&E, &Vec<M>, usize) -> (E, R),
    Z: Fn(&E, &Vec<M>) -> Vec<StepRecord>,
>(
    g: &Gatherer<R, D>,
    c_puct: R,
    look: &Look<G, S, P, H>,
    solver: &Solver<V, W, Z>,
    oracle: Oracle<Action, R>,
    luck: Luck<R, D>,
    game: NodeId,
    depth: R,
    plan: Vec<M>,
    start: E,
    obs: Seq<TilersObs>,
) -> bool {
    &&& is_solved::<E, R, M, V>(&solver.solve, game, depth, plan)
    &&& start.spec_hash() == game
    &&& asks_in_game::<E, R, D, G>(
        g,
        c_puct,
        &look.depth,
        oracle,
        luck,
        start,
        Reference { depth, actions: plan@.len() as usize, scaffold: None },
        obs,
    )
}

/// Whether the episode from the start of an instance asks for a batch.
pub open spec fn asks_in_episode<
    E: Environment<Act = Action, Obs = TilersObs>,
    R: Convert<D>,
    D: Convert<R>,
    M,
    G: Fn(&E) -> R,
    S: Fn(&E) -> Survey<R>,
    P: Fn(&E, &E) -> (usize, usize),
    H: Fn(&E, &E) -> Hindsight<R>,
    V: Fn(&E) -> (R, Vec<M>),
    W: Fn(&E, &Vec<M>, usize) -> (E, R),
    Z: Fn(&E, &Vec<M>) -> Vec<StepRecord>,
>(
    g: &Gatherer<R, D>,
    c_puct: R,
    look: &Look<G, S, P, H>,
    solver: &Solver<V, W, Z>,
    oracle: Oracle<Action, R>,
    luck: Luck<R, D>,
    game: NodeId,
    obs: Seq<TilersObs>,
) -> bool {
    exists|depth: R, plan: Vec<M>, start: E| #[trigger]
        asks_with_solution::<E, R, D, M, G, S, P, H, V, W, Z>(
            g,
            c_puct,
            look,
            solver,
            oracle,
            luck,
            game,
            depth,
            plan,
            start,
            obs,
        )
}

/// The batches that the episode from the start of an instance asks for.
pub open spec fn asked_in_episode<
    E: Environment<Act = Action, Obs = TilersObs>,
    R: Convert<D>,
    D: Convert<R>,
    M,
    G: Fn(&E) -> R,
    S: Fn(&E) -> Survey<R>,
    P: Fn(&E, &E) -> (usize, usize),
    H: Fn(&E, &E) -> Hindsight<R>,
    V: Fn(&E) -> (R, Vec<M>),
    W: Fn(&E, &Vec<M>, usize) -> (E, R),
    Z: Fn(&E, &Vec<M>) -> Vec<StepRecord>,
>(
    g: &Gatherer<R, D>,
    c_puct: R,
    look: &Look<G, S, P, H>,
    solver: &Solver<V, W, Z>,
    oracle: Oracle<Action, R>,
    luck: Luck<R, D>,
    game: NodeId,
) -> spec_fn(Seq<TilersObs>) -> bool {
    |obs: Seq<TilersObs>|
        asks_in_episode::<E, R, D, M, G, S, P, H, V, W, Z>(
            g,
            c_puct,
            look,
            solver,
            oracle,
            luck,
            game,
            obs,
        )
}

/// Whether gathering on an instance by its route asks for a batch: a demonstration asks for
/// nothing.
pub open spec fn asks_by<
    E: Environment<Act = Action, Obs = TilersObs>,
    R: Convert<D>,
    D: Convert<R>,
    M,
    G: Fn(&E) -> R,
    S: Fn(&E) -> Survey<R>,
    P: Fn(&E, &E) -> (usize, usize),
    H: Fn(&E, &E) -> Hindsight<R>,
    V: Fn(&E) -> (R, Vec<M>),
    W: Fn(&E, &Vec<M>, usize) -> (E, R),
    Z: Fn(&E, &Vec<M>) -> Vec<StepRecord>,
>(
    g: &Gatherer<R, D>,
    c_puct: R,
    look: &Look<G, S, P, H>,
    solver: &Solver<V, W, Z>,
    oracle: Oracle<Action, R>,
    luck: Luck<R, D>,
    game: NodeId,
    climbed: Option<(R, Vec<M>)>,
    draw: R,
    obs: Seq<TilersObs>,
) -> bool {
    let len = match climbed {
        Some(solution) => Some(solution.1@.len() as usize),
        None => None,
    };
    &&& g.spec_tries_climb(draw) == (climbed is Some)
    &&& g.spec_may_climb() ==> (luck.unit)(draw)
    &&& climbed matches Some(s) ==> is_solved::<E, R, M, V>(&solver.solve, game, s.0, s.1)
    &&& match g.spec_route(len) {
        Route::Demo => false,
        Route::Climb { seed, floor } => match climbed {
            Some(solution) => asks_in_climb::<E, R, D, M, G, S, P, H, W>(
                g,
                c_puct,
                look,
                oracle,
                luck,
                &solver.scaffold,
                game,
                solution.0,
                &solution.1,
                seed,
                floor,
                obs,
            ),
            None => false,
        },
        Route::Episode => asks_in_episode::<E, R, D, M, G, S, P, H, V, W, Z>(
            g,
            c_puct,
            look,
            solver,
            oracle,
            luck,
            game,
            obs,
        ),
    }
}

/// The batches that gathering on an instance asks for.
pub open spec fn asked_on_instance<
    E: Environment<Act = Action, Obs = TilersObs>,
    R: Convert<D>,
    D: Convert<R>,
    M,
    G: Fn(&E) -> R,
    S: Fn(&E) -> Survey<R>,
    P: Fn(&E, &E) -> (usize, usize),
    H: Fn(&E, &E) -> Hindsight<R>,
    V: Fn(&E) -> (R, Vec<M>),
    W: Fn(&E, &Vec<M>, usize) -> (E, R),
    Z: Fn(&E, &Vec<M>) -> Vec<StepRecord>,
>(
    g: &Gatherer<R, D>,
    c_puct: R,
    look: &Look<G, S, P, H>,
    solver: &Solver<V, W, Z>,
    oracle: Oracle<Action, R>,
    luck: Luck<R, D>,
    game: NodeId,
) -> spec_fn(Seq<TilersObs>) -> bool {
    |obs: Seq<TilersObs>|
        exists|climbed: Option<(R, Vec<M>)>, draw: R| #[trigger]
            asks_by::<E, R, D, M, G, S, P, H, V, W, Z>(
                g,
                c_puct,
                look,
                solver,
                oracle,
                luck,
                game,
                climbed,
                draw,
                obs,
            )
}

/// Law: gathering on an instance asks for batches of open states only, each with at least one
/// state and at most as many as the batch size, or one. Where it can only demonstrate, it asks for
/// nothing.
pub proof fn law_gathering_asks_open_batches<
    E: Environment<Act = Action, Obs = TilersObs>,
    R: Convert<D>,
    D: Convert<R>,
    M,
    G: Fn(&E) -> R,
    S: Fn(&E) -> Survey<R>,
    P: Fn(&E, &E) -> (usize, usize),
    H: Fn(&E, &E) -> Hindsight<R>,
    V: Fn(&E) -> (R, Vec<M>),
    W: Fn(&E, &Vec<M>, usize) -> (E, R),
    Z: Fn(&E, &Vec<M>) -> Vec<StepRecord>,
>(
    g: &Gatherer<R, D>,
    c_puct: R,
    look: &Look<G, S, P, H>,
    solver: &Solver<V, W, Z>,
    oracle: Oracle<Action, R>,
    luck: Luck<R, D>,
    game: NodeId,
    obs: Seq<TilersObs>,
)
    requires
        asked_on_instance::<E, R, D, M, G, S, P, H, V, W, Z>(
            g,
            c_puct,
            look,
            solver,
            oracle,
            luck,
            game,
        )(obs),
    ensures
        is_batch::<E>(obs, largest_batch(g.batch_size)),
        !g.spec_imitation_only() || g.spec_may_climb(),
{
    let (climbed, draw) = choose|climbed: Option<(R, Vec<M>)>, draw: R| #[trigger]
        asks_by::<E, R, D, M, G, S, P, H, V, W, Z>(
            g,
            c_puct,
            look,
            solver,
            oracle,
            luck,
            game,
            climbed,
            draw,
            obs,
        );
    let plays = asks_in_episode::<E, R, D, M, G, S, P, H, V, W, Z>(
        g,
        c_puct,
        look,
        solver,
        oracle,
        luck,
        game,
        obs,
    );
    let (start, reference): (E, Reference<R>) = if plays {
        let (depth, plan, start) = choose|depth: R, plan: Vec<M>, start: E| #[trigger]
            asks_with_solution::<E, R, D, M, G, S, P, H, V, W, Z>(
                g,
                c_puct,
                look,
                solver,
                oracle,
                luck,
                game,
                depth,
                plan,
                start,
                obs,
            );
        (start, Reference { depth, actions: plan@.len() as usize, scaffold: None })
    } else {
        let (d_full, plan) = climbed->0;
        let (seed, floor) = match g.spec_route(Some(plan@.len() as usize)) {
            Route::Climb { seed, floor } => (seed, floor),
            _ => (0, 0),
        };
        let (probes, outcomes, p) = choose|
            probes: Seq<(usize, bool)>,
            outcomes: Seq<EpisodeOutcome<R>>,
            p: usize,
        | #[trigger]
            asks_at_probe::<E, R, D, M, G, S, P, H, W>(
                g,
                c_puct,
                look,
                oracle,
                luck,
                &solver.scaffold,
                game,
                d_full,
                &plan,
                first_bracket(plan@.len(), seed, floor),
                probes,
                outcomes,
                p,
                obs,
            );
        let (e, start, depth) = choose|e: &E, start: E, depth: R| #[trigger]
            asks_behind::<E, R, D, M, G, S, P, H, W>(
                g,
                c_puct,
                look,
                oracle,
                luck,
                &solver.scaffold,
                game,
                d_full,
                &plan,
                p,
                e,
                start,
                depth,
                obs,
            );
        let actions = (plan@.len() - p) as usize;
        (start, Reference { depth: d_full, actions, scaffold: Some(depth) })
    };
    law_episode_asks_open_batches::<E, R, D, G>(
        g,
        c_puct,
        &look.depth,
        oracle,
        luck,
        start,
        reference,
        obs,
    );
}

/// Plays one episode from the start of an instance.
fn gather_episode<
    E: Environment<Act = Action, Obs = TilersObs>,
    R: Convert<D>,
    D: Convert<R>,
    M,
    C: InferenceClient<E, R> + ?Sized,
    G: Fn(&E) -> R,
    S: Fn(&E) -> Survey<R>,
    P: Fn(&E, &E) -> (usize, usize),
    H: Fn(&E, &E) -> Hindsight<R>,
    V: Fn(&E) -> (R, Vec<M>),
    W: Fn(&E, &Vec<M>, usize) -> (E, R),
    Z: Fn(&E, &Vec<M>) -> Vec<StepRecord>,
    K: Chance<R, D>,
>(
    g: &Gatherer<R, D>,
    game: &E,
    client: &C,
    c_puct: &R,
    look: &Look<G, S, P, H>,
    solver: &Solver<V, W, Z>,
    chance: &mut K,
) -> (r: Result<Gathered<R>, EpisodeError>)
    requires
        g.cusp_frontier + g.cusp_margin <= usize::MAX,
        can_look::<E, R, G, S, P, H>(look),
        can_solve::<E, R, D, M, V, W, Z>(g, solver),
        can_ask::<E, R, C>(
            client,
            asked_in_episode::<E, R, D, M, G, S, P, H, V, W, Z>(
                g,
                *c_puct,
                look,
                solver,
                oracle_of::<E, R, C>(client),
                luck_of::<R, D, K>(),
                game.spec_hash(),
            ),
        ),
    ensures
        r matches Err(EpisodeError::Inference(e)) ==> {
            let asked = asked_in_episode::<E, R, D, M, G, S, P, H, V, W, Z>(
                g,
                *c_puct,
                look,
                solver,
                oracle_of::<E, R, C>(client),
                luck_of::<R, D, K>(),
                game.spec_hash(),
            );
            is_failure::<E, R, C>(client, asked, alone::<E>(asked), e)
        },
        r is Err && r->Err_0 is NoMove ==> is_stuck_episode::<E, R, D, M, G, S, P, H, V, W, Z>(
            g,
            *c_puct,
            look,
            solver,
            oracle_of::<E, R, C>(client),
            luck_of::<R, D, K>(),
            game.spec_hash(),
        ),
        r matches Ok(gathered) ==> {
            &&& gathered matches Gathered::Played(o, keep, demo)
            &&& is_episode::<E, R, D, M, G, S, P, H, V, W, Z>(
                g,
                *c_puct,
                look,
                solver,
                oracle_of::<E, R, C>(client),
                luck_of::<R, D, K>(),
                game.spec_hash(),
                o,
                keep,
                demo,
            )
        },
{
    let ghost here = game.spec_hash();
    let ghost oracle = oracle_of::<E, R, C>(client);
    let ghost luck = luck_of::<R, D, K>();
    let (depth, plan): (R, Vec<M>) = (solver.solve)(game);
    assert(call_ensures(solver.solve, (game,), (depth, plan)));
    assert(is_solved::<E, R, M, V>(&solver.solve, here, depth, plan));
    let reference: Reference<R> = Reference { depth, actions: plan.len(), scaffold: None };
    assert(g.can_play(reference.actions));
    let start: E = game.clone();
    proof {
        E::clone_law(*game, start);
    }
    let ghost first = start;
    let ghost told = reference;
    let ghost asked = asked_in_episode::<E, R, D, M, G, S, P, H, V, W, Z>(
        g,
        *c_puct,
        look,
        solver,
        oracle,
        luck,
        here,
    );
    let ghost inner = asked_in_game::<E, R, D, G>(
        g,
        *c_puct,
        &look.depth,
        oracle,
        luck,
        first,
        told,
    );
    proof {
        assert(told == (Reference { depth, actions: plan@.len() as usize, scaffold: None }));
        assert forall|obs: Seq<TilersObs>| #[trigger] inner(obs) implies asked(obs) by {
            assert(asks_with_solution::<E, R, D, M, G, S, P, H, V, W, Z>(
                g,
                *c_puct,
                look,
                solver,
                oracle,
                luck,
                here,
                depth,
                plan,
                first,
                obs,
            ));
        }
    }
    let o: EpisodeOutcome<R> = match g.run_episode_from(
        start,
        reference,
        client,
        c_puct.dup(),
        look,
        chance,
    ) {
        Ok(o) => o,
        Err(e) => {
            proof {
                if e is Inference {
                    lemma_failure_widens::<E, R, C>(
                        client,
                        inner,
                        alone::<E>(inner),
                        asked,
                        alone::<E>(asked),
                        e->Inference_0,
                    );
                }
                if e is NoMove {
                    assert(is_stuck::<E, R, D, G>(
                        g,
                        *c_puct,
                        &look.depth,
                        oracle,
                        luck,
                        first,
                        told,
                    ));
                }
            }
            return Err(e);
        },
    };
    let keep: R = if g.needs_keep_draw(o.reward_kind, &o.score) {
        draw_unit::<R, D, K>(chance)
    } else {
        R::decimal(0, 0)
    };
    let objectives: usize = o.instance.num_objectives;
    let draw: R = if g.may_demo(o.done, objectives) {
        draw_unit::<R, D, K>(chance)
    } else {
        R::decimal(0, 0)
    };
    let demo: Option<Demonstration> = if g.wants_demo(o.done, objectives, &draw) {
        Some(demonstrate(g, game, solver))
    } else {
        None
    };
    assert(g.spec_wants_demo(o.done, o.instance.num_objectives, draw) == (demo is Some));
    assert(is_episode::<E, R, D, M, G, S, P, H, V, W, Z>(
        g,
        *c_puct,
        look,
        solver,
        oracle,
        luck,
        here,
        o,
        keep,
        demo,
    ));
    Ok(Gathered::Played(o, keep, demo))
}

impl<R: Convert<D>, D: Convert<R>> Gatherer<R, D> {
    /// Gathers on an instance in the way that its settings, and chance, ask for.
    ///
    /// A failed episode on an instance that is hard enough may be followed by a demonstration of it.
    pub fn gather<
        E: Environment<Act = Action, Obs = TilersObs>,
        M,
        C: InferenceClient<E, R> + ?Sized,
        G: Fn(&E) -> R,
        S: Fn(&E) -> Survey<R>,
        P: Fn(&E, &E) -> (usize, usize),
        H: Fn(&E, &E) -> Hindsight<R>,
        V: Fn(&E) -> (R, Vec<M>),
        W: Fn(&E, &Vec<M>, usize) -> (E, R),
        Z: Fn(&E, &Vec<M>) -> Vec<StepRecord>,
        K: Chance<R, D>,
    >(
        &self,
        game: &E,
        client: &C,
        c_puct: &R,
        look: &Look<G, S, P, H>,
        solver: &Solver<V, W, Z>,
        chance: &mut K,
    ) -> (r: Result<Gathered<R>, EpisodeError>)
        requires
            self.cusp_frontier + self.cusp_margin <= usize::MAX,
            2 * self.full_weight_rc_tail <= usize::MAX,
            can_look::<E, R, G, S, P, H>(look),
            can_solve::<E, R, D, M, V, W, Z>(self, solver),
            can_ask::<E, R, C>(
                client,
                asked_on_instance::<E, R, D, M, G, S, P, H, V, W, Z>(
                    self,
                    *c_puct,
                    look,
                    solver,
                    oracle_of::<E, R, C>(client),
                    luck_of::<R, D, K>(),
                    game.spec_hash(),
                ),
            ),
        ensures
            self.spec_imitation_only() && !self.spec_may_climb() ==> r is Ok,
            r matches Err(EpisodeError::Inference(e)) ==> {
                let asked = asked_on_instance::<E, R, D, M, G, S, P, H, V, W, Z>(
                    self,
                    *c_puct,
                    look,
                    solver,
                    oracle_of::<E, R, C>(client),
                    luck_of::<R, D, K>(),
                    game.spec_hash(),
                );
                is_failure::<E, R, C>(client, asked, alone::<E>(asked), e)
            },
            r is Err && r->Err_0 is NoMove ==> is_stuck_instance::<
                E,
                R,
                D,
                M,
                G,
                S,
                P,
                H,
                V,
                W,
                Z,
            >(
                self,
                *c_puct,
                look,
                solver,
                oracle_of::<E, R, C>(client),
                luck_of::<R, D, K>(),
                game.spec_hash(),
            ),
            r matches Ok(gathered) ==> is_gathered::<E, R, D, M, G, S, P, H, V, W, Z>(
                self,
                *c_puct,
                look,
                solver,
                oracle_of::<E, R, C>(client),
                luck_of::<R, D, K>(),
                game.spec_hash(),
                gathered,
            ),
    {
        let ghost here = game.spec_hash();
        let ghost oracle = oracle_of::<E, R, C>(client);
        let ghost luck = luck_of::<R, D, K>();
        let draw: R = if self.may_climb() {
            draw_unit::<R, D, K>(chance)
        } else {
            R::decimal(0, 0)
        };
        let tries: bool = self.tries_climb(&draw);
        let ghost asked = asked_on_instance::<E, R, D, M, G, S, P, H, V, W, Z>(
            self,
            *c_puct,
            look,
            solver,
            oracle,
            luck,
            here,
        );
        let ghost by_episode = asked_in_episode::<E, R, D, M, G, S, P, H, V, W, Z>(
            self,
            *c_puct,
            look,
            solver,
            oracle,
            luck,
            here,
        );
        if tries {
            let (d_full, plan): (R, Vec<M>) = (solver.solve)(game);
            assert(call_ensures(solver.solve, (game,), (d_full, plan)));
            assert(is_solved::<E, R, M, V>(&solver.solve, here, d_full, plan));
            let ghost climbed = Some((d_full, plan));
            match self.route(Some(plan.len())) {
                Route::Climb { seed, floor } => {
                    assert forall|n: usize| n <= plan@.len() implies #[trigger] self.can_play(n) by {}
                    let ghost by_climb = asked_in_climb::<E, R, D, M, G, S, P, H, W>(
                        self,
                        *c_puct,
                        look,
                        oracle,
                        luck,
                        &solver.scaffold,
                        here,
                        d_full,
                        &plan,
                        seed,
                        floor,
                    );
                    proof {
                        assert forall|obs: Seq<TilersObs>| #[trigger] by_climb(obs) implies asked(
                            obs,
                        ) by {
                            assert(asks_by::<E, R, D, M, G, S, P, H, V, W, Z>(
                                self,
                                *c_puct,
                                look,
                                solver,
                                oracle,
                                luck,
                                here,
                                climbed,
                                draw,
                                obs,
                            ));
                        }
                    }
                    let climb: Climb<R> = match self.gather_reverse_curriculum(
                        game,
                        &d_full,
                        &plan,
                        seed,
                        floor,
                        client,
                        c_puct,
                        look,
                        &solver.scaffold,
                        chance,
                    ) {
                        Ok(c) => c,
                        Err(e) => {
                            proof {
                                if e is Inference {
                                    lemma_failure_widens::<E, R, C>(
                                        client,
                                        by_climb,
                                        alone::<E>(by_climb),
                                        asked,
                                        alone::<E>(asked),
                                        e->Inference_0,
                                    );
                                }
                                if e is NoMove {
                                    assert(self.spec_tries_climb(draw));
                                    assert(is_stuck_by::<E, R, D, M, G, S, P, H, V, W, Z>(
                                        self,
                                        *c_puct,
                                        look,
                                        solver,
                                        oracle,
                                        luck,
                                        here,
                                        climbed,
                                    ));
                                }
                            }
                            return Err(e);
                        },
                    };
                    let gathered: Gathered<R> = Gathered::Climbed(climb);
                    assert(self.spec_tries_climb(draw));
                    assert(is_gathered_by::<E, R, D, M, G, S, P, H, V, W, Z>(
                        self,
                        *c_puct,
                        look,
                        solver,
                        oracle,
                        luck,
                        here,
                        climbed,
                        gathered,
                    ));
                    return Ok(gathered);
                },
                Route::Demo => {
                    let gathered: Gathered<R> = Gathered::Demo(demonstrate(self, game, solver));
                    assert(self.spec_tries_climb(draw));
                    assert(is_gathered_by::<E, R, D, M, G, S, P, H, V, W, Z>(
                        self,
                        *c_puct,
                        look,
                        solver,
                        oracle,
                        luck,
                        here,
                        climbed,
                        gathered,
                    ));
                    return Ok(gathered);
                },
                Route::Episode => {
                    proof {
                        assert forall|obs: Seq<TilersObs>| #[trigger] by_episode(obs) implies asked(
                            obs,
                        ) by {
                            assert(asks_by::<E, R, D, M, G, S, P, H, V, W, Z>(
                                self,
                                *c_puct,
                                look,
                                solver,
                                oracle,
                                luck,
                                here,
                                climbed,
                                draw,
                                obs,
                            ));
                        }
                    }
                    let gathered: Gathered<R> = match gather_episode(
                        self,
                        game,
                        client,
                        c_puct,
                        look,
                        solver,
                        chance,
                    ) {
                        Ok(x) => x,
                        Err(e) => {
                            proof {
                                if e is Inference {
                                    lemma_failure_widens::<E, R, C>(
                                        client,
                                        by_episode,
                                        alone::<E>(by_episode),
                                        asked,
                                        alone::<E>(asked),
                                        e->Inference_0,
                                    );
                                }
                                if e is NoMove {
                                    assert(self.spec_tries_climb(draw));
                                    assert(is_stuck_by::<E, R, D, M, G, S, P, H, V, W, Z>(
                                        self,
                                        *c_puct,
                                        look,
                                        solver,
                                        oracle,
                                        luck,
                                        here,
                                        climbed,
                                    ));
                                }
                            }
                            return Err(e);
                        },
                    };
                    assert(self.spec_tries_climb(draw));
                    assert(is_gathered_by::<E, R, D, M, G, S, P, H, V, W, Z>(
                        self,
                        *c_puct,
                        look,
                        solver,
                        oracle,
                        luck,
                        here,
                        climbed,
                        gathered,
                    ));
                    return Ok(gathered);
                },
            }
        }
        let ghost climbed: Option<(R, Vec<M>)> = None;
        proof {
            if self.spec_route(None) is Episode {
                assert forall|obs: Seq<TilersObs>| #[trigger] by_episode(obs) implies asked(
                    obs,
                ) by {
                    assert(asks_by::<E, R, D, M, G, S, P, H, V, W, Z>(
                        self,
                        *c_puct,
                        look,
                        solver,
                        oracle,
                        luck,
                        here,
                        climbed,
                        draw,
                        obs,
                    ));
                }
            }
        }
        let gathered: Gathered<R> = match self.route(None) {
            Route::Demo => Gathered::Demo(demonstrate(self, game, solver)),
            _ => match gather_episode(self, game, client, c_puct, look, solver, chance) {
                Ok(x) => x,
                Err(e) => {
                    proof {
                        if e is Inference {
                            lemma_failure_widens::<E, R, C>(
                                client,
                                by_episode,
                                alone::<E>(by_episode),
                                asked,
                                alone::<E>(asked),
                                e->Inference_0,
                            );
                        }
                        if e is NoMove {
                            assert(!self.spec_tries_climb(draw));
                            assert(is_stuck_by::<E, R, D, M, G, S, P, H, V, W, Z>(
                                self,
                                *c_puct,
                                look,
                                solver,
                                oracle,
                                luck,
                                here,
                                climbed,
                            ));
                        }
                    }
                    return Err(e);
                },
            },
        };
        assert(!self.spec_tries_climb(draw));
        assert(is_gathered_by::<E, R, D, M, G, S, P, H, V, W, Z>(
            self,
            *c_puct,
            look,
            solver,
            oracle,
            luck,
            here,
            climbed,
            gathered,
        ));
        Ok(gathered)
    }
}

/// The bracket after a probe, of which those from `cusp` on are enough.
spec fn step(b: Bracket, cusp: int) -> Bracket {
    match b.probe {
        Some(p) => b.after(p >= cusp),
        None => b,
    }
}

/// One more probe.
proof fn lemma_probed_more(b: Bracket, cusp: int, n: nat)
    ensures
        b.probed(cusp, n + 1) == step(b.probed(cusp, n), cusp),
    decreases n,
{
    match b.probe {
        Some(p) => {
            let next = b.after(p >= cusp);
            assert(b.probed(cusp, n + 1) == next.probed(cusp, n));
            if n > 0 {
                lemma_probed_more(next, cusp, (n - 1) as nat);
                assert(b.probed(cusp, n) == next.probed(cusp, (n - 1) as nat));
            }
        },
        None => {},
    }
}

/// A search without a next probe stays where it is.
proof fn lemma_probed_stays(b: Bracket, cusp: int, n: nat, m: nat)
    requires
        n <= m,
        b.probed(cusp, n).probe is None,
    ensures
        b.probed(cusp, m) == b.probed(cusp, n),
    decreases m,
{
    if n < m {
        lemma_probed_stays(b, cusp, n, (m - 1) as nat);
        lemma_probed_more(b, cusp, (m - 1) as nat);
    }
}

/// Whether the probes of a search are those that it asks for, and are enough from `cusp` on.
pub open spec fn follows_cusp(b: Bracket, probes: Seq<(usize, bool)>, cusp: int) -> bool {
    forall|i: int|
        0 <= i < probes.len() ==> {
            &&& bracket_after(b, probes.take(i)).probe == Some((#[trigger] probes[i]).0 as int)
            &&& probes[i].1 == (probes[i].0 >= cusp)
        }
}

/// The probes of a search lead where it is led by the cusp.
proof fn lemma_follows(b: Bracket, probes: Seq<(usize, bool)>, cusp: int)
    requires
        follows_cusp(b, probes, cusp),
    ensures
        bracket_after(b, probes) == b.probed(cusp, probes.len()),
    decreases probes.len(),
{
    if probes.len() > 0 {
        let first = probes.drop_last();
        let last = probes.len() - 1;
        assert(probes.take(last) =~= first);
        assert(probes[last].1 == (probes[last].0 >= cusp));
        assert forall|i: int| 0 <= i < first.len() implies {
            &&& bracket_after(b, first.take(i)).probe == Some((#[trigger] first[i]).0 as int)
            &&& first[i].1 == (first[i].0 >= cusp)
        } by {
            assert(first.take(i) =~= probes.take(i));
            assert(probes[i] == first[i]);
        }
        lemma_follows(b, first, cusp);
        lemma_probed_more(b, cusp, first.len());
    }
}

/// A climb pins the cusp: where the goal is reached exactly behind the scaffolds from `cusp` on,
/// and there are as many probes as it takes to halve the plan down to one action, and one more,
/// the climb ends with `cusp` as the shortest scaffold that was enough, and with the one before
/// it as the longest that was not.
pub proof fn law_climb_pins_cusp(
    len: nat,
    seed: usize,
    floor: usize,
    probes: Seq<(usize, bool)>,
    cusp: int,
    most: nat,
    k: nat,
)
    requires
        floor < cusp <= len,
        floor <= seed,
        len - floor <= pow2(k),
        most > k,
        follows_cusp(first_bracket(len, seed, floor), probes, cusp),
        probes.len() <= most,
        probes.len() == most || bracket_after(
            first_bracket(len, seed, floor),
            probes,
        ).probe is None,
    ensures
        bracket_after(first_bracket(len, seed, floor), probes).hi == cusp,
        bracket_after(first_bracket(len, seed, floor), probes).lo == cusp - 1,
{
    let b = first_bracket(len, seed, floor);
    let n = probes.len();
    law_search_pins_cusp(b.lo, b.hi, b.probe->0, cusp, k);
    lemma_follows(b, probes, cusp);
    lemma_probed_more(b, cusp, k);
    let end = b.probed(cusp, k + 1);
    assert(end.probe is None);
    if n <= k + 1 {
        if n < k + 1 {
            lemma_probed_stays(b, cusp, n, k + 1);
        }
    } else {
        lemma_probed_stays(b, cusp, k + 1, n);
    }
}

} // verus!
