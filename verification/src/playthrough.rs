//! Playing an episode from its start to its end, with all that is left to chance drawn on the way.

use crate::environment::Environment;
use crate::episode::{Episode, SearchPlan, StepRecord, Turn};
use crate::evaluator::state_after;
use crate::gatherer::Gatherer;
use crate::grading::Reference;
use crate::inference::{
    alone, can_ask, is_batch, is_failure, largest_batch, oracle_of, InferenceClient,
    InferenceError, Oracle,
};
use crate::moves::{dirichlet_alpha, spec_dirichlet_alpha};
use crate::node::Node;
use crate::run::{batches, playouts};
use crate::scalar::{zero, Convert, Scalar};
use crate::tilers_obs::{Action, TilersObs};
use crate::trace::{asks, law_search_asks_open_batches, lemma_search_fails};
use vstd::prelude::*;

verus! {

/// What is left to chance in an episode. Nothing is known of what is drawn.
pub trait Chance<R: Scalar, D: Scalar> {
    /// A number from 0 to 1.
    fn unit(&mut self) -> R;

    /// A Gamma sample of a shape, with scale 1.
    fn gamma(&mut self, shape: &D) -> D;

    /// A number from `lo` to `hi`.
    fn between(&mut self, lo: usize, hi: usize) -> usize;

    /// An index, drawn by weights. `None` where the weights cannot be drawn by.
    fn weighted(&mut self, weights: &Vec<D>) -> Option<usize>;
}

/// What can be drawn: whether a number from 0 to 1, a sample of a shape, a number between two
/// others, and an index by weights, may come out.
#[verifier::reject_recursive_types(R)]
#[verifier::reject_recursive_types(D)]
pub ghost struct Luck<R, D> {
    pub unit: spec_fn(R) -> bool,
    pub gamma: spec_fn(D, D) -> bool,
    pub between: spec_fn(usize, usize, usize) -> bool,
    pub weighted: spec_fn(Seq<D>, Option<usize>) -> bool,
}

/// What a source of chance can draw.
pub open spec fn luck_of<R: Scalar, D: Scalar, H: Chance<R, D>>() -> Luck<R, D> {
    Luck {
        unit: |x: R| exists|c: &mut H| #[trigger] call_ensures(H::unit, (c,), x),
        gamma: |shape: D, x: D|
            exists|c: &mut H| #[trigger] call_ensures(H::gamma, (c, &shape), x),
        between: |lo: usize, hi: usize, n: usize|
            exists|c: &mut H| #[trigger] call_ensures(H::between, (c, lo, hi), n),
        weighted: |weights: Seq<D>, i: Option<usize>|
            exists|c: &mut H, w: &Vec<D>| #[trigger]
                call_ensures(H::weighted, (c, w), i) && w@ == weights,
    }
}

/// Whether samples of a shape were drawn.
pub open spec fn are_samples<R, D>(luck: Luck<R, D>, shape: D, samples: Seq<D>) -> bool {
    forall|i: int| 0 <= i < samples.len() ==> (luck.gamma)(shape, #[trigger] samples[i])
}

/// A number from 0 to 1.
pub fn draw_unit<R: Scalar, D: Scalar, H: Chance<R, D>>(chance: &mut H) -> (r: R)
    ensures
        (luck_of::<R, D, H>().unit)(r),
{
    let x: R = chance.unit();
    assert(exists|c: &mut H| #[trigger] call_ensures(H::unit, (c,), x));
    x
}

/// A number from `lo` to `hi`.
pub fn draw_between<R: Scalar, D: Scalar, H: Chance<R, D>>(
    chance: &mut H,
    lo: usize,
    hi: usize,
) -> (r: usize)
    ensures
        (luck_of::<R, D, H>().between)(lo, hi, r),
{
    let n: usize = chance.between(lo, hi);
    assert(exists|c: &mut H| #[trigger] call_ensures(H::between, (c, lo, hi), n));
    n
}

/// Some samples of a shape.
pub fn draw_gammas<R: Scalar, D: Scalar, H: Chance<R, D>>(
    chance: &mut H,
    shape: &D,
    n: usize,
) -> (r: Vec<D>)
    ensures
        r@.len() == n,
        are_samples(luck_of::<R, D, H>(), *shape, r@),
{
    let mut out: Vec<D> = Vec::with_capacity(n);
    let mut i: usize = 0;
    while i < n
        invariant
            i <= n,
            out@.len() == i,
            are_samples(luck_of::<R, D, H>(), *shape, out@),
        decreases n - i,
    {
        let x: D = chance.gamma(shape);
        assert(exists|c: &mut H| #[trigger] call_ensures(H::gamma, (c, shape), x));
        out.push(x);
        i += 1;
    }
    out
}

/// One of some actions, drawn by weights. `None` where none is drawn.
pub fn draw_action<R: Scalar, D: Scalar, H: Chance<R, D>>(
    chance: &mut H,
    weights: &Vec<D>,
    ids: &Vec<Action>,
) -> (r: Option<Action>)
    ensures
        is_drawn(luck_of::<R, D, H>(), weights@, ids@, r),
{
    let i: Option<usize> = chance.weighted(weights);
    assert(exists|c: &mut H| #[trigger] call_ensures(H::weighted, (c, weights), i));
    assert((luck_of::<R, D, H>().weighted)(weights@, i));
    match i {
        Some(i) if i < ids.len() => Some(ids[i]),
        _ => None,
    }
}

/// Whether an action was drawn by weights.
pub open spec fn is_drawn<R, D>(
    luck: Luck<R, D>,
    weights: Seq<D>,
    ids: Seq<Action>,
    action: Option<Action>,
) -> bool {
    exists|i: Option<usize>| #[trigger]
        (luck.weighted)(weights, i) && action == (match i {
            Some(i) if i < ids.len() => Some(ids[i as int]),
            _ => None,
        })
}

/// Why an episode could not be played.
#[derive(Clone, Debug, PartialEq, Eq)]
pub enum EpisodeError {
    /// Inference failed.
    Inference(InferenceError),
    /// No action could be drawn.
    NoMove,
}

/// Gamma samples for noise over `n` actions.
pub fn draw_samples<R: Scalar, D: Scalar, H: Chance<R, D>>(chance: &mut H, n: usize) -> (r: Vec<D>)
    ensures
        r@.len() == n,
        are_samples(luck_of::<R, D, H>(), spec_dirichlet_alpha(n), r@),
{
    let shape: D = dirichlet_alpha(n);
    draw_gammas::<R, D, H>(chance, &shape, n)
}

/// The actions of recorded steps.
pub open spec fn taken(steps: Seq<StepRecord>) -> Seq<Action> {
    Seq::new(steps.len(), |i: int| steps[i].action)
}

/// Whether a sequence of actions was played: every action is valid where it is taken, and no
/// state between the first and the last is terminal.
pub open spec fn is_play<E: Environment<Act = Action>>(start: u64, actions: Seq<Action>) -> bool {
    forall|i: int|
        0 <= i < actions.len() ==> {
            let here = #[trigger] state_after::<E>(start, actions.take(i));
            (i > 0 ==> !E::spec_done(here)) && E::spec_actions(here).contains(actions[i])
        }
}

/// One more action makes a play longer.
proof fn lemma_play_push<E: Environment<Act = Action>>(
    start: u64,
    actions: Seq<Action>,
    action: Action,
)
    requires
        is_play::<E>(start, actions),
        actions.len() > 0 ==> !E::spec_done(state_after::<E>(start, actions)),
        E::spec_actions(state_after::<E>(start, actions)).contains(action),
    ensures
        is_play::<E>(start, actions.push(action)),
        state_after::<E>(start, actions.push(action)) == E::spec_next(
            state_after::<E>(start, actions),
            action,
        ),
{
    let longer = actions.push(action);
    assert(longer.drop_last() =~= actions);
    assert forall|i: int| 0 <= i < longer.len() implies {
        let here = #[trigger] state_after::<E>(start, longer.take(i));
        (i > 0 ==> !E::spec_done(here)) && E::spec_actions(here).contains(longer[i])
    } by {
        if i < actions.len() {
            assert(longer.take(i) =~= actions.take(i));
        } else {
            assert(longer.take(i) =~= actions);
        }
    }
}

impl<R: Convert<D>, D: Scalar> Gatherer<R, D> {
    /// Whether the move of a turn was drawn by the weights of the visits of a searched root, mixed
    /// with noise where the step has some.
    pub open spec fn is_selected(
        &self,
        luck: Luck<R, D>,
        edge_visits: Seq<usize>,
        ids: Seq<Action>,
        step: usize,
        action: Option<Action>,
    ) -> bool {
        exists|samples: Seq<D>|
            {
                &&& samples.len() == (if D::spec_less(zero(), self.spec_move_noise(step)) {
                    ids.len()
                } else {
                    0
                })
                &&& are_samples(luck, spec_dirichlet_alpha(ids.len() as usize), samples)
                &&& is_drawn(
                    luck,
                    #[trigger] self.spec_move_weights(edge_visits, ids, step, samples),
                    ids,
                    action,
                )
            }
    }

    /// Draws the move of a turn by the weights that [`Gatherer::move_weights`] gives the visits of
    /// the searched root. `None` where no action is drawn.
    pub fn select_action<H: Chance<R, D>>(
        &self,
        node: &Node<Action, R>,
        ids: &Vec<Action>,
        step: usize,
        chance: &mut H,
    ) -> (r: Option<Action>)
        ensures
            self.is_selected(luck_of::<R, D, H>(), node.edge_visits@, ids@, step, r),
            r matches Some(a) ==> ids@.contains(a),
            ids@.len() == 0 ==> r is None,
    {
        let noise: bool = D::less(&D::decimal(0, 0), &self.move_noise(step));
        let samples: Vec<D> = if noise {
            draw_samples::<R, D, H>(chance, ids.len())
        } else {
            Vec::new()
        };
        let ghost drawn = samples@;
        let weights: Vec<D> = self.move_weights(node, ids, step, samples);
        let r: Option<Action> = draw_action::<R, D, H>(chance, &weights, ids);
        assert(is_drawn(
            luck_of::<R, D, H>(),
            self.spec_move_weights(node.edge_visits@, ids@, step, drawn),
            ids@,
            r,
        ));
        r
    }
}

impl<R: Scalar, D: Convert<R>> Gatherer<R, D> {
    /// The most playouts of a turn.
    pub open spec fn turn_playouts(&self) -> nat {
        let full = playouts(self.mcts_steps, self.batch_size);
        let fast = playouts(self.fast_steps, self.batch_size);
        if full < fast {
            fast
        } else {
            full
        }
    }
}

impl<E: Environment<Act = Action, Obs = TilersObs>, R: Scalar> Episode<E, R> {
    /// What every episode that was played to its end looks like: it went from one state to the
    /// next by valid actions, recorded each of them, and ended by resignation, at the goal, or
    /// with its budget spent.
    pub open spec fn is_complete<D: Convert<R>>(&self, g: &Gatherer<R, D>, start: u64) -> bool {
        let actions = taken(self.all_steps_data@);
        &&& self.wf()
        &&& self.over
        &&& self.step == actions.len()
        &&& is_play::<E>(start, actions)
        &&& self.env.spec_hash() == state_after::<E>(start, actions)
        &&& !self.resigned ==> self.step == self.max_actions || (self.step > 0 && E::spec_done(
            self.env.spec_hash(),
        ))
        &&& self.resigned ==> self.resign_allowed && self.low_value_streak
            >= g.resign_consecutive_moves && self.step >= g.spec_resign_floor(self.reference.depth)
        &&& self.temp_data@.len() <= self.step
        &&& self.q_trace@.len() == (if g.resignation_log_dir is Some {
            self.step + if self.resigned {
                1int
            } else {
                0
            }
        } else {
            0
        })
    }
}

/// Whether a searched turn makes an episode into another: it is over, or an action is drawn by
/// the visits of the searched state and played.
pub open spec fn is_move<
    E: Environment<Act = Action, Obs = TilersObs>,
    R: Convert<D>,
    D: Convert<R>,
>(
    g: &Gatherer<R, D>,
    luck: Luck<R, D>,
    searched: Episode<E, R>,
    after: Episode<E, R>,
) -> bool {
    let here = searched.env.spec_hash();
    if searched.over {
        after == searched
    } else {
        exists|action: Action| #[trigger]
            searched.has_played(&after, action) && g.is_selected(
                luck,
                searched.mcts.tree()[here].edge_visits,
                E::spec_actions(here),
                searched.step,
                Some(action),
            )
    }
}

/// Whether a number and samples of noise are drawn for the search of a turn, the samples if its
/// plan asks for them.
pub open spec fn is_drawn_for<
    E: Environment<Act = Action, Obs = TilersObs>,
    R: Convert<D>,
    D: Convert<R>,
>(
    g: &Gatherer<R, D>,
    luck: Luck<R, D>,
    before: Episode<E, R>,
    draw: R,
    samples: Seq<D>,
) -> bool {
    &&& (luck.unit)(draw)
    &&& g.spec_plan_search(draw).noisy ==> are_samples(
        luck,
        spec_dirichlet_alpha(E::spec_actions(before.env.spec_hash()).len() as usize),
        samples,
    )
}

/// Whether a turn makes an episode into another: it is searched by the plan of some number drawn,
/// with some samples of noise, and then a move is made.
pub open spec fn is_turn<
    E: Environment<Act = Action, Obs = TilersObs>,
    R: Convert<D>,
    D: Convert<R>,
    G: Fn(&E) -> R,
>(
    g: &Gatherer<R, D>,
    c_puct: R,
    depth: &G,
    oracle: Oracle<Action, R>,
    luck: Luck<R, D>,
    before: Episode<E, R>,
    after: Episode<E, R>,
) -> bool {
    exists|searched: Episode<E, R>, draw: R, samples: Seq<D>| #[trigger]
        before.has_searched(
            &searched,
            g,
            c_puct,
            g.spec_plan_search(draw),
            samples,
            depth,
            oracle,
        ) && is_drawn_for::<E, R, D>(g, luck, before, draw, samples) && is_move::<E, R, D>(
            g,
            luck,
            searched,
            after,
        )
}

/// Whether the state at `i` comes from the one before it by a turn.
pub open spec fn is_turn_at<
    E: Environment<Act = Action, Obs = TilersObs>,
    R: Convert<D>,
    D: Convert<R>,
    G: Fn(&E) -> R,
>(
    g: &Gatherer<R, D>,
    c_puct: R,
    depth: &G,
    oracle: Oracle<Action, R>,
    luck: Luck<R, D>,
    states: Seq<Episode<E, R>>,
    i: int,
) -> bool {
    !states[i - 1].over && is_turn::<E, R, D, G>(
        g,
        c_puct,
        depth,
        oracle,
        luck,
        states[i - 1],
        states[i],
    )
}

/// Whether an episode was played: it was started, and went from state to state by turns.
pub open spec fn is_game<
    E: Environment<Act = Action, Obs = TilersObs>,
    R: Convert<D>,
    D: Convert<R>,
    G: Fn(&E) -> R,
>(
    g: &Gatherer<R, D>,
    c_puct: R,
    depth: &G,
    oracle: Oracle<Action, R>,
    luck: Luck<R, D>,
    env: E,
    reference: Reference<R>,
    states: Seq<Episode<E, R>>,
    end: Episode<E, R>,
) -> bool {
    &&& states.len() > 0
    &&& exists|draw: R| #[trigger]
        states[0].is_start(g, env, reference, draw) && (g.spec_resignation_enabled() ==> (
        luck.unit)(draw))
    &&& states.last() == end
    &&& forall|i: int|
        0 < i < states.len() ==> #[trigger] is_turn_at::<E, R, D, G>(
            g,
            c_puct,
            depth,
            oracle,
            luck,
            states,
            i,
        )
}

/// Whether an episode was played up to a searched state for which no action was drawn.
pub open spec fn is_stuck<
    E: Environment<Act = Action, Obs = TilersObs>,
    R: Convert<D>,
    D: Convert<R>,
    G: Fn(&E) -> R,
>(
    g: &Gatherer<R, D>,
    c_puct: R,
    depth: &G,
    oracle: Oracle<Action, R>,
    luck: Luck<R, D>,
    env: E,
    reference: Reference<R>,
) -> bool {
    exists|
        states: Seq<Episode<E, R>>,
        before: Episode<E, R>,
        searched: Episode<E, R>,
        draw: R,
        samples: Seq<D>,
    |
        {
            let here = before.env.spec_hash();
            &&& #[trigger] is_game::<E, R, D, G>(
                g,
                c_puct,
                depth,
                oracle,
                luck,
                env,
                reference,
                states,
                before,
            )
            &&& #[trigger] before.has_searched(
                &searched,
                g,
                c_puct,
                g.spec_plan_search(draw),
                samples,
                depth,
                oracle,
            )
            &&& !before.over
            &&& is_drawn_for::<E, R, D>(g, luck, before, draw, samples)
            &&& g.is_selected(
                luck,
                searched.mcts.tree()[here].edge_visits,
                E::spec_actions(here),
                searched.step,
                None,
            )
        }
}

/// Whether an episode asks for a batch in the search of the turn after some others, by the plan of
/// a number drawn and with some samples of noise.
pub open spec fn asks_at_turn<
    E: Environment<Act = Action, Obs = TilersObs>,
    R: Convert<D>,
    D: Convert<R>,
    G: Fn(&E) -> R,
>(
    g: &Gatherer<R, D>,
    c_puct: R,
    depth: &G,
    oracle: Oracle<Action, R>,
    luck: Luck<R, D>,
    env: E,
    reference: Reference<R>,
    states: Seq<Episode<E, R>>,
    before: Episode<E, R>,
    draw: R,
    samples: Seq<D>,
    obs: Seq<TilersObs>,
) -> bool {
    &&& is_game::<E, R, D, G>(g, c_puct, depth, oracle, luck, env, reference, states, before)
    &&& !before.over
    &&& !E::spec_done(before.env.spec_hash())
    &&& is_drawn_for::<E, R, D>(g, luck, before, draw, samples)
    &&& before.asked_in_search(g, c_puct, g.spec_plan_search(draw), samples, depth, oracle)(obs)
}

/// Whether an episode asks for a batch.
pub open spec fn asks_in_game<
    E: Environment<Act = Action, Obs = TilersObs>,
    R: Convert<D>,
    D: Convert<R>,
    G: Fn(&E) -> R,
>(
    g: &Gatherer<R, D>,
    c_puct: R,
    depth: &G,
    oracle: Oracle<Action, R>,
    luck: Luck<R, D>,
    env: E,
    reference: Reference<R>,
    obs: Seq<TilersObs>,
) -> bool {
    exists|states: Seq<Episode<E, R>>, before: Episode<E, R>, draw: R, samples: Seq<D>| #[trigger]
        asks_at_turn::<E, R, D, G>(
            g,
            c_puct,
            depth,
            oracle,
            luck,
            env,
            reference,
            states,
            before,
            draw,
            samples,
            obs,
        )
}

/// The batches that an episode asks for: those of the search of each turn whose state is not
/// finished.
pub open spec fn asked_in_game<
    E: Environment<Act = Action, Obs = TilersObs>,
    R: Convert<D>,
    D: Convert<R>,
    G: Fn(&E) -> R,
>(
    g: &Gatherer<R, D>,
    c_puct: R,
    depth: &G,
    oracle: Oracle<Action, R>,
    luck: Luck<R, D>,
    env: E,
    reference: Reference<R>,
) -> spec_fn(Seq<TilersObs>) -> bool {
    |obs: Seq<TilersObs>|
        asks_in_game::<E, R, D, G>(g, c_puct, depth, oracle, luck, env, reference, obs)
}

/// The batch size of an episode stays what it is at its start.
proof fn lemma_game_batch<
    E: Environment<Act = Action, Obs = TilersObs>,
    R: Convert<D>,
    D: Convert<R>,
    G: Fn(&E) -> R,
>(
    g: &Gatherer<R, D>,
    c_puct: R,
    depth: &G,
    oracle: Oracle<Action, R>,
    luck: Luck<R, D>,
    env: E,
    reference: Reference<R>,
    states: Seq<Episode<E, R>>,
    i: int,
)
    requires
        is_game::<E, R, D, G>(
            g,
            c_puct,
            depth,
            oracle,
            luck,
            env,
            reference,
            states,
            states.last(),
        ),
        0 <= i < states.len(),
    ensures
        states[i].mcts.batch_size == g.batch_size,
    decreases i,
{
    if i > 0 {
        lemma_game_batch::<E, R, D, G>(
            g,
            c_puct,
            depth,
            oracle,
            luck,
            env,
            reference,
            states,
            i - 1,
        );
        assert(is_turn_at::<E, R, D, G>(g, c_puct, depth, oracle, luck, states, i));
    }
}

/// Law: an episode asks for batches of open states only, each with at least one state and at most
/// as many as the batch size, or one.
pub proof fn law_episode_asks_open_batches<
    E: Environment<Act = Action, Obs = TilersObs>,
    R: Convert<D>,
    D: Convert<R>,
    G: Fn(&E) -> R,
>(
    g: &Gatherer<R, D>,
    c_puct: R,
    depth: &G,
    oracle: Oracle<Action, R>,
    luck: Luck<R, D>,
    env: E,
    reference: Reference<R>,
    obs: Seq<TilersObs>,
)
    requires
        asks_in_game::<E, R, D, G>(g, c_puct, depth, oracle, luck, env, reference, obs),
    ensures
        is_batch::<E>(obs, largest_batch(g.batch_size)),
{
    let (states, before, draw, samples) = choose|
        states: Seq<Episode<E, R>>,
        before: Episode<E, R>,
        draw: R,
        samples: Seq<D>,
    | #[trigger]
        asks_at_turn::<E, R, D, G>(
            g,
            c_puct,
            depth,
            oracle,
            luck,
            env,
            reference,
            states,
            before,
            draw,
            samples,
            obs,
        );
    lemma_game_batch::<E, R, D, G>(
        g,
        c_puct,
        depth,
        oracle,
        luck,
        env,
        reference,
        states,
        states.len() - 1,
    );
    let plan = g.spec_plan_search(draw);
    law_search_asks_open_batches::<E, R>(
        before.spec_rules(g, c_puct, plan, samples, depth, oracle),
        before.mcts.tree(),
        batches(plan.steps, before.mcts.batch_size),
        before.mcts.batch_size,
        obs,
    );
}

/// A game with one more turn.
proof fn lemma_game_push<
    E: Environment<Act = Action, Obs = TilersObs>,
    R: Convert<D>,
    D: Convert<R>,
    G: Fn(&E) -> R,
>(
    g: &Gatherer<R, D>,
    c_puct: R,
    depth: &G,
    oracle: Oracle<Action, R>,
    luck: Luck<R, D>,
    env: E,
    reference: Reference<R>,
    states: Seq<Episode<E, R>>,
    before: Episode<E, R>,
    after: Episode<E, R>,
)
    requires
        is_game::<E, R, D, G>(g, c_puct, depth, oracle, luck, env, reference, states, before),
        !before.over,
        is_turn::<E, R, D, G>(g, c_puct, depth, oracle, luck, before, after),
    ensures
        is_game::<E, R, D, G>(
            g,
            c_puct,
            depth,
            oracle,
            luck,
            env,
            reference,
            states.push(after),
            after,
        ),
{
    let more = states.push(after);
    let draw = choose|draw: R| #[trigger]
        states[0].is_start(g, env, reference, draw) && (g.spec_resignation_enabled() ==> (
        luck.unit)(draw));
    assert(more[0].is_start(g, env, reference, draw));
    assert forall|i: int| 0 < i < more.len() implies #[trigger] is_turn_at::<E, R, D, G>(
        g,
        c_puct,
        depth,
        oracle,
        luck,
        more,
        i,
    ) by {
        if i < states.len() {
            assert(is_turn_at::<E, R, D, G>(g, c_puct, depth, oracle, luck, states, i));
        }
    }
}

/// Plays an episode: turn by turn it plans a search, searches, and, unless it resigns, plays an
/// action drawn by the visits, until the goal is reached or the budget is spent.
#[verifier::rlimit(60)]
pub fn run_episode<
    E: Environment<Act = Action, Obs = TilersObs>,
    R: Convert<D>,
    D: Convert<R>,
    C: InferenceClient<E, R> + ?Sized,
    G: Fn(&E) -> R,
    H: Chance<R, D>,
>(
    g: &Gatherer<R, D>,
    env: E,
    reference: Reference<R>,
    client: &C,
    c_puct: R,
    depth: &G,
    chance: &mut H,
) -> (r: Result<Episode<E, R>, EpisodeError>)
    requires
        g.spec_action_budget(reference.actions) < usize::MAX,
        forall|e: &E| call_requires(depth, (e,)),
        1 <= g.mcts_steps + g.batch_size <= usize::MAX,
        1 <= g.fast_steps + g.batch_size <= usize::MAX,
        (g.spec_action_budget(reference.actions) + 1) * g.turn_playouts() + 2 < usize::MAX,
        can_ask::<E, R, C>(
            client,
            asked_in_game::<E, R, D, G>(
                g,
                c_puct,
                depth,
                oracle_of::<E, R, C>(client),
                luck_of::<R, D, H>(),
                env,
                reference,
            ),
        ),
    ensures
        g.spec_action_budget(reference.actions) == 0 ==> r is Ok,
        match r {
            Ok(e) => {
                &&& e.is_complete(g, env.spec_hash())
                &&& exists|states: Seq<Episode<E, R>>| #[trigger]
                    is_game::<E, R, D, G>(
                        g,
                        c_puct,
                        depth,
                        oracle_of::<E, R, C>(client),
                        luck_of::<R, D, H>(),
                        env,
                        reference,
                        states,
                        e,
                    )
                &&& e.reference == reference
                &&& e.max_actions == g.spec_action_budget(reference.actions)
                &&& e.resignation_enabled == g.spec_resignation_enabled()
                &&& e.played@ <= (e.step + 1) * g.turn_playouts()
            },
            Err(EpisodeError::Inference(e)) => {
                let asked = asked_in_game::<E, R, D, G>(
                    g,
                    c_puct,
                    depth,
                    oracle_of::<E, R, C>(client),
                    luck_of::<R, D, H>(),
                    env,
                    reference,
                );
                is_failure::<E, R, C>(client, asked, alone::<E>(asked), e)
            },
            Err(EpisodeError::NoMove) => is_stuck::<E, R, D, G>(
                g,
                c_puct,
                depth,
                oracle_of::<E, R, C>(client),
                luck_of::<R, D, H>(),
                env,
                reference,
            ),
        },
{
    let ghost start = env.spec_hash();
    let ghost most = g.turn_playouts() as int;
    let draw: R = if g.resignation_enabled() {
        draw_unit::<R, D, H>(chance)
    } else {
        R::decimal(0, 0)
    };
    let ghost luck = luck_of::<R, D, H>();
    let mut e: Episode<E, R> = Episode::start(g, env, reference, &draw);
    assert(taken(e.all_steps_data@).len() == 0);
    let ghost oracle = oracle_of::<E, R, C>(client);
    let ghost asked = asked_in_game::<E, R, D, G>(
        g,
        c_puct,
        depth,
        oracle,
        luck,
        env,
        reference,
    );
    let ghost mut states: Seq<Episode<E, R>> = seq![e];
    assert(states[0].is_start(g, env, reference, draw));
    while !e.over
        invariant
            oracle == oracle_of::<E, R, C>(client),
            luck == luck_of::<R, D, H>(),
            asked == asked_in_game::<E, R, D, G>(
                g,
                c_puct,
                depth,
                oracle,
                luck,
                env,
                reference,
            ),
            can_ask::<E, R, C>(client, asked),
            is_game::<E, R, D, G>(g, c_puct, depth, oracle, luck, env, reference, states, e),
            e.wf(),
            !e.over ==> e.ready(),
            e.reference == reference,
            e.max_actions == g.spec_action_budget(reference.actions),
            e.max_actions < usize::MAX,
            e.resignation_enabled == g.spec_resignation_enabled(),
            e.mcts.batch_size == g.batch_size,
            most == g.turn_playouts(),
            forall|x: &E| call_requires(depth, (x,)),
            1 <= g.mcts_steps + g.batch_size <= usize::MAX,
            1 <= g.fast_steps + g.batch_size <= usize::MAX,
            (e.max_actions + 1) * most + 2 < usize::MAX,
            e.over ==> e.is_complete(g, start),
            e.played@ <= (e.step + if e.resigned {
                1int
            } else {
                0
            }) * most,
            !e.over ==> !e.resigned,
            e.step == e.all_steps_data@.len(),
            is_play::<E>(start, taken(e.all_steps_data@)),
            e.env.spec_hash() == state_after::<E>(start, taken(e.all_steps_data@)),
            !e.over && e.step > 0 ==> !E::spec_done(e.env.spec_hash()),
            e.temp_data@.len() <= e.step,
            !e.over ==> e.q_trace@.len() == (if g.resignation_log_dir is Some {
                e.step as int
            } else {
                0
            }),
        decreases e.max_actions - e.step, (if e.over {
            0int
        } else {
            1
        }),
    {
        let ghost before = e;
        let unit: R = draw_unit::<R, D, H>(chance);
        let plan: SearchPlan = g.plan_search(&unit);
        let ids: Vec<Action> = e.env.valid_actions();
        let samples: Vec<D> = if plan.noisy {
            draw_samples::<R, D, H>(chance, ids.len())
        } else {
            Vec::new()
        };
        proof {
            lemma_turn(before.step as int, before.max_actions as int, most);
        }
        let ghost given = samples@;
        let ghost rules = before.spec_rules(g, c_puct, plan, given, depth, oracle);
        let ghost count = batches(plan.steps, before.mcts.batch_size);
        let ghost batch = before.mcts.batch_size as nat;
        proof {
            if !E::spec_done(before.env.spec_hash()) {
                assert forall|obs: Seq<TilersObs>| #[trigger]
                    asks::<E, R>(rules, before.mcts.tree(), count, batch, obs) implies asked(
                    obs,
                ) by {
                    assert(asks_at_turn::<E, R, D, G>(
                        g,
                        c_puct,
                        depth,
                        oracle,
                        luck,
                        env,
                        reference,
                        states,
                        before,
                        unit,
                        given,
                        obs,
                    ));
                }
            }
        }
        match e.search(g, client, c_puct.dup(), plan, samples, depth) {
            Err(err) => {
                proof {
                    lemma_search_fails::<E, R, C>(
                        client,
                        rules,
                        before.mcts.tree(),
                        count,
                        batch,
                        asked,
                        err,
                    );
                }
                return Err(EpisodeError::Inference(err));
            },
            Ok(Turn::Resigned) => {
                assert(e.resigned);
                proof {
                    let plan = g.spec_plan_search(unit);
                    assert(before.has_searched(&e, g, c_puct, plan, given, depth, oracle));
                    assert(is_move::<E, R, D>(g, luck, e, e));
                    lemma_game_push::<E, R, D, G>(
                        g,
                        c_puct,
                        depth,
                        oracle,
                        luck,
                        env,
                        reference,
                        states,
                        before,
                        e,
                    );
                    states = states.push(e);
                }
            },
            Ok(Turn::Move(node, ids)) => {
                let ghost searched = e;
                let action: Action = match g.select_action(&node, &ids, e.step, chance) {
                    Some(a) => a,
                    None => {
                        assert(before.has_searched(
                            &searched,
                            g,
                            c_puct,
                            g.spec_plan_search(unit),
                            given,
                            depth,
                            oracle,
                        ));
                        return Err(EpisodeError::NoMove);
                    },
                };
                assert(E::spec_actions(e.env.spec_hash()).contains(action));
                let ghost steps = e.all_steps_data@;
                e.play(action);
                proof {
                    assert(e.all_steps_data@ =~= steps.push(e.all_steps_data@.last()));
                    assert(taken(e.all_steps_data@) =~= taken(steps).push(action));
                    lemma_play_push::<E>(start, taken(steps), action);
                    let plan = g.spec_plan_search(unit);
                    assert(before.has_searched(&searched, g, c_puct, plan, given, depth, oracle));
                    assert(searched.has_played(&e, action));
                    assert(is_move::<E, R, D>(g, luck, searched, e));
                    lemma_game_push::<E, R, D, G>(
                        g,
                        c_puct,
                        depth,
                        oracle,
                        luck,
                        env,
                        reference,
                        states,
                        before,
                        e,
                    );
                    states = states.push(e);
                }
            },
        }
    }
    proof {
        lemma_turn(e.step as int, e.max_actions as int, most);
    }
    Ok(e)
}

/// The playouts of one more turn.
proof fn lemma_turn(step: int, max_actions: int, most: int)
    requires
        0 <= step <= max_actions,
        0 <= most,
    ensures
        (step + 1) * most == step * most + most,
        0 <= step * most,
        (step + 1) * most <= (max_actions + 1) * most,
{
    assert((step + 1) * most == step * most + most) by (nonlinear_arith);
    assert(0 <= step * most) by (nonlinear_arith)
        requires
            0 <= step,
            0 <= most,
    ;
    assert((step + 1) * most <= (max_actions + 1) * most) by (nonlinear_arith)
        requires
            0 <= step <= max_actions,
            0 <= most,
    ;
}

} // verus!
