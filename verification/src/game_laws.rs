//! What a whole game is: the moves that are made in it, what they are drawn by, and how its end is
//! graded.

use crate::assessment::Exam;
use crate::environment::{is_seen, Environment};
use crate::episode::Episode;
use crate::evaluator::{advanced, state_after, Evaluator, Ply, Verdict};
use crate::gatherer::Gatherer;
use crate::grading::{Hindsight, Reference};
use crate::inference::Oracle;
use crate::node::{NodeId, NodeView};
use crate::observation::Observation;
use crate::playthrough::{is_game, is_move, is_turn, Luck};
use crate::scalar::{over, Convert, Scalar};
use crate::selfplay::SelfPlay;
use crate::tilers_obs::{Action, TilersObs};
use crate::token_play::{Style, TokenGame, TokenRow};
use crate::trace::is_searched;
use crate::tree::Tree;
use vstd::prelude::*;

verus! {

/// The visits of an action in a searched state.
pub open spec fn visits_in<R>(tree: Tree<Action, R>, state: NodeId, a: Action) -> int {
    if a < tree[state].edge_visits.len() {
        tree[state].edge_visits[a as int] as int
    } else {
        0
    }
}

/// Law: once an action is played, the tree keeps the nodes that the recorded child reaches, as they
/// were, and no others; without a child it keeps all.
pub proof fn law_tree_is_cut_to_the_move<R: Scalar>(
    root: NodeId,
    tree: Tree<Action, R>,
    action: Action,
    id: NodeId,
)
    requires
        tree.contains_key(root),
        action < tree[root].children.len(),
    ensures
        ({
            let child = tree[root].children[action as int];
            let left = advanced(root, tree, action);
            &&& child is None ==> left == tree
            &&& child is Some ==> (left.contains_key(id) <==> tree.contains_key(id)
                && crate::advance::reachable(tree, child->0, id))
            &&& left.contains_key(id) ==> left[id] == tree[id]
        }),
{
}

/// Law: an evaluated game is played greedily. Each of its states is searched from the tree that the
/// move before left, and the move is a valid action that no other one has more visits than, and no
/// later one as many. The game stays in its budget, and stops before it is spent only at the goal
/// or where there is no action.
pub proof fn law_evaluated_game_is_greedy<
    E: Environment<Act = Action, Obs = TilersObs>,
    R: Scalar,
    G: Fn(&E) -> R,
>(
    e: &Evaluator<R>,
    depth: &G,
    oracle: Oracle<Action, R>,
    start: NodeId,
    reference_depth: R,
    plan_len: Option<usize>,
    actions: Seq<Action>,
) -> (plies: Seq<Ply<R>>)
    requires
        e.is_greedy::<E, G>(depth, oracle, start, reference_depth, plan_len, actions),
    ensures
        plies.len() == actions.len(),
        actions.len() <= e.spec_action_budget(plan_len),
        ({
            let end = state_after::<E>(start, actions);
            actions.len() == e.spec_action_budget(plan_len) || E::spec_done(end)
                || E::spec_actions(end).len() == 0
        }),
        forall|i: int|
            #![trigger plies[i]]
            0 <= i < actions.len() ==> {
                let here = state_after::<E>(start, actions.take(i));
                let ids = E::spec_actions(here);
                let searched = plies[i].searched;
                &&& !E::spec_done(here)
                &&& ids.contains(actions[i])
                &&& forall|a: Action| #[trigger]
                    ids.contains(a) ==> visits_in(searched, here, a) <= visits_in(
                        searched,
                        here,
                        actions[i],
                    )
                &&& exists|k: int|
                    0 <= k < ids.len() && #[trigger] ids[k] == actions[i] && forall|j: int|
                        k < j < ids.len() ==> visits_in(searched, here, #[trigger] ids[j])
                            < visits_in(searched, here, ids[k])
                &&& is_searched::<E, R>(
                    e.rules::<E, G>(oracle, reference_depth, depth, here),
                    plies[i].before,
                    searched,
                    ((e.mcts_steps + 7) / 8) as nat,
                    8,
                )
                &&& i == 0 ==> plies[i].before == Map::<NodeId, NodeView<Action, R>>::empty()
                &&& i > 0 ==> plies[i].before == advanced(
                    state_after::<E>(start, actions.take(i - 1)),
                    plies[i - 1].searched,
                    actions[i - 1],
                )
            },
{
    let plies = choose|plies: Seq<Ply<R>>| #[trigger]
        e.are_plies::<E, G>(reference_depth, depth, oracle, start, actions, plies);
    assert forall|i: int|
        #![trigger plies[i]]
        0 <= i < actions.len() implies {
        let here = state_after::<E>(start, actions.take(i));
        let ids = E::spec_actions(here);
        let searched = plies[i].searched;
        &&& !E::spec_done(here)
        &&& ids.contains(actions[i])
        &&& forall|a: Action| #[trigger]
            ids.contains(a) ==> visits_in(searched, here, a) <= visits_in(
                searched,
                here,
                actions[i],
            )
        &&& exists|k: int|
            0 <= k < ids.len() && #[trigger] ids[k] == actions[i] && forall|j: int|
                k < j < ids.len() ==> visits_in(searched, here, #[trigger] ids[j]) < visits_in(
                    searched,
                    here,
                    ids[k],
                )
        &&& is_searched::<E, R>(
            e.rules::<E, G>(oracle, reference_depth, depth, here),
            plies[i].before,
            searched,
            ((e.mcts_steps + 7) / 8) as nat,
            8,
        )
        &&& i == 0 ==> plies[i].before == Map::<NodeId, NodeView<Action, R>>::empty()
        &&& i > 0 ==> plies[i].before == advanced(
            state_after::<E>(start, actions.take(i - 1)),
            plies[i - 1].searched,
            actions[i - 1],
        )
    } by {
        let here = state_after::<E>(start, actions.take(i));
        let ids = E::spec_actions(here);
        let searched = plies[i].searched;
        assert(e.is_ply_at::<E, G>(reference_depth, depth, oracle, start, actions, plies, i));
        let k = choose|k: int| #[trigger]
            crate::evaluator::is_last_most_visited(ids, searched[here].edge_visits, k)
                && actions[i] == ids[k];
        assert forall|a: Action| #[trigger] ids.contains(a) implies visits_in(searched, here, a)
            <= visits_in(searched, here, actions[i]) by {
            let j = choose|j: int| 0 <= j < ids.len() && ids[j] == a;
            if j != k {
                assert(crate::evaluator::slot_visits(searched[here].edge_visits, ids[j])
                    <= crate::evaluator::slot_visits(searched[here].edge_visits, ids[k]));
            }
        }
        assert forall|j: int| k < j < ids.len() implies visits_in(searched, here, #[trigger] ids[j])
            < visits_in(searched, here, ids[k]) by {}
        assert(ids[k] == actions[i]);
    }
    plies
}

/// Law: a search of an evaluation starts from the state that is asked for, without forced playouts,
/// and gives a finished state its value by its depth against the reference.
pub proof fn law_evaluation_searches<
    E: Environment<Act = Action>,
    R: Scalar,
    G: Fn(&E) -> R,
>(
    e: &Evaluator<R>,
    oracle: Oracle<Action, R>,
    reference_depth: R,
    depth: &G,
    root: NodeId,
    id: NodeId,
    value: R,
)
    ensures
        ({
            let rules = e.rules::<E, G>(oracle, reference_depth, depth, root);
            &&& rules.root == root
            &&& rules.c_puct == e.c_puct
            &&& !rules.forced
            &&& rules.oracle == oracle
            &&& rules.tuning.root_noise is None
            &&& rules.tuning.root_softmax_temp == R::spec_decimal(103, -2)
            &&& rules.tuning.c_fpu == R::spec_decimal(2, -1)
            &&& rules.tuning.k_forced == R::spec_decimal(2, 0)
            &&& (rules.finishes)(id, value) <==> exists|s: &E, d: R| #[trigger]
                call_ensures(depth, (s,), d) && s.spec_hash() == id && value
                    == e.spec_terminal_value(E::spec_done(id), reference_depth, d)
        }),
{
}

/// Law: an instance gets no verdict only where the reference solver gives up on it. Else the
/// verdict is by the depth of the reference solution of its start, and by what is measured where
/// the game ended; what was reached short of the goal is asked for only there.
pub proof fn law_assessment_grades_the_end<
    E: Environment<Act = Action, Obs = TilersObs>,
    R: Scalar,
    G: Fn(&E) -> R,
    V: Fn(&E) -> Option<R>,
    N: Fn(&E) -> Option<usize>,
    H: Fn(&E, &E) -> Hindsight<R>,
>(
    e: &Evaluator<R>,
    exam: &Exam<G, V, N, H>,
    num_objectives: usize,
    oracle: Oracle<Action, R>,
    start: NodeId,
    result: Option<(Vec<Action>, Verdict<R>)>,
) -> (w: (R, R, Hindsight<R>))
    requires
        e.is_assessed::<E, G, V, N, H>(exam, num_objectives, oracle, start, result),
    ensures
        result is None ==> exists|s: &E| #[trigger]
            call_ensures(exam.reference, (s,), None::<R>) && s.spec_hash() == start,
        result is Some ==> {
            let actions = (result->0).0@;
            let end = state_after::<E>(start, actions);
            &&& exists|s: &E| #[trigger]
                call_ensures(exam.reference, (s,), Some(w.0)) && s.spec_hash() == start
            &&& exists|s: &E| #[trigger]
                call_ensures(exam.depth, (s,), w.1) && s.spec_hash() == end
            &&& E::spec_done(end) ==> w.2 is Nothing
            &&& !E::spec_done(end) ==> exists|a: &E, b: &E| #[trigger]
                call_ensures(exam.look_back, (a, b), w.2) && a.spec_hash() == start
                    && b.spec_hash() == end
            &&& (result->0).1 == e.spec_verdict(
                w.0,
                E::spec_done(end),
                w.1,
                num_objectives,
                w.2,
            )
            &&& exists|s: &E, plan_len: Option<usize>| #[trigger]
                call_ensures(exam.plan_len, (s,), plan_len) && s.spec_hash() == start
                    && e.is_greedy::<E, G>(&exam.depth, oracle, start, w.0, plan_len, actions)
        },
{
    if result is Some {
        let actions = (result->0).0@;
        let verdict = (result->0).1;
        let (s, reference_depth, f, plan_len, first, last, reached, hindsight) = choose|
            s: &E,
            reference_depth: R,
            f: &E,
            plan_len: Option<usize>,
            first: E,
            last: E,
            reached: R,
            hindsight: Hindsight<R>,
        |
            {
                &&& #[trigger] call_ensures(exam.reference, (s,), Some(reference_depth))
                &&& s.spec_hash() == start
                &&& #[trigger] call_ensures(exam.plan_len, (f,), plan_len)
                &&& f.spec_hash() == start
                &&& e.is_greedy::<E, G>(
                    &exam.depth,
                    oracle,
                    start,
                    reference_depth,
                    plan_len,
                    actions,
                )
                &&& #[trigger] e.is_verdict::<E, G, H>(
                    &exam.depth,
                    &exam.look_back,
                    num_objectives,
                    reference_depth,
                    first,
                    last,
                    reached,
                    hindsight,
                    verdict,
                )
                &&& first.spec_hash() == start
                &&& last.spec_hash() == state_after::<E>(start, actions)
            };
        assert(call_ensures(exam.depth, (&last,), reached));
        assert(!E::spec_done(last.spec_hash()) ==> call_ensures(
            exam.look_back,
            (&first, &last),
            hindsight,
        ));
        (reference_depth, reached, hindsight)
    } else {
        (R::spec_decimal(0, 0), R::spec_decimal(0, 0), Hindsight::Nothing)
    }
}

/// Law: the move of an episode is the action at an index that is drawn by the weights of the
/// visits, with one sample of noise for each action where the move has noise, and else none.
pub proof fn law_move_is_drawn_by_visits<R: Convert<D>, D: Scalar>(
    g: &Gatherer<R, D>,
    luck: Luck<R, D>,
    edge_visits: Seq<usize>,
    ids: Seq<Action>,
    step: usize,
    action: Action,
) -> (w: (Seq<D>, usize))
    requires
        g.is_selected(luck, edge_visits, ids, step, Some(action)),
    ensures
        ({
            let noisy = D::spec_less(D::spec_decimal(0, 0), g.spec_move_noise(step));
            let shape = crate::moves::spec_dirichlet_alpha::<D>(ids.len() as usize);
            &&& noisy ==> w.0.len() == ids.len()
            &&& !noisy ==> w.0.len() == 0
            &&& forall|i: int| 0 <= i < w.0.len() ==> (luck.gamma)(shape, #[trigger] w.0[i])
            &&& (luck.weighted)(g.spec_move_weights(edge_visits, ids, step, w.0), Some(w.1))
            &&& w.1 < ids.len()
            &&& action == ids[w.1 as int]
        }),
{
    let samples = choose|samples: Seq<D>|
        {
            &&& samples.len() == (if D::spec_less(
                crate::scalar::zero(),
                g.spec_move_noise(step),
            ) {
                ids.len()
            } else {
                0
            })
            &&& crate::playthrough::are_samples(
                luck,
                crate::moves::spec_dirichlet_alpha(ids.len() as usize),
                samples,
            )
            &&& crate::playthrough::is_drawn(
                luck,
                #[trigger] g.spec_move_weights(edge_visits, ids, step, samples),
                ids,
                Some(action),
            )
        };
    let weights = g.spec_move_weights(edge_visits, ids, step, samples);
    let i = choose|i: Option<usize>| #[trigger]
        (luck.weighted)(weights, i) && Some(action) == (match i {
            Some(i) if i < ids.len() => Some(ids[i as int]),
            _ => None,
        });
    (samples, i->0)
}

/// Law: in a turn the state is searched by the plan of a number that is drawn, and then, unless the
/// episode is over, the state changes by a valid action that is drawn by the visits of that search.
pub proof fn law_turn_searches_then_moves<
    E: Environment<Act = Action, Obs = TilersObs>,
    R: Convert<D>,
    D: Convert<R>,
    G: Fn(&E) -> R,
>(
    g: &Gatherer<R, D>,
    c_puct: R,
    depth: &G,
    oracle: Oracle<Action, R>,
    luck: Luck<R, D>,
    before: Episode<E, R>,
    after: Episode<E, R>,
) -> (w: (Episode<E, R>, R, Seq<D>))
    requires
        is_turn::<E, R, D, G>(g, c_puct, depth, oracle, luck, before, after),
    ensures
        (luck.unit)(w.1),
        g.spec_plan_search(w.1).noisy ==> forall|i: int|
            0 <= i < w.2.len() ==> (luck.gamma)(
                crate::moves::spec_dirichlet_alpha::<D>(
                    E::spec_actions(before.env.spec_hash()).len() as usize,
                ),
                #[trigger] w.2[i],
            ),
        before.has_searched(&w.0, g, c_puct, g.spec_plan_search(w.1), w.2, depth, oracle),
        w.0.over ==> after == w.0,
        !w.0.over ==> {
            let here = w.0.env.spec_hash();
            exists|action: Action| #[trigger]
                w.0.has_played(&after, action) && g.is_selected(
                    luck,
                    w.0.mcts.tree()[here].edge_visits,
                    E::spec_actions(here),
                    w.0.step,
                    Some(action),
                )
        },
{
    let (searched, draw, samples) = choose|searched: Episode<E, R>, draw: R, samples: Seq<D>|
     #[trigger]
        before.has_searched(
            &searched,
            g,
            c_puct,
            g.spec_plan_search(draw),
            samples,
            depth,
            oracle,
        ) && crate::playthrough::is_drawn_for::<E, R, D>(g, luck, before, draw, samples)
            && is_move::<E, R, D>(g, luck, searched, after);
    (searched, draw, samples)
}

/// Law: an episode goes on turn by turn, each from what the one before it left, until it is over
/// and no longer.
pub proof fn law_episode_goes_turn_by_turn<
    E: Environment<Act = Action, Obs = TilersObs>,
    R: Convert<D>,
    D: Convert<R>,
    G: Fn(&E) -> R,
>(
    g: &Gatherer<R, D>,
    c_puct: R,
    depth: &G,
    oracle: Oracle<Action, R>,
    luck: Luck<R, D>,
    env: E,
    reference: Reference<R>,
    states: Seq<Episode<E, R>>,
    end: Episode<E, R>,
    i: int,
)
    requires
        is_game::<E, R, D, G>(g, c_puct, depth, oracle, luck, env, reference, states, end),
        0 <= i < states.len() - 1,
    ensures
        exists|draw: R| #[trigger] states[0].is_start(g, env, reference, draw),
        !states[i].over,
        is_turn::<E, R, D, G>(g, c_puct, depth, oracle, luck, states[i], states[i + 1]),
        states[states.len() - 1] == end,
{
    assert(crate::playthrough::is_turn_at::<E, R, D, G>(
        g,
        c_puct,
        depth,
        oracle,
        luck,
        states,
        i + 1,
    ));
}

/// Law: the moves of a token game are drawn by the visits of the searched state, with one sample of
/// noise for each action unless the move is a quiet one, and nothing is drawn by visits that cannot
/// be counted.
pub proof fn law_token_move_is_drawn_by_visits<R: Scalar, D: Scalar>(
    s: &SelfPlay<R, D>,
    luck: Luck<R, D>,
    edge_visits: Seq<usize>,
    ids: Seq<Action>,
    quiet: bool,
    action: Action,
) -> (w: (Seq<D>, usize))
    requires
        s.is_selected(luck, edge_visits, ids, quiet, Some(action)),
    ensures
        quiet ==> w.0.len() == 0,
        !quiet ==> w.0.len() == ids.len(),
        forall|i: int|
            0 <= i < w.0.len() ==> (luck.gamma)(
                over(D::spec_decimal(10, 0), D::spec_count(ids.len() as usize)),
                #[trigger] w.0[i],
            ),
        (luck.weighted)(s.spec_move_weights(edge_visits, ids, quiet, w.0), Some(w.1)),
        w.1 < ids.len(),
        action == ids[w.1 as int],
{
    let shape = over(D::spec_decimal(10, 0), D::spec_count(ids.len() as usize));
    let samples = choose|samples: Seq<D>|
        {
            &&& samples.len() == (if quiet {
                0
            } else {
                ids.len()
            })
            &&& crate::playthrough::are_samples(luck, shape, samples)
            &&& crate::playthrough::is_drawn(
                luck,
                #[trigger] s.spec_move_weights(edge_visits, ids, quiet, samples),
                ids,
                Some(action),
            )
        };
    let weights = s.spec_move_weights(edge_visits, ids, quiet, samples);
    let i = choose|i: Option<usize>| #[trigger]
        (luck.weighted)(weights, i) && Some(action) == (match i {
            Some(i) if i < ids.len() => Some(ids[i as int]),
            _ => None,
        });
    (samples, i->0)
}

/// Law: each turn of a token game takes a valid action of its state, drawn by the visits of its
/// search, and records the state as it is seen, with its valid actions and the visits that each
/// got. From the fourth turn on a game is quiet, unless it is always noisy.
pub proof fn law_token_turns_are_recorded<
    E: Environment<Act = Action, Obs = Observation>,
    R: Scalar,
    D: Scalar,
>(
    s: &SelfPlay<R, D>,
    style: Style,
    c_puct: R,
    oracle: Oracle<Action, R>,
    luck: Luck<R, D>,
    start: NodeId,
    actions: Seq<Action>,
    rows: Seq<TokenRow>,
) -> (plies: Seq<Ply<R>>)
    requires
        s.is_played::<E>(style, c_puct, oracle, luck, start, actions, rows),
    ensures
        rows.len() == actions.len(),
        plies.len() == actions.len(),
        forall|i: int|
            #![trigger plies[i]]
            0 <= i < actions.len() ==> {
                let here = state_after::<E>(start, actions.take(i));
                let ids = E::spec_actions(here);
                let searched = plies[i].searched;
                &&& ids.contains(actions[i])
                &&& s.is_selected(
                    luck,
                    searched[here].edge_visits,
                    ids,
                    !style.always_noisy && i >= 3,
                    Some(actions[i]),
                )
                &&& is_seen::<E>(here, rows[i].obs)
                &&& rows[i].valid_actions@ == ids
                &&& forall|a: Action| #[trigger]
                    rows[i].edge_visits@.contains_key(a) ==> rows[i].edge_visits@[a]
                        == searched[here].edge_visits[a as int]
                &&& forall|a: Action| #[trigger]
                    rows[i].edge_visits@.contains_key(a)
                        <==> searched[here].valid_actions.contains(a)
                &&& i > 0 ==> !E::spec_done(here)
                &&& i == 0 ==> plies[i].before == Map::<NodeId, NodeView<Action, R>>::empty()
                &&& i > 0 && !style.advances ==> plies[i].before == plies[i - 1].searched
                &&& i > 0 && style.advances ==> plies[i].before == advanced(
                    state_after::<E>(start, actions.take(i - 1)),
                    plies[i - 1].searched,
                    actions[i - 1],
                )
                &&& !E::spec_done(here) ==> is_searched::<E, R>(
                    s.rules(oracle, c_puct, here),
                    plies[i].before,
                    searched,
                    crate::run::batches(s.mcts_steps, s.batch_size),
                    s.batch_size as nat,
                )
            },
{
    let plies = choose|plies: Seq<Ply<R>>| #[trigger]
        s.are_turns::<E>(style, c_puct, oracle, luck, start, actions, rows, plies);
    assert forall|i: int| #![trigger plies[i]] 0 <= i < actions.len() implies s.is_turn_at::<E>(
        style,
        c_puct,
        oracle,
        luck,
        start,
        actions,
        rows,
        plies,
        i,
    ) by {}
    plies
}

/// Law: a gathered token game ends at the goal, where its actions lead from the start. It was
/// played by search until it was spent or at the goal, and from there it follows a plan of the
/// reference solver. The goal is recorded without actions.
pub proof fn law_token_game_reaches_the_goal<
    E: Environment<Act = Action, Obs = Observation>,
    R: Scalar,
    D: Scalar,
    G: Fn(&E) -> Vec<Action>,
>(
    s: &SelfPlay<R, D>,
    c_puct: R,
    oracle: Oracle<Action, R>,
    luck: Luck<R, D>,
    solve: &G,
    start: NodeId,
    game: TokenGame<E>,
) -> (k: int)
    requires
        s.is_gathered::<E, G>(c_puct, oracle, luck, solve, start, game),
    ensures
        ({
            let actions = game.actions@;
            let rows = game.rows@;
            let middle = state_after::<E>(start, actions.take(k));
            let end = state_after::<E>(start, actions);
            &&& game.env.spec_hash() == end
            &&& E::spec_done(end)
            &&& rows.len() == actions.len() + 1
            &&& is_seen::<E>(end, rows[actions.len() as int].obs)
            &&& rows[actions.len() as int].valid_actions@.len() == 0
            &&& rows[actions.len() as int].edge_visits@.len() == 0
            &&& 0 <= k <= actions.len()
            &&& k <= s.max_actions
            &&& k < s.max_actions ==> k > 0 && E::spec_done(middle)
            &&& E::spec_done(middle) ==> actions.len() == k
            &&& !E::spec_done(middle) ==> exists|e: &E, plan: Vec<Action>| #[trigger]
                call_ensures(solve, (e,), plan) && e.spec_hash() == middle && plan@
                    == actions.subrange(k, actions.len() as int)
            &&& s.is_played::<E>(
                Style { always_noisy: false, advances: true },
                c_puct,
                oracle,
                luck,
                start,
                actions.take(k),
                rows.take(k),
            )
            &&& forall|i: int|
                k <= i < actions.len() ==> crate::token_play::is_supervised::<E, R>(
                    #[trigger] rows[i],
                    state_after::<E>(start, actions.take(i)),
                    actions[i],
                )
        }),
{
    choose|k: int| #[trigger]
        s.is_completed::<E, G>(
            c_puct,
            oracle,
            luck,
            solve,
            start,
            game.actions@,
            game.rows@,
            k,
        )
}

/// Law: a search of a token game starts from the state that is asked for, without forced playouts,
/// and gives every finished state the value that is set for it.
pub proof fn law_token_search<R: Scalar, D: Scalar>(
    s: &SelfPlay<R, D>,
    oracle: Oracle<Action, R>,
    c_puct: R,
    root: NodeId,
    id: NodeId,
    value: R,
)
    ensures
        ({
            let rules = s.rules(oracle, c_puct, root);
            &&& rules.root == root
            &&& rules.c_puct == c_puct
            &&& !rules.forced
            &&& rules.oracle == oracle
            &&& rules.tuning.root_noise is None
            &&& rules.tuning.root_softmax_temp == R::spec_decimal(103, -2)
            &&& rules.tuning.c_fpu == R::spec_decimal(2, -1)
            &&& rules.tuning.k_forced == R::spec_decimal(2, 0)
            &&& (rules.finishes)(id, value) <==> value == s.terminal_value
        }),
{
}

} // verus!
