//! How self-play on tokens and demonstrations weigh moves, and how their games are scored.

use crate::environment::{is_seen, Environment};
use crate::evaluator::state_after;
use crate::heuristic::{are_ranks, is_row, spec_rank_weight, spec_rankings, RankedRow};
use crate::move_laws::lemma_sum_folds;
use crate::node::NodeId;
use crate::observation::{Action, Observation};
use crate::puct_laws::lemma_total_folds;
use crate::records::FieldView;
use crate::scalar::{minus, over, plus, times, Binary, Scalar, Unary};
use crate::scoring::{is_scored, is_transition_at, leads, measures};
use crate::selfplay::{
    places_of, spec_needs_clearing, spec_outcome_reward, spec_proportional,
    spec_score_transitions, spec_shuffled, spec_supervised_visits, SelfPlay, Transition,
};
use crate::token_play::{is_supervised, spec_token_fields, Style, TokenRow};
use vstd::prelude::*;

verus! {

/// Law: self-play draws by the share of each action in all visits; without visits all actions are
/// alike.
pub proof fn law_shares_of_visits<D: Scalar>(visits: Seq<usize>, i: int)
    requires
        0 <= i < visits.len(),
    ensures
        ({
            let all = visits.fold_left(0int, |sum: int, x: usize| sum + x);
            let probs = spec_proportional::<D>(visits);
            &&& probs.len() == visits.len()
            &&& all == 0 ==> probs[i] == over(
                D::spec_decimal(1, 0),
                D::spec_count(visits.len() as usize),
            )
            &&& all != 0 ==> probs[i] == over(
                D::spec_count(visits[i]),
                D::spec_count(all as usize),
            )
        }),
{
    lemma_total_folds(visits);
}

/// Law: self-play blends the shares of the visits with noise by its strength, and a quiet move with
/// none; a weight is never below 0.
pub proof fn law_self_play_blends_noise<R: Scalar, D: Scalar>(
    p: &SelfPlay<R, D>,
    edge_visits: Seq<usize>,
    ids: Seq<Action>,
    quiet: bool,
    samples: Seq<D>,
    i: int,
)
    requires
        0 <= i < ids.len(),
        !quiet ==> samples.len() == ids.len(),
    ensures
        ({
            let weights = p.spec_move_weights(edge_visits, ids, quiet, samples);
            let visits = Seq::new(
                ids.len(),
                |k: int|
                    if ids[k] < edge_visits.len() {
                        edge_visits[ids[k] as int]
                    } else {
                        0
                    },
            );
            let whole = samples.fold_left(D::spec_decimal(0, 0), |sum: D, x: D| plus(sum, x));
            let noise = if quiet {
                D::spec_decimal(0, 0)
            } else {
                over(samples[i], whole)
            };
            &&& weights.len() == ids.len()
            &&& weights[i] == D::spec_binary(
                Binary::Max,
                plus(
                    times(
                        minus(D::spec_decimal(1, 0), p.noise_strength),
                        spec_proportional::<D>(visits)[i],
                    ),
                    times(p.noise_strength, noise),
                ),
                D::spec_decimal(0, 0),
            )
        }),
{
    let visits = Seq::new(
        ids.len(),
        |k: int|
            if ids[k] < edge_visits.len() {
                edge_visits[ids[k] as int]
            } else {
                0
            },
    );
    assert(visits =~= crate::moves::visits_for(edge_visits, ids));
    lemma_sum_folds(samples);
}

/// Law: a game has noise on its first three moves, and on all where that is asked for.
pub proof fn law_first_moves_are_noisy(style: Style, i: int)
    ensures
        style.spec_quiet(i) <==> !style.always_noisy && i >= 3,
{
}

/// Law: supervised visits give the selected action its weight in thousandths, and every other valid
/// action an equal part of the rest. No other action has visits.
pub proof fn law_supervised_visits<R: Scalar>(
    selected: Action,
    valid_actions: Seq<Action>,
    weight: R,
    a: Action,
)
    ensures
        ({
            let visits = spec_supervised_visits(selected, valid_actions, weight);
            let n = valid_actions.len() as usize;
            let rest = if n > 1 {
                over(
                    minus(R::spec_decimal(1, 0), weight),
                    minus(R::spec_count(n), R::spec_decimal(1, 0)),
                )
            } else {
                R::spec_decimal(0, 0)
            };
            &&& visits.contains_key(a) <==> valid_actions.contains(a)
            &&& valid_actions.contains(a) ==> visits[a] == R::spec_to_count(
                times(
                    if a == selected {
                        weight
                    } else {
                        rest
                    },
                    R::spec_decimal(1000, 0),
                ),
            )
        }),
{
}

/// Law: a game that is less deep than its reference scores 1 with every move. In any other game a
/// move that ends it scores 1, and another one by how far the game is ahead of the reference from
/// there, with a bonus of a tenth, halved and saturated.
pub proof fn law_moves_are_scored<R: Scalar>(
    reference_depth: R,
    agent_depth: R,
    ts: Seq<Transition<R>>,
    i: int,
)
    requires
        0 <= i < ts.len(),
    ensures
        ({
            let scores = spec_score_transitions(reference_depth, agent_depth, ts);
            &&& scores.len() == ts.len()
            &&& R::spec_less(agent_depth, reference_depth) || ts[i].finishes ==> scores[i]
                == R::spec_decimal(1, 0)
            &&& !R::spec_less(agent_depth, reference_depth) && !ts[i].finishes ==> scores[i]
                == R::spec_unary(
                Unary::Tanh,
                over(
                    minus(
                        plus(R::spec_decimal(1, -1), ts[i].reference_depth),
                        ts[i].agent_depth,
                    ),
                    R::spec_decimal(2, 0),
                ),
            )
        }),
{
}

/// Law: a state is cleared before it is solved exactly where all its valid actions are those from 1
/// up to the number of ancillas.
pub proof fn law_clearing(valid_actions: Seq<Action>, num_ancillas: usize)
    ensures
        spec_needs_clearing(valid_actions, num_ancillas) <==> forall|i: int|
            0 <= i < valid_actions.len() ==> 1 <= #[trigger] valid_actions[i] <= num_ancillas,
{
    if spec_needs_clearing(valid_actions, num_ancillas) {
        assert forall|i: int| 0 <= i < valid_actions.len() implies 1
            <= #[trigger] valid_actions[i] <= num_ancillas by {
            assert(valid_actions.contains(valid_actions[i]));
        }
    }
    if forall|i: int|
        0 <= i < valid_actions.len() ==> 1 <= #[trigger] valid_actions[i] <= num_ancillas {
        if valid_actions.contains(0u16) {
            let i = choose|i: int| 0 <= i < valid_actions.len() && valid_actions[i] == 0u16;
            assert(1 <= valid_actions[i]);
        }
    }
}

/// Law: the places of set flags are listed in order, each once, and no other place is.
pub proof fn law_places_are_listed(flags: Seq<bool>, k: nat, p: usize)
    requires
        k <= flags.len() <= usize::MAX,
    ensures
        places_of(flags, k).contains(p) <==> p < k && flags[p as int],
        forall|i: int, j: int|
            0 <= i < j < places_of(flags, k).len() ==> #[trigger] places_of(flags, k)[i]
                < #[trigger] places_of(flags, k)[j],
        forall|i: int| 0 <= i < places_of(flags, k).len() ==> #[trigger] places_of(flags, k)[i] < k,
    decreases k,
{
    if k > 0 {
        let before = places_of(flags, (k - 1) as nat);
        law_places_are_listed(flags, (k - 1) as nat, p);
        let s = places_of(flags, k);
        if flags[k - 1] {
            assert(s == before.push((k - 1) as usize));
            if before.contains(p) {
                let i = choose|i: int| 0 <= i < before.len() && before[i] == p;
                assert(s[i] == p);
            }
            if p == k - 1 {
                assert(s[before.len() as int] == p);
            }
            if s.contains(p) && p != k - 1 {
                let i = choose|i: int| 0 <= i < s.len() && s[i] == p;
                assert(before[i] == p);
            }
        }
    }
}

/// Law: a shuffled layout has at each of its places the place of the shuffled list with the same
/// number.
pub proof fn law_shuffle_moves_places(
    n: nat,
    places: Seq<usize>,
    shuffled: Seq<usize>,
    k: nat,
    i: int,
)
    requires
        k <= places.len(),
        shuffled.len() == places.len(),
        places.no_duplicates(),
        forall|j: int| 0 <= j < places.len() ==> #[trigger] places[j] < n,
        0 <= i < k,
    ensures
        spec_shuffled(n, places, shuffled, k).len() == n,
        spec_shuffled(n, places, shuffled, k)[places[i] as int] == shuffled[i],
    decreases k,
{
    if i < k - 1 {
        law_shuffle_moves_places(n, places, shuffled, (k - 1) as nat, i);
        assert(places[i] != places[k - 1]);
    } else {
        lemma_shuffled_len(n, places, shuffled, (k - 1) as nat);
    }
}

proof fn lemma_shuffled_len(n: nat, places: Seq<usize>, shuffled: Seq<usize>, k: nat)
    requires
        k <= places.len(),
        forall|j: int| 0 <= j < places.len() ==> #[trigger] places[j] < n,
    ensures
        spec_shuffled(n, places, shuffled, k).len() == n,
    decreases k,
{
    if k > 0 {
        lemma_shuffled_len(n, places, shuffled, (k - 1) as nat);
    }
}

/// Law: a game is worth 1 if it reached its goal less deep than the reference, 0 if as deep, and -1
/// otherwise.
pub proof fn law_game_is_worth<R: Scalar>(done: bool, depth: usize, reference: usize)
    ensures
        done && depth < reference ==> spec_outcome_reward::<R>(done, depth, reference)
            == R::spec_decimal(1, 0),
        done && depth == reference ==> spec_outcome_reward::<R>(done, depth, reference)
            == R::spec_decimal(0, 0),
        done && depth > reference ==> spec_outcome_reward::<R>(done, depth, reference)
            == R::spec_decimal(-1, 0),
        !done ==> spec_outcome_reward::<R>(done, depth, reference) == R::spec_decimal(-1, 0),
{
}

/// Law: an action that leads to a shallower solution weighs more than one that leads to one as deep
/// as that of the state, and that more than one that leads to a deeper one.
pub proof fn law_shallower_solutions_weigh_more(a: usize, b: usize, base: usize)
    ensures
        spec_rank_weight(a, base) >= 1,
        a < base ==> spec_rank_weight(a, base) == 10,
        a == base ==> spec_rank_weight(a, base) == 5,
        a > base ==> spec_rank_weight(a, base) == 1,
        a <= b ==> spec_rank_weight(a, base) >= spec_rank_weight(b, base),
{
}

/// Law: every legal action of a state is ranked by the depth of the solution behind it, and no
/// other action is ranked.
pub proof fn law_every_action_is_ranked(
    actions: Seq<usize>,
    depths: Seq<usize>,
    base: usize,
    k: nat,
    i: int,
    a: usize,
)
    requires
        k <= actions.len(),
        depths.len() == actions.len(),
        0 <= i < k,
        forall|j: int| i < j < k ==> #[trigger] actions[j] != actions[i],
    ensures
        spec_rankings(actions, depths, base, k).contains_key(actions[i]),
        spec_rankings(actions, depths, base, k)[actions[i]] == (if depths[i] < base {
            10
        } else if depths[i] == base {
            5
        } else {
            1int
        }),
        spec_rankings(actions, depths, base, k).contains_key(a) <==> actions.take(
            k as int,
        ).contains(a),
    decreases k,
{
    lemma_ranked_domain(actions, depths, base, k, a);
    if i < k - 1 {
        law_every_action_is_ranked(actions, depths, base, (k - 1) as nat, i, a);
    }
}

proof fn lemma_ranked_domain(
    actions: Seq<usize>,
    depths: Seq<usize>,
    base: usize,
    k: nat,
    a: usize,
)
    requires
        k <= actions.len(),
    ensures
        spec_rankings(actions, depths, base, k).contains_key(a) <==> actions.take(
            k as int,
        ).contains(a),
    decreases k,
{
    let now = actions.take(k as int);
    if k > 0 {
        let before = actions.take(k - 1);
        lemma_ranked_domain(actions, depths, base, (k - 1) as nat, a);
        if before.contains(a) {
            let i = choose|i: int| 0 <= i < before.len() && before[i] == a;
            assert(now[i] == a);
        }
        if a == actions[k - 1] {
            assert(now[k - 1] == a);
        }
        if now.contains(a) && a != actions[k - 1] {
            let i = choose|i: int| 0 <= i < now.len() && now[i] == a;
            assert(before[i] == a);
        }
    }
}

/// Law: a state on the way of the reference solver is recorded with seven tenths of a thousand
/// visits on its action, and the rest spread over the other valid actions.
pub proof fn law_reference_states_are_recorded<
    E: Environment<Act = Action, Obs = Observation>,
    R: Scalar,
>(row: TokenRow, state: NodeId, action: Action, a: Action)
    requires
        is_supervised::<E, R>(row, state, action),
        E::spec_actions(state).contains(a),
    ensures
        ({
            let n = E::spec_actions(state).len() as usize;
            let share = R::spec_decimal(7, -1);
            let rest = if n > 1 {
                over(
                    minus(R::spec_decimal(1, 0), share),
                    minus(R::spec_count(n), R::spec_decimal(1, 0)),
                )
            } else {
                R::spec_decimal(0, 0)
            };
            &&& row.valid_actions@ == E::spec_actions(state)
            &&& row.edge_visits@.contains_key(a)
            &&& row.edge_visits@[a] == R::spec_to_count(
                times(
                    if a == action {
                        share
                    } else {
                        rest
                    },
                    R::spec_decimal(1000, 0),
                ),
            )
        }),
{
}

/// Law: a record of a token state holds the size of the grid, the ancillas where they are given,
/// what is seen, the valid actions with their visits, and the reward.
pub proof fn law_token_record<R: Scalar>(
    row: &TokenRow,
    height: usize,
    width: usize,
    num_ancillas: Option<usize>,
    reward: R,
)
    ensures
        ({
            let fields = spec_token_fields(row, height, width, num_ancillas, reward);
            let k = if num_ancillas is Some {
                3int
            } else {
                2
            };
            &&& fields.len() == k + 6
            &&& fields[0] == ("height"@, FieldView::<R>::Count(height))
            &&& fields[1] == ("width"@, FieldView::<R>::Count(width))
            &&& num_ancillas is Some ==> fields[2] == (
                "num_ancillas"@,
                FieldView::<R>::Count(num_ancillas->0),
            )
            &&& fields[k] == ("placement"@, FieldView::<R>::Ids(row.obs.placement@))
            &&& fields[k + 1] == ("objectives_0"@, FieldView::<R>::Ids(row.obs.objectives_0@))
            &&& fields[k + 2] == ("objectives_1"@, FieldView::<R>::Ids(row.obs.objectives_1@))
            &&& fields[k + 3] == ("valid_actions"@, FieldView::<R>::Ids(row.valid_actions@))
            &&& fields[k + 4] == ("edge_visits"@, FieldView::<R>::Visits(row.edge_visits@))
            &&& fields[k + 5] == ("reward"@, FieldView::Number(reward))
        }),
{
}

/// Law: a transition of a game is measured in the state before its move, with what was executed
/// forgotten: the reference is that of the state, cleared before if all its actions are those from
/// 1 up to the ancillas, and the depth is that at the end of all moves that are left.
pub proof fn law_transition_is_measured<
    E: Environment<Act = Action>,
    R: Scalar,
    F: Fn(E) -> E,
    C: Fn(E) -> E,
    S: Fn(&E) -> R,
    D: Fn(&E) -> R,
>(
    num_ancillas: usize,
    forget: &F,
    clear: &C,
    reference: &S,
    depth: &D,
    start: NodeId,
    actions: Seq<Action>,
    states: Seq<NodeId>,
    ts: Seq<Transition<R>>,
    i: int,
)
    requires
        is_transition_at::<E, R, F, C, S, D>(
            num_ancillas,
            forget,
            clear,
            reference,
            depth,
            start,
            actions,
            states,
            ts,
            i,
        ),
        0 <= i < actions.len(),
    ensures
        ({
            let here = states[i];
            let valid = E::spec_actions(here);
            let stuck = forall|k: int|
                0 <= k < valid.len() ==> 1 <= #[trigger] valid[k] <= num_ancillas;
            &&& i == 0 ==> leads::<E, F>(forget, start, here)
            &&& i > 0 ==> leads::<E, F>(
                forget,
                E::spec_next(states[i - 1], actions[i - 1]),
                here,
            )
            &&& measures::<E, R, D>(
                depth,
                state_after::<E>(here, actions.skip(i)),
                ts[i].agent_depth,
            )
            &&& ts[i].finishes == E::spec_done(E::spec_next(here, actions[i]))
            &&& !stuck ==> measures::<E, R, S>(reference, here, ts[i].reference_depth)
            &&& stuck ==> exists|cleared: NodeId| #[trigger]
                leads::<E, C>(clear, here, cleared) && measures::<E, R, S>(
                    reference,
                    cleared,
                    ts[i].reference_depth,
                )
        }),
{
    law_clearing(E::spec_actions(states[i]), num_ancillas);
    assert(actions.skip(i)[0] == actions[i]);
}

/// Law: a game that ends less deep than the reference of its start scores 1 with every move.
pub proof fn law_winning_game_scores_one<
    E: Environment<Act = Action>,
    R: Scalar,
    F: Fn(E) -> E,
    C: Fn(E) -> E,
    S: Fn(&E) -> R,
    D: Fn(&E) -> R,
>(
    num_ancillas: usize,
    forget: &F,
    clear: &C,
    reference: &S,
    depth: &D,
    start: NodeId,
    actions: Seq<Action>,
    reference_depth: R,
    agent_depth: R,
    scores: Seq<R>,
    i: int,
)
    requires
        is_scored::<E, R, F, C, S, D>(
            num_ancillas,
            forget,
            clear,
            reference,
            depth,
            start,
            actions,
            reference_depth,
            agent_depth,
            scores,
        ),
        R::spec_less(agent_depth, reference_depth),
        0 <= i < actions.len(),
    ensures
        scores.len() == actions.len(),
        scores[i] == R::spec_decimal(1, 0),
        measures::<E, R, S>(reference, start, reference_depth),
        measures::<E, R, D>(depth, state_after::<E>(start, actions), agent_depth),
{
}

/// Law: a state of a reference solution is recorded as it is seen, with its legal actions. Where
/// it is done, none has a weight. Else each has 10, 5 or 1, as the solution behind it is shallower
/// than that of the state, as deep, or deeper.
pub proof fn law_ranked_rows<
    E: Environment<Act = usize, Obs = Observation>,
    G: Fn(&E) -> (Vec<usize>, usize),
>(solve: &G, state: NodeId, row: RankedRow, i: int)
    requires
        is_row::<E, G>(solve, state, row),
        0 <= i < E::spec_actions(state).len(),
        E::spec_actions(state).no_duplicates(),
    ensures
        is_seen::<E>(state, row.obs),
        row.valid_actions@ == E::spec_actions(state),
        E::spec_done(state) ==> row.edge_visits@ == Map::<usize, usize>::empty(),
        !E::spec_done(state) ==> {
            let a = E::spec_actions(state)[i];
            &&& row.edge_visits@.contains_key(a)
            &&& exists|base: usize, depth: usize, e: &E, f: &E, p: Vec<usize>, q: Vec<usize>|
                {
                    &&& #[trigger] call_ensures(solve, (e,), (p, base))
                    &&& e.spec_hash() == state
                    &&& #[trigger] call_ensures(solve, (f,), (q, depth))
                    &&& f.spec_hash() == E::spec_next(state, a)
                    &&& row.edge_visits@[a] == (if depth < base {
                        10
                    } else if depth == base {
                        5
                    } else {
                        1int
                    })
                }
        },
{
    if !E::spec_done(state) {
        let actions = E::spec_actions(state);
        let (base, depths) = choose|base: usize, depths: Seq<usize>| #[trigger]
            are_ranks::<E, G>(solve, state, base, depths, row.edge_visits@);
        assert(crate::heuristic::is_depth::<E, G>(
            solve,
            E::spec_next(state, actions[i]),
            depths[i],
        ));
        law_every_action_is_ranked(actions, depths, base, actions.len(), i, actions[i]);
    }
}

} // verus!
