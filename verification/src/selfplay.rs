//! Self-play on token observations: moves in proportion to visits, supervised targets from a
//! reference solver, and scores for every transition.

use crate::episode::count_total;
use crate::moves::{divide_by_sum, mixed, shares, visits_for};
use crate::node::total;
use crate::observation::Action;
use crate::scalar::{
    filled, minus, one, over, plus, spec_at_most, times, zero, Binary, Scalar, Unary,
};
use std::collections::HashMap;
use vstd::prelude::*;

verus! {

/// The settings of self-play on token observations. Rewards are numbers of `R`, the weights of
/// moves numbers of `D`.
pub struct SelfPlay<R, D> {
    pub batch_size: usize,
    pub mcts_steps: usize,
    pub max_actions: usize,
    pub output_path: String,
    /// The value of a reached goal.
    pub terminal_value: R,
    /// Weight of the noise on a move.
    pub noise_strength: D,
}

/// The probability of each action in proportion to its visits; without visits all are alike.
pub open spec fn spec_proportional<D: Scalar>(visits: Seq<usize>) -> Seq<D> {
    if total(visits) == 0 {
        Seq::new(visits.len(), |i: int| over(one(), D::spec_count(visits.len() as usize)))
    } else {
        Seq::new(
            visits.len(),
            |i: int| over(D::spec_count(visits[i]), D::spec_count(total(visits) as usize)),
        )
    }
}

/// The probability of each action in proportion to its visits.
pub fn proportional<D: Scalar>(visit_counts: &Vec<usize>) -> (r: Vec<D>)
    requires
        total(visit_counts@) <= usize::MAX,
    ensures
        r@ == spec_proportional::<D>(visit_counts@),
{
    let n: usize = visit_counts.len();
    let whole: usize = count_total(visit_counts);
    if whole == 0 {
        return filled(&D::binary(Binary::Over, &D::decimal(1, 0), &D::count(n)), n);
    }
    let ghost all = spec_proportional::<D>(visit_counts@);
    let mut out: Vec<D> = Vec::with_capacity(n);
    let mut i: usize = 0;
    while i < n
        invariant
            i <= n,
            n == visit_counts@.len(),
            whole == total(visit_counts@),
            whole > 0,
            all == spec_proportional::<D>(visit_counts@),
            out@ == all.take(i as int),
        decreases n - i,
    {
        out.push(D::binary(Binary::Over, &D::count(visit_counts[i]), &D::count(whole)));
        i += 1;
        assert(out@ =~= all.take(i as int));
    }
    assert(out@ =~= all);
    out
}

/// The concentration of the noise over `n` actions: `10 / n`.
pub fn noise_alpha<D: Scalar>(n: usize) -> (r: D)
    ensures
        r == over(D::spec_decimal(10, 0), D::spec_count(n)),
{
    D::binary(Binary::Over, &D::decimal(10, 0), &D::count(n))
}

/// Whether a move is drawn without noise: all but the first three are.
pub fn noiseless(step: usize) -> (r: bool)
    ensures
        r == (step > 2),
{
    step > 2
}

impl<R: Scalar, D: Scalar> SelfPlay<R, D> {
    /// Settings with value 1 for a reached goal.
    pub fn new(
        batch_size: usize,
        mcts_steps: usize,
        max_actions: usize,
        output_path: String,
        noise_strength: D,
    ) -> (r: Self)
        ensures
            r == (SelfPlay {
                batch_size,
                mcts_steps,
                max_actions,
                output_path,
                terminal_value: one::<R>(),
                noise_strength,
            }),
    {
        SelfPlay {
            batch_size,
            mcts_steps,
            max_actions,
            output_path,
            terminal_value: R::decimal(1, 0),
            noise_strength,
        }
    }

    /// What [`SelfPlay::move_weights`] gives.
    pub open spec fn spec_move_weights(
        &self,
        edge_visits: Seq<usize>,
        ids: Seq<Action>,
        quiet: bool,
        samples: Seq<D>,
    ) -> Seq<D> {
        mixed(
            spec_proportional(visits_for(edge_visits, ids)),
            if quiet {
                Seq::new(ids.len(), |i: int| zero())
            } else {
                shares(samples)
            },
            self.noise_strength,
        )
    }

    /// The weights that a move is drawn by, one per valid action: in proportion to the visits,
    /// mixed with noise unless it is quiet. The samples are Gamma samples of [`noise_alpha`],
    /// one per action.
    pub fn move_weights(
        &self,
        edge_visits: &Vec<usize>,
        ids: &[Action],
        quiet: bool,
        samples: Vec<D>,
    ) -> (r: Vec<D>)
        requires
            !quiet ==> samples@.len() == ids@.len(),
            total(visits_for(edge_visits@, ids@)) <= usize::MAX,
        ensures
            r@ == self.spec_move_weights(edge_visits@, ids@, quiet, samples@),
    {
        let n: usize = ids.len();
        let mut visits: Vec<usize> = Vec::with_capacity(n);
        let mut i: usize = 0;
        while i < n
            invariant
                i <= n,
                n == ids.len(),
                visits@ == visits_for(edge_visits@, ids@).take(i as int),
            decreases n - i,
        {
            let slot: usize = ids[i] as usize;
            if slot < edge_visits.len() {
                visits.push(edge_visits[slot]);
            } else {
                visits.push(0);
            }
            i += 1;
            assert(visits@ =~= visits_for(edge_visits@, ids@).take(i as int));
        }
        assert(visits@ =~= visits_for(edge_visits@, ids@));
        let probs: Vec<D> = proportional(&visits);
        let noise: Vec<D> = if quiet {
            filled(&D::decimal(0, 0), n)
        } else {
            divide_by_sum(&samples)
        };
        let weight: &D = &self.noise_strength;
        let rest: D = D::binary(Binary::Minus, &D::decimal(1, 0), weight);
        let mut out: Vec<D> = Vec::with_capacity(n);
        let mut j: usize = 0;
        while j < n
            invariant
                j <= n,
                n == probs@.len(),
                n == noise@.len(),
                rest == minus(one::<D>(), *weight),
                out@ == mixed(probs@, noise@, *weight).take(j as int),
            decreases n - j,
        {
            let x: D = D::binary(
                Binary::Plus,
                &D::binary(Binary::Times, &rest, &probs[j]),
                &D::binary(Binary::Times, weight, &noise[j]),
            );
            out.push(D::binary(Binary::Max, &x, &D::decimal(0, 0)));
            j += 1;
            assert(out@ =~= mixed(probs@, noise@, *weight).take(j as int));
        }
        assert(out@ =~= mixed(probs@, noise@, *weight));
        out
    }
}

/// A weight in thousandths of a visit.
pub open spec fn spec_thousand<R: Scalar>(weight: R) -> usize {
    R::spec_to_count(times(weight, R::spec_decimal(1000, 0)))
}

/// A weight in thousandths of a visit.
fn thousand<R: Scalar>(weight: &R) -> (r: usize)
    ensures
        r == spec_thousand(*weight),
{
    R::to_count(&R::binary(Binary::Times, weight, &R::decimal(1000, 0)))
}

/// The weight of each action but the selected one, of `n`.
pub open spec fn spec_other_weight<R: Scalar>(weight_on_selected: R, n: usize) -> R {
    if n > 1 {
        over(minus(one(), weight_on_selected), minus(R::spec_count(n), one()))
    } else {
        zero()
    }
}

/// What [`supervised_edge_visits`] gives.
pub open spec fn spec_supervised_visits<R: Scalar>(
    selected_action: Action,
    valid_actions: Seq<Action>,
    weight_on_selected: R,
) -> Map<Action, usize> {
    Map::new(
        |a: Action| valid_actions.contains(a),
        |a: Action|
            if a == selected_action {
                spec_thousand(weight_on_selected)
            } else {
                spec_thousand(
                    spec_other_weight(weight_on_selected, valid_actions.len() as usize),
                )
            },
    )
}

/// Visits that stand for a weight on the selected action, and an even rest on the others: a
/// thousand in all.
pub fn supervised_edge_visits<R: Scalar>(
    selected_action: Action,
    valid_actions: &Vec<Action>,
    weight_on_selected: &R,
) -> (r: HashMap<Action, usize>)
    requires
        spec_at_most(zero(), *weight_on_selected),
        spec_at_most(*weight_on_selected, one()),
    ensures
        r@ == spec_supervised_visits(selected_action, valid_actions@, *weight_on_selected),
{
    broadcast use vstd::std_specs::hash::group_hash_axioms;

    let n: usize = valid_actions.len();
    let other: R = if n > 1 {
        R::binary(
            Binary::Over,
            &R::binary(Binary::Minus, &R::decimal(1, 0), weight_on_selected),
            &R::binary(Binary::Minus, &R::count(n), &R::decimal(1, 0)),
        )
    } else {
        R::decimal(0, 0)
    };
    let chosen: usize = thousand(weight_on_selected);
    let rest: usize = thousand(&other);
    let mut out: HashMap<Action, usize> = HashMap::new();
    let mut i: usize = 0;
    while i < n
        invariant
            i <= n,
            n == valid_actions@.len(),
            forall|a: Action|
                out@.contains_key(a) <==> exists|j: int|
                    0 <= j < i && #[trigger] valid_actions@[j] == a,
            forall|a: Action| #[trigger]
                out@.contains_key(a) ==> out@[a] == (if a == selected_action {
                    chosen
                } else {
                    rest
                }),
        decreases n - i,
    {
        let a: Action = valid_actions[i];
        out.insert(
            a,
            if a == selected_action {
                chosen
            } else {
                rest
            },
        );
        i += 1;
    }
    assert(out@ =~= Map::new(
        |a: Action| valid_actions@.contains(a),
        |a: Action|
            if a == selected_action {
                spec_thousand(*weight_on_selected)
            } else {
                spec_thousand(
                    spec_other_weight(*weight_on_selected, valid_actions@.len() as usize),
                )
            },
    ));
    out
}

/// What is known of a transition of a played game.
pub struct Transition<R> {
    /// Depth of the reference solution from the state.
    pub reference_depth: R,
    /// Depth at the end if the rest of the game is played from the state.
    pub agent_depth: R,
    /// Whether the action ends the game.
    pub finishes: bool,
}

/// The score of a transition: 1 if it ends the game, and else how far the game is ahead of the
/// reference, with a small bonus for a tie: `tanh((0.1 + reference - depth) / 2)`.
pub open spec fn spec_transition_score<R: Scalar>(t: Transition<R>) -> R {
    if t.finishes {
        one()
    } else {
        R::spec_unary(
            Unary::Tanh,
            over(
                minus(plus(R::spec_decimal(1, -1), t.reference_depth), t.agent_depth),
                R::spec_decimal(2, 0),
            ),
        )
    }
}

/// The score of a transition.
pub fn transition_score<R: Scalar>(t: &Transition<R>) -> (r: R)
    ensures
        r == spec_transition_score(*t),
{
    if t.finishes {
        return R::decimal(1, 0);
    }
    let base: R = R::binary(Binary::Plus, &R::decimal(1, -1), &t.reference_depth);
    let ahead: R = R::binary(Binary::Minus, &base, &t.agent_depth);
    R::unary(Unary::Tanh, &R::binary(Binary::Over, &ahead, &R::decimal(2, 0)))
}

/// What [`score_transitions`] gives.
pub open spec fn spec_score_transitions<R: Scalar>(
    reference_depth: R,
    agent_depth: R,
    transitions: Seq<Transition<R>>,
) -> Seq<R> {
    if R::spec_less(agent_depth, reference_depth) {
        Seq::new(transitions.len(), |i: int| one())
    } else {
        Seq::new(transitions.len(), |i: int| spec_transition_score(transitions[i]))
    }
}

/// The scores of the transitions of a game, by the depths of the reference and of the game from
/// the start. A game that beats the reference has 1 everywhere.
pub fn score_transitions<R: Scalar>(
    reference_depth: &R,
    agent_depth: &R,
    transitions: &Vec<Transition<R>>,
) -> (r: Vec<R>)
    ensures
        r@ == spec_score_transitions(*reference_depth, *agent_depth, transitions@),
{
    let n: usize = transitions.len();
    if R::less(agent_depth, reference_depth) {
        return filled(&R::decimal(1, 0), n);
    }
    let ghost all = spec_score_transitions(*reference_depth, *agent_depth, transitions@);
    let mut out: Vec<R> = Vec::with_capacity(n);
    let mut i: usize = 0;
    while i < n
        invariant
            i <= n,
            n == transitions@.len(),
            !R::spec_less(*agent_depth, *reference_depth),
            all == spec_score_transitions(*reference_depth, *agent_depth, transitions@),
            out@ == all.take(i as int),
        decreases n - i,
    {
        out.push(transition_score(&transitions[i]));
        i += 1;
        assert(out@ =~= all.take(i as int));
    }
    assert(out@ =~= all);
    out
}

/// Whether a state has to be cleared of its resources before the reference solver can move: the
/// first action is not valid, and none past the ancillas is.
pub open spec fn spec_needs_clearing(valid_actions: Seq<Action>, num_ancillas: usize) -> bool {
    !valid_actions.contains(0u16) && forall|i: int|
        0 <= i < valid_actions.len() ==> #[trigger] valid_actions[i] <= num_ancillas
}

/// Whether a state has to be cleared of its resources before the reference solver can move.
pub fn needs_clearing(valid_actions: &Vec<Action>, num_ancillas: usize) -> (r: bool)
    ensures
        r == spec_needs_clearing(valid_actions@, num_ancillas),
{
    let mut i: usize = 0;
    while i < valid_actions.len()
        invariant
            i <= valid_actions@.len(),
            forall|j: int|
                0 <= j < i ==> 0 < #[trigger] valid_actions@[j] <= num_ancillas,
        decreases valid_actions.len() - i,
    {
        if valid_actions[i] == 0 || valid_actions[i] as usize > num_ancillas {
            proof {
                if valid_actions@[i as int] == 0 {
                    assert(valid_actions@.contains(0u16));
                }
            }
            return false;
        }
        i += 1;
    }
    true
}

/// The two sides of a grid, the shorter one first.
pub fn oriented(a: usize, b: usize) -> (r: (usize, usize))
    ensures
        r == (if a <= b {
            (a, b)
        } else {
            (b, a)
        }),
{
    if a <= b {
        (a, b)
    } else {
        (b, a)
    }
}

/// The places of set flags, in order.
pub open spec fn places_of(flags: Seq<bool>, k: nat) -> Seq<usize>
    decreases k,
{
    if k == 0 {
        Seq::empty()
    } else if flags[k - 1] {
        places_of(flags, (k - 1) as nat).push((k - 1) as usize)
    } else {
        places_of(flags, (k - 1) as nat)
    }
}

/// The places of set flags, in order.
pub fn ancilla_places(is_ancilla: &[bool]) -> (r: Vec<usize>)
    ensures
        r@ == places_of(is_ancilla@, is_ancilla@.len()),
        forall|i: int| 0 <= i < r@.len() ==> #[trigger] r@[i] < is_ancilla@.len(),
{
    let mut out: Vec<usize> = Vec::new();
    let mut i: usize = 0;
    while i < is_ancilla.len()
        invariant
            i <= is_ancilla@.len(),
            out@ == places_of(is_ancilla@, i as nat),
            forall|k: int| 0 <= k < out@.len() ==> #[trigger] out@[k] < i,
        decreases is_ancilla.len() - i,
    {
        if is_ancilla[i] {
            out.push(i);
        }
        i += 1;
    }
    out
}

/// What [`shuffled_layout`] gives: `n` places in order, but at each place of `places` the place
/// of `shuffled` with its number.
pub open spec fn spec_shuffled(n: nat, places: Seq<usize>, shuffled: Seq<usize>, k: nat) -> Seq<
    usize,
>
    decreases k,
{
    if k == 0 {
        Seq::new(n, |i: int| i as usize)
    } else {
        spec_shuffled(n, places, shuffled, (k - 1) as nat).update(
            places[k - 1] as int,
            shuffled[k - 1],
        )
    }
}

/// For each of `n` places the place whose content it gets, when the contents of `places` are
/// rearranged to the order `shuffled`.
pub fn shuffled_layout(n: usize, places: &Vec<usize>, shuffled: &Vec<usize>) -> (r: Vec<usize>)
    requires
        shuffled@.len() == places@.len(),
        forall|i: int| 0 <= i < places@.len() ==> #[trigger] places@[i] < n,
    ensures
        r@ == spec_shuffled(n as nat, places@, shuffled@, places@.len()),
{
    let mut out: Vec<usize> = Vec::with_capacity(n);
    let mut i: usize = 0;
    while i < n
        invariant
            i <= n,
            out@ == Seq::new(i as nat, |k: int| k as usize),
        decreases n - i,
    {
        out.push(i);
        i += 1;
        assert(out@ =~= Seq::new(i as nat, |k: int| k as usize));
    }
    let mut k: usize = 0;
    while k < places.len()
        invariant
            k <= places@.len(),
            shuffled@.len() == places@.len(),
            forall|i: int| 0 <= i < places@.len() ==> #[trigger] places@[i] < n,
            out@.len() == n,
            out@ == spec_shuffled(n as nat, places@, shuffled@, k as nat),
        decreases places.len() - k,
    {
        out.set(places[k], shuffled[k]);
        k += 1;
    }
    out
}

/// What a shuffled layout has at each place.
proof fn lemma_shuffled_at(n: nat, places: Seq<usize>, shuffled: Seq<usize>, k: nat)
    requires
        k <= places.len(),
        shuffled.len() == places.len(),
        places.no_duplicates(),
        forall|i: int| 0 <= i < places.len() ==> #[trigger] places[i] < n,
    ensures
        spec_shuffled(n, places, shuffled, k).len() == n,
        forall|i: int|
            0 <= i < k ==> spec_shuffled(n, places, shuffled, k)[#[trigger] places[i] as int]
                == shuffled[i],
        forall|p: int|
            0 <= p < n && !places.take(k as int).contains(p as usize) ==> #[trigger] spec_shuffled(
                n,
                places,
                shuffled,
                k,
            )[p] == p as usize,
    decreases k,
{
    if k > 0 {
        let j = (k - 1) as nat;
        lemma_shuffled_at(n, places, shuffled, j);
        let before = spec_shuffled(n, places, shuffled, j);
        let after = spec_shuffled(n, places, shuffled, k);
        assert forall|i: int| 0 <= i < k implies after[#[trigger] places[i] as int]
            == shuffled[i] by {
            if i < j {
                assert(places[i] != places[j as int]);
            }
        }
        assert forall|p: int|
            0 <= p < n && !places.take(k as int).contains(p as usize) implies #[trigger] after[p]
            == p as usize by {
            assert(places.take(k as int)[j as int] == places[j as int]);
            assert(p as usize != places[j as int]);
            assert(!places.take(j as int).contains(p as usize)) by {
                if places.take(j as int).contains(p as usize) {
                    let i = choose|i: int|
                        0 <= i < j && places.take(j as int)[i] == p as usize;
                    assert(places.take(k as int)[i] == p as usize);
                }
            }
            assert(before[p] == p as usize);
        }
    }
}

/// Law: a shuffle of some places moves nothing else, and uses no content twice.
pub proof fn law_shuffle_keeps_contents(n: nat, places: Seq<usize>, shuffled: Seq<usize>)
    requires
        n <= usize::MAX,
        shuffled.len() == places.len(),
        places.no_duplicates(),
        shuffled.no_duplicates(),
        places.to_set() == shuffled.to_set(),
        forall|i: int| 0 <= i < places.len() ==> #[trigger] places[i] < n,
    ensures
        ({
            let layout = spec_shuffled(n, places, shuffled, places.len());
            &&& layout.len() == n
            &&& layout.no_duplicates()
            &&& forall|p: int|
                0 <= p < n && !places.contains(p as usize) ==> #[trigger] layout[p] == p as usize
        }),
{
    let layout = spec_shuffled(n, places, shuffled, places.len());
    lemma_shuffled_at(n, places, shuffled, places.len());
    assert(places.take(places.len() as int) =~= places);
    assert forall|p: int, q: int| 0 <= p < q < n implies layout[p] != layout[q] by {
        let mp = places.contains(p as usize);
        let mq = places.contains(q as usize);
        if mp {
            let i = choose|i: int| 0 <= i < places.len() && places[i] == p as usize;
            assert(layout[places[i] as int] == shuffled[i]);
            assert(shuffled.contains(shuffled[i]));
            assert(shuffled.to_set().contains(shuffled[i]));
            assert(places.to_set().contains(shuffled[i]));
            if mq {
                let j = choose|j: int| 0 <= j < places.len() && places[j] == q as usize;
                assert(layout[places[j] as int] == shuffled[j]);
                assert(i != j);
            } else {
                assert(layout[q] == q as usize);
            }
        } else if mq {
            let j = choose|j: int| 0 <= j < places.len() && places[j] == q as usize;
            assert(layout[places[j] as int] == shuffled[j]);
            assert(shuffled.to_set().contains(shuffled[j]));
            assert(places.to_set().contains(shuffled[j]));
            assert(layout[p] == p as usize);
        } else {
            assert(layout[p] == p as usize);
            assert(layout[q] == q as usize);
        }
    }
}

/// The reward of a game against a reference: -1 without a solution or with a deeper one, 0 for a
/// tie, 1 for a shallower one.
pub open spec fn spec_outcome_reward<R: Scalar>(
    done: bool,
    solution_depth: usize,
    reference_depth: usize,
) -> R {
    if !done || solution_depth > reference_depth {
        R::spec_decimal(-1, 0)
    } else if solution_depth == reference_depth {
        zero()
    } else {
        one()
    }
}

/// The reward of a game against a reference.
pub fn outcome_reward<R: Scalar>(
    done: bool,
    solution_depth: usize,
    reference_depth: usize,
) -> (r: R)
    ensures
        r == spec_outcome_reward::<R>(done, solution_depth, reference_depth),
{
    if !done || solution_depth > reference_depth {
        R::decimal(-1, 0)
    } else if solution_depth == reference_depth {
        R::decimal(0, 0)
    } else {
        R::decimal(1, 0)
    }
}

} // verus!
