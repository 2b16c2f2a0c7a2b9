//! How moves are drawn: what their probabilities do with visits, temperature and noise.

use crate::gatherer::Gatherer;
use crate::moves::{
    log_counts, occurrences, peak, shifted_exps, spec_action_probabilities, spec_dirichlet_alpha,
    spec_dirichlet_noise, top_count,
};
use crate::node::{lemma_total_bounds, total};
use crate::scalar::{minus, over, plus, spec_sum, times, Binary, Convert, Scalar, Unary};
use crate::tilers_obs::Action;
use vstd::prelude::*;

verus! {

/// A sum of numbers, as a fold from the left.
pub proof fn lemma_sum_folds<D: Scalar>(s: Seq<D>)
    ensures
        spec_sum(s) == s.fold_left(D::spec_decimal(0, 0), |sum: D, x: D| plus(sum, x)),
    decreases s.len(),
{
    if s.len() > 0 {
        lemma_sum_folds(s.drop_last());
    }
}

proof fn lemma_peak_folds<D: Scalar>(s: Seq<D>)
    ensures
        peak(s) == s.fold_left(
            D::spec_infinity(false),
            |top: D, x: D| D::spec_binary(Binary::Max, top, x),
        ),
    decreases s.len(),
{
    if s.len() > 0 {
        lemma_peak_folds(s.drop_last());
    }
}

proof fn lemma_top_count(s: Seq<usize>, i: int)
    requires
        0 <= i < s.len(),
    ensures
        s[i] <= top_count(s),
        s.contains(top_count(s)),
    decreases s.len(),
{
    reveal_with_fuel(top_count, 2);
    let before = s.drop_last();
    if before.len() > 0 {
        lemma_top_count(before, if i < before.len() {
            i
        } else {
            0
        });
        let k = choose|k: int| 0 <= k < before.len() && before[k] == top_count(before);
        assert(s[k] == top_count(before));
    }
    assert(s[s.len() - 1] == s.last());
    if top_count(s) == s.last() {
        assert(s.contains(s[s.len() - 1]));
    }
}

proof fn lemma_occurrences(s: Seq<usize>, c: usize, is_it: spec_fn(usize) -> bool)
    requires
        forall|x: usize| #[trigger] is_it(x) == (x == c),
    ensures
        occurrences(s, c) == s.filter(is_it).len(),
    decreases s.len(),
{
    reveal(Seq::filter);
    if s.len() > 0 {
        lemma_occurrences(s.drop_last(), c, is_it);
    }
}

proof fn lemma_no_visits(s: Seq<usize>)
    requires
        forall|i: int| 0 <= i < s.len() ==> #[trigger] s[i] == 0,
    ensures
        total(s) == 0,
    decreases s.len(),
{
    if s.len() > 0 {
        assert forall|i: int| 0 <= i < s.len() - 1 implies #[trigger] s.drop_last()[i] == 0 by {
            assert(s[i] == 0);
        }
        lemma_no_visits(s.drop_last());
        assert(s[s.len() - 1] == 0);
    }
}

/// Law: without visits every action is as likely as any other, at any temperature.
pub proof fn law_unvisited_actions_are_alike<D: Scalar>(visits: Seq<usize>, t: D, i: int)
    requires
        0 <= i < visits.len(),
        forall|k: int| 0 <= k < visits.len() ==> #[trigger] visits[k] == 0,
    ensures
        spec_action_probabilities(visits, t).len() == visits.len(),
        spec_action_probabilities(visits, t)[i] == over(
            D::spec_decimal(1, 0),
            D::spec_count(visits.len() as usize),
        ),
{
    lemma_no_visits(visits);
}

/// Law: near temperature 0 the actions with the most visits share everything equally, and no other
/// action is played.
pub proof fn law_cold_move_takes_most_visited<D: Scalar>(
    visits: Seq<usize>,
    t: D,
    i: int,
    most: int,
)
    requires
        0 <= i < visits.len(),
        0 <= most < visits.len(),
        visits[most] > 0,
        forall|k: int| 0 <= k < visits.len() ==> #[trigger] visits[k] <= visits[most],
        D::spec_less(t, D::spec_decimal(1, -8)),
    ensures
        ({
            let probs = spec_action_probabilities(visits, t);
            let ties = visits.filter(|x: usize| x == visits[most]).len();
            &&& probs.len() == visits.len()
            &&& visits[i] == visits[most] ==> probs[i] == over(
                D::spec_decimal(1, 0),
                D::spec_count(ties as usize),
            )
            &&& visits[i] < visits[most] ==> probs[i] == D::spec_decimal(0, 0)
        }),
{
    lemma_total_bounds(visits, most);
    lemma_top_count(visits, most);
    let k = choose|k: int| 0 <= k < visits.len() && visits[k] == top_count(visits);
    assert(visits[k] <= visits[most]);
    lemma_occurrences(visits, visits[most], |x: usize| x == visits[most]);
}

/// Law: otherwise an action is as likely as its visits to the power of one over the temperature,
/// against those of all actions. It is computed by logarithms, less the largest of them, and an
/// action without visits counts with minus infinity.
pub proof fn law_warm_move_follows_visits<D: Scalar>(visits: Seq<usize>, t: D, i: int, some: int)
    requires
        0 <= i < visits.len(),
        0 <= some < visits.len(),
        visits[some] > 0,
        !D::spec_less(t, D::spec_decimal(1, -8)),
    ensures
        ({
            let probs = spec_action_probabilities(visits, t);
            let logs = Seq::new(
                visits.len(),
                |k: int|
                    if visits[k] == 0 {
                        D::spec_infinity(false)
                    } else {
                        times(
                            D::spec_unary(Unary::Ln, D::spec_count(visits[k])),
                            over(D::spec_decimal(1, 0), t),
                        )
                    },
            );
            let top = logs.fold_left(
                D::spec_infinity(false),
                |top: D, x: D| D::spec_binary(Binary::Max, top, x),
            );
            let exps = Seq::new(
                visits.len(),
                |k: int| D::spec_unary(Unary::Exp, minus(logs[k], top)),
            );
            let all = exps.fold_left(D::spec_decimal(0, 0), |sum: D, x: D| plus(sum, x));
            &&& probs.len() == visits.len()
            &&& probs[i] == over(exps[i], all)
        }),
{
    lemma_total_bounds(visits, some);
    let logs = Seq::new(
        visits.len(),
        |k: int|
            if visits[k] == 0 {
                D::spec_infinity(false)
            } else {
                times(
                    D::spec_unary(Unary::Ln, D::spec_count(visits[k])),
                    over(D::spec_decimal(1, 0), t),
                )
            },
    );
    assert(logs =~= log_counts(visits, t));
    lemma_peak_folds(logs);
    let exps = Seq::new(
        visits.len(),
        |k: int| D::spec_unary(Unary::Exp, minus(logs[k], peak(logs))),
    );
    assert(exps =~= shifted_exps(logs));
    lemma_sum_folds(exps);
}

/// Law: of two visited actions the one with more visits is no less likely at a temperature that is
/// not near 0, where a larger count has no smaller logarithm, and what follows keeps that order.
pub proof fn law_more_visits_are_no_less_likely<D: Scalar>(
    visits: Seq<usize>,
    t: D,
    few: int,
    many: int,
)
    requires
        0 <= few < visits.len(),
        0 <= many < visits.len(),
        0 < visits[few] <= visits[many],
        !D::spec_less(t, D::spec_decimal(1, -8)),
        forall|m: usize, n: usize|
            m <= n ==> !#[trigger] D::spec_less(
                D::spec_unary(Unary::Ln, D::spec_count(n)),
                D::spec_unary(Unary::Ln, D::spec_count(m)),
            ),
        forall|x: D, y: D, z: D|
            !D::spec_less(y, x) && z == over(D::spec_decimal(1, 0), t) ==> !#[trigger] D::spec_less(
                times(y, z),
                times(x, z),
            ),
        forall|x: D, y: D, z: D|
            !D::spec_less(y, x) ==> !#[trigger] D::spec_less(minus(y, z), minus(x, z)),
        forall|x: D, y: D|
            !D::spec_less(y, x) ==> !#[trigger] D::spec_less(
                D::spec_unary(Unary::Exp, y),
                D::spec_unary(Unary::Exp, x),
            ),
        forall|x: D, y: D, s: Seq<D>|
            !D::spec_less(y, x) ==> !#[trigger] D::spec_less(
                over(y, spec_sum(s)),
                over(x, spec_sum(s)),
            ),
    ensures
        !D::spec_less(
            spec_action_probabilities(visits, t)[many],
            spec_action_probabilities(visits, t)[few],
        ),
{
    lemma_total_bounds(visits, few);
    let z = over(D::spec_decimal(1, 0), t);
    let x = D::spec_unary(Unary::Ln, D::spec_count(visits[few]));
    let y = D::spec_unary(Unary::Ln, D::spec_count(visits[many]));
    assert(!D::spec_less(y, x));
    assert(!D::spec_less(times(y, z), times(x, z)));
    let logs = log_counts(visits, t);
    assert(logs[few] == times(x, z));
    assert(logs[many] == times(y, z));
    let p = peak(logs);
    assert(!D::spec_less(minus(logs[many], p), minus(logs[few], p)));
    let exps = shifted_exps(logs);
    assert(!D::spec_less(exps[many], exps[few]));
    assert(!D::spec_less(over(exps[many], spec_sum(exps)), over(exps[few], spec_sum(exps))));
}

/// Law: noise is made of samples by dividing each by their sum, unless the sum is not positive.
pub proof fn law_noise_is_normalized<D: Scalar>(samples: Seq<D>, i: int)
    requires
        0 <= i < samples.len(),
    ensures
        ({
            let whole = samples.fold_left(D::spec_decimal(0, 0), |sum: D, x: D| plus(sum, x));
            let noise = spec_dirichlet_noise(samples);
            &&& noise.len() == samples.len()
            &&& D::spec_less(D::spec_decimal(0, 0), whole) ==> noise[i] == over(samples[i], whole)
            &&& !D::spec_less(D::spec_decimal(0, 0), whole) ==> noise[i] == samples[i]
        }),
{
    lemma_sum_folds(samples);
}

/// Law: the concentration of the noise over `n` actions is ten over `n`, and at most a half.
pub proof fn law_concentration<D: Scalar>(n: usize)
    ensures
        spec_dirichlet_alpha::<D>(n) == D::spec_binary(
            Binary::Min,
            over(D::spec_decimal(10, 0), D::spec_count(n)),
            D::spec_decimal(5, -1),
        ),
{
}

/// Law: the temperature of a move falls from 1 to 0.1 with the steps, and is the one for deep play
/// from its step on, if that is positive.
pub proof fn law_temperature_falls<R: Convert<D>, D: Scalar>(g: &Gatherer<R, D>, step: usize)
    ensures
        ({
            let t = g.spec_move_temperature(step);
            let deep = R::spec_less(R::spec_decimal(0, 0), g.deep_play_temp);
            &&& deep && step >= g.deep_play_after ==> t == g.deep_play_temp.spec_convert()
            &&& !deep || step < g.deep_play_after ==> t == plus(
                D::spec_decimal(1, -1),
                times(
                    D::spec_decimal(9, -1),
                    D::spec_unary(Unary::Exp, times(D::spec_decimal(-5, -1), D::spec_count(step))),
                ),
            )
        }),
{
}

/// Law: the weight of the noise on a move starts from its strength and falls with the steps as the
/// temperature does.
pub proof fn law_noise_falls<R: Convert<D>, D: Scalar>(g: &Gatherer<R, D>, step: usize)
    ensures
        g.spec_move_noise(step) == times(
            g.noise_strength,
            D::spec_unary(Unary::Exp, times(D::spec_decimal(-5, -1), D::spec_count(step))),
        ),
{
}

/// Law: a move is drawn by the probability that its visits give it, with the noise blended in by
/// its weight, and never below 0. An action that the node has no slot for has no visits, and
/// without a positive weight the noise is 0.
pub proof fn law_move_blends_noise<R: Convert<D>, D: Scalar>(
    g: &Gatherer<R, D>,
    edge_visits: Seq<usize>,
    ids: Seq<Action>,
    step: usize,
    samples: Seq<D>,
    i: int,
)
    requires
        0 <= i < ids.len(),
    ensures
        ({
            let weights = g.spec_move_weights(edge_visits, ids, step, samples);
            let visits = Seq::new(
                ids.len(),
                |k: int|
                    if ids[k] < edge_visits.len() {
                        edge_visits[ids[k] as int]
                    } else {
                        0
                    },
            );
            let weight = g.spec_move_noise(step);
            let noise = if D::spec_less(D::spec_decimal(0, 0), weight) {
                spec_dirichlet_noise(samples)[i]
            } else {
                D::spec_decimal(0, 0)
            };
            &&& weights.len() == ids.len()
            &&& weights[i] == D::spec_binary(
                Binary::Max,
                plus(
                    times(
                        minus(D::spec_decimal(1, 0), weight),
                        spec_action_probabilities(visits, g.spec_move_temperature(step))[i],
                    ),
                    times(weight, noise),
                ),
                D::spec_decimal(0, 0),
            )
        }),
{
    let visits = Seq::new(
        ids.len(),
        |k: int|
            if ids[k] < edge_visits.len() {
                edge_visits[ids[k] as int]
            } else {
                0
            },
    );
    assert(visits =~= crate::moves::visits_for(edge_visits, ids));
}

/// Law: the budget of an episode is the fixed one, if there is one. Otherwise it is the multiple of
/// the actions of the reference, rounded up, and 2 more, so it is never below 2.
pub proof fn law_budget<R: Scalar, D: Scalar>(g: &Gatherer<R, D>, reference_actions: usize)
    ensures
        g.max_actions is Some ==> g.spec_action_budget(reference_actions) == g.max_actions->0,
        g.max_actions is None ==> g.spec_action_budget(reference_actions) == R::spec_to_count(
            R::spec_unary(
                Unary::Ceil,
                times(R::spec_count(reference_actions), g.max_action_multiplier),
            ),
        ) + 2,
{
}

/// Law: resignation can start at the multiple of the depth of the reference, rounded up, and not
/// before step 20; without a positive multiple it can start at once.
pub proof fn law_resignation_waits<R: Scalar, D: Scalar>(g: &Gatherer<R, D>, depth: R)
    ensures
        R::spec_less(R::spec_decimal(0, 0), g.resign_min_step_ref_mult) ==> g.spec_resign_floor(
            depth,
        ) == R::spec_to_count(
            R::spec_binary(
                Binary::Max,
                R::spec_unary(Unary::Ceil, times(g.resign_min_step_ref_mult, depth)),
                R::spec_decimal(20, 0),
            ),
        ),
        !R::spec_less(R::spec_decimal(0, 0), g.resign_min_step_ref_mult) ==> g.spec_resign_floor(
            depth,
        ) == 0,
{
}

} // verus!
