//! How a move is drawn: probabilities from visit counts at a temperature, mixed with noise.

use crate::gatherer::Gatherer;
use crate::node::{lemma_total_bounds, total, Node};
use crate::scalar::{
    filled, larger, minus, one, over, plus, smaller, spec_sum, sum, times, zero, Binary, Convert,
    Scalar, Unary,
};
use crate::tilers_obs::Action;
use vstd::prelude::*;

verus! {

/// The largest of some counts, 0 if there are none.
pub open spec fn top_count(s: Seq<usize>) -> usize
    decreases s.len(),
{
    if s.len() == 0 {
        0
    } else if top_count(s.drop_last()) < s.last() {
        s.last()
    } else {
        top_count(s.drop_last())
    }
}

/// How often a count occurs.
pub open spec fn occurrences(s: Seq<usize>, c: usize) -> nat
    decreases s.len(),
{
    if s.len() == 0 {
        0
    } else {
        occurrences(s.drop_last(), c) + if s.last() == c {
            1nat
        } else {
            0nat
        }
    }
}

/// The largest of some numbers, from minus infinity on.
pub open spec fn peak<D: Scalar>(s: Seq<D>) -> D
    decreases s.len(),
{
    if s.len() == 0 {
        D::spec_infinity(false)
    } else {
        larger(peak(s.drop_last()), s.last())
    }
}

/// The logarithm of a count over the temperature; minus infinity for 0.
pub open spec fn log_count<D: Scalar>(c: usize, temperature: D) -> D {
    if c > 0 {
        times(D::spec_unary(Unary::Ln, D::spec_count(c)), over(one(), temperature))
    } else {
        D::spec_infinity(false)
    }
}

/// The logarithms of some counts over the temperature.
pub open spec fn log_counts<D: Scalar>(visits: Seq<usize>, temperature: D) -> Seq<D> {
    Seq::new(visits.len(), |i: int| log_count(visits[i], temperature))
}

/// The exponentials of some numbers, each less the largest of them.
pub open spec fn shifted_exps<D: Scalar>(logs: Seq<D>) -> Seq<D> {
    Seq::new(logs.len(), |i: int| D::spec_unary(Unary::Exp, minus(logs[i], peak(logs))))
}

/// Numbers divided by their sum.
pub open spec fn shares<D: Scalar>(s: Seq<D>) -> Seq<D> {
    Seq::new(s.len(), |i: int| over(s[i], spec_sum(s)))
}

/// What [`action_probabilities`] gives.
pub open spec fn spec_action_probabilities<D: Scalar>(
    visits: Seq<usize>,
    temperature: D,
) -> Seq<D> {
    if total(visits) == 0 {
        Seq::new(visits.len(), |i: int| over(one(), D::spec_count(visits.len() as usize)))
    } else if D::spec_less(temperature, D::spec_decimal(1, -8)) {
        Seq::new(
            visits.len(),
            |i: int|
                if visits[i] == top_count(visits) {
                    over(one(), D::spec_count(occurrences(visits, top_count(visits)) as usize))
                } else {
                    zero()
                },
        )
    } else {
        shares(shifted_exps(log_counts(visits, temperature)))
    }
}

/// The concentration of the noise over `n` actions: `min(10 / n, 0.5)`.
pub open spec fn spec_dirichlet_alpha<D: Scalar>(n: usize) -> D {
    smaller(over(D::spec_decimal(10, 0), D::spec_count(n)), D::spec_decimal(5, -1))
}

/// The concentration of the noise over `n` actions.
pub fn dirichlet_alpha<D: Scalar>(n: usize) -> (r: D)
    ensures
        r == spec_dirichlet_alpha::<D>(n),
{
    D::binary(
        Binary::Min,
        &D::binary(Binary::Over, &D::decimal(10, 0), &D::count(n)),
        &D::decimal(5, -1),
    )
}

/// What [`dirichlet_noise`] gives.
pub open spec fn spec_dirichlet_noise<D: Scalar>(samples: Seq<D>) -> Seq<D> {
    if D::spec_less(zero(), spec_sum(samples)) {
        shares(samples)
    } else {
        samples
    }
}

/// Divides numbers by their sum.
pub fn divide_by_sum<D: Scalar>(s: &Vec<D>) -> (r: Vec<D>)
    ensures
        r@ == shares(s@),
{
    let whole: D = sum(s);
    let mut out: Vec<D> = Vec::with_capacity(s.len());
    let mut i: usize = 0;
    while i < s.len()
        invariant
            i <= s.len(),
            whole == spec_sum(s@),
            out@ == shares(s@).take(i as int),
        decreases s.len() - i,
    {
        out.push(D::binary(Binary::Over, &s[i], &whole));
        i += 1;
        assert(out@ =~= shares(s@).take(i as int));
    }
    assert(out@ =~= shares(s@));
    out
}

/// Noise over the actions: Gamma samples of [`dirichlet_alpha`], one per action, scaled to sum
/// up to 1. Samples whose sum is not positive stay as they are.
pub fn dirichlet_noise<D: Scalar>(samples: Vec<D>) -> (r: Vec<D>)
    ensures
        r@ == spec_dirichlet_noise(samples@),
{
    if D::less(&D::decimal(0, 0), &sum(&samples)) {
        divide_by_sum(&samples)
    } else {
        samples
    }
}

/// The largest count and how often it occurs.
fn top_counts(visits: &[usize]) -> (r: (usize, usize))
    ensures
        r.0 == top_count(visits@),
        r.1 == occurrences(visits@, r.0),
{
    let mut top: usize = 0;
    let mut i: usize = 0;
    assert(visits@.take(0).len() == 0);
    while i < visits.len()
        invariant
            i <= visits.len(),
            top == top_count(visits@.take(i as int)),
        decreases visits.len() - i,
    {
        assert(visits@.take(i + 1).drop_last() =~= visits@.take(i as int));
        if top < visits[i] {
            top = visits[i];
        }
        i += 1;
    }
    let mut n: usize = 0;
    let mut j: usize = 0;
    while j < visits.len()
        invariant
            j <= visits.len(),
            n <= j,
            n == occurrences(visits@.take(j as int), top),
        decreases visits.len() - j,
    {
        assert(visits@.take(j + 1).drop_last() =~= visits@.take(j as int));
        if visits[j] == top {
            n += 1;
        }
        j += 1;
    }
    assert(visits@.take(visits@.len() as int) =~= visits@);
    (top, n)
}

/// Whether all counts are 0.
fn no_visits(visits: &[usize]) -> (r: bool)
    ensures
        r == (total(visits@) == 0),
{
    let mut i: usize = 0;
    assert(visits@.take(0).len() == 0);
    while i < visits.len()
        invariant
            i <= visits.len(),
            total(visits@.take(i as int)) == 0,
        decreases visits.len() - i,
    {
        assert(visits@.take(i + 1).drop_last() =~= visits@.take(i as int));
        if visits[i] > 0 {
            proof {
                lemma_total_bounds(visits@, i as int);
            }
            return false;
        }
        i += 1;
    }
    assert(visits@.take(visits@.len() as int) =~= visits@);
    true
}

/// The exponentials of the logarithms of counts, less the largest.
fn visit_exps<D: Scalar>(visits: &[usize], temperature: &D) -> (r: Vec<D>)
    ensures
        r@ == shifted_exps(log_counts(visits@, *temperature)),
{
    let inverse: D = D::binary(Binary::Over, &D::decimal(1, 0), temperature);
    let ghost all = log_counts(visits@, *temperature);
    let mut logs: Vec<D> = Vec::with_capacity(visits.len());
    let mut top: D = D::infinity(false);
    let mut i: usize = 0;
    assert(all.take(0).len() == 0);
    while i < visits.len()
        invariant
            i <= visits.len(),
            inverse == over(one::<D>(), *temperature),
            all == log_counts(visits@, *temperature),
            logs@ == all.take(i as int),
            top == peak(all.take(i as int)),
        decreases visits.len() - i,
    {
        let l: D = if visits[i] > 0 {
            D::binary(Binary::Times, &D::unary(Unary::Ln, &D::count(visits[i])), &inverse)
        } else {
            D::infinity(false)
        };
        assert(l == all[i as int]);
        assert(all.take(i + 1).drop_last() =~= all.take(i as int));
        top = D::binary(Binary::Max, &top, &l);
        logs.push(l);
        i += 1;
        assert(logs@ =~= all.take(i as int));
    }
    assert(all.take(i as int) =~= all);
    let mut out: Vec<D> = Vec::with_capacity(logs.len());
    let mut j: usize = 0;
    while j < logs.len()
        invariant
            j <= logs.len(),
            logs@ == all,
            top == peak(all),
            out@ == shifted_exps(all).take(j as int),
        decreases logs.len() - j,
    {
        out.push(D::unary(Unary::Exp, &D::binary(Binary::Minus, &logs[j], &top)));
        j += 1;
        assert(out@ =~= shifted_exps(all).take(j as int));
    }
    assert(out@ =~= shifted_exps(all));
    out
}

/// The probability of each action by its visits, to the power of one over the temperature.
/// Without visits all are alike; near temperature 0 the most visited actions share everything.
pub fn action_probabilities<D: Scalar>(visit_counts: &[usize], temperature: D) -> (r: Vec<D>)
    ensures
        r@ == spec_action_probabilities(visit_counts@, temperature),
{
    let n: usize = visit_counts.len();
    if no_visits(visit_counts) {
        return filled(&D::binary(Binary::Over, &D::decimal(1, 0), &D::count(n)), n);
    }
    if D::less(&temperature, &D::decimal(1, -8)) {
        let (top, ties) = top_counts(visit_counts);
        let share: D = D::binary(Binary::Over, &D::decimal(1, 0), &D::count(ties));
        let ghost all = spec_action_probabilities(visit_counts@, temperature);
        let mut out: Vec<D> = Vec::with_capacity(n);
        let mut i: usize = 0;
        while i < n
            invariant
                i <= n,
                n == visit_counts.len(),
                top == top_count(visit_counts@),
                ties == occurrences(visit_counts@, top),
                share == over(one::<D>(), D::spec_count(ties)),
                total(visit_counts@) != 0,
                D::spec_less(temperature, D::spec_decimal(1, -8)),
                all == spec_action_probabilities(visit_counts@, temperature),
                out@ == all.take(i as int),
            decreases n - i,
        {
            if visit_counts[i] == top {
                out.push(share.dup());
            } else {
                out.push(D::decimal(0, 0));
            }
            i += 1;
            assert(out@ =~= all.take(i as int));
        }
        assert(out@ =~= all);
        return out;
    }
    divide_by_sum(&visit_exps(visit_counts, &temperature))
}

/// How far the exploration has decayed at a step: `exp(-0.5 * step)`.
pub open spec fn spec_decay<D: Scalar>(step: usize) -> D {
    D::spec_unary(Unary::Exp, times(D::spec_decimal(-5, -1), D::spec_count(step)))
}

/// How far the exploration has decayed at a step.
fn decay<D: Scalar>(step: usize) -> (r: D)
    ensures
        r == spec_decay::<D>(step),
{
    D::unary(Unary::Exp, &D::binary(Binary::Times, &D::decimal(-5, -1), &D::count(step)))
}

/// The visits of some actions, 0 where the node has no slot.
pub open spec fn visits_for(edge_visits: Seq<usize>, ids: Seq<Action>) -> Seq<usize> {
    Seq::new(
        ids.len(),
        |i: int|
            if ids[i] < edge_visits.len() {
                edge_visits[ids[i] as int]
            } else {
                0
            },
    )
}

/// Probabilities mixed with noise of a weight, cut off at 0.
pub open spec fn mixed<D: Scalar>(probs: Seq<D>, noise: Seq<D>, weight: D) -> Seq<D> {
    Seq::new(
        probs.len(),
        |i: int|
            larger(
                plus(times(minus(one(), weight), probs[i]), times(weight, noise[i])),
                zero(),
            ),
    )
}

impl<R: Convert<D>, D: Scalar> Gatherer<R, D> {
    /// What [`Gatherer::move_temperature`] gives.
    pub open spec fn spec_move_temperature(&self, step: usize) -> D {
        if R::spec_less(zero(), self.deep_play_temp) && step >= self.deep_play_after {
            self.deep_play_temp.spec_convert()
        } else {
            plus(
                D::spec_decimal(1, -1),
                times(D::spec_decimal(9, -1), spec_decay(step)),
            )
        }
    }

    /// The temperature of a move: `0.1 + 0.9 * exp(-0.5 * step)`, or the one for deep play.
    pub fn move_temperature(&self, step: usize) -> (r: D)
        ensures
            r == self.spec_move_temperature(step),
    {
        if R::less(&R::decimal(0, 0), &self.deep_play_temp) && step >= self.deep_play_after {
            self.deep_play_temp.convert()
        } else {
            D::binary(
                Binary::Plus,
                &D::decimal(1, -1),
                &D::binary(Binary::Times, &D::decimal(9, -1), &decay(step)),
            )
        }
    }

    /// What [`Gatherer::move_noise`] gives.
    pub open spec fn spec_move_noise(&self, step: usize) -> D {
        times(self.noise_strength, spec_decay(step))
    }

    /// The weight of the noise on a move. A weight that is not positive needs no noise.
    pub fn move_noise(&self, step: usize) -> (r: D)
        ensures
            r == self.spec_move_noise(step),
    {
        D::binary(Binary::Times, &self.noise_strength, &decay(step))
    }

    /// What [`Gatherer::move_weights`] gives.
    pub open spec fn spec_move_weights(
        &self,
        edge_visits: Seq<usize>,
        ids: Seq<Action>,
        step: usize,
        samples: Seq<D>,
    ) -> Seq<D> {
        let weight = self.spec_move_noise(step);
        mixed(
            spec_action_probabilities(
                visits_for(edge_visits, ids),
                self.spec_move_temperature(step),
            ),
            if D::spec_less(zero(), weight) {
                spec_dirichlet_noise(samples)
            } else {
                Seq::new(ids.len(), |i: int| zero())
            },
            weight,
        )
    }

    /// The weights that the move of a step is drawn by, one per valid action. The samples are
    /// Gamma samples of [`dirichlet_alpha`], and are needed where the noise has a positive
    /// weight.
    pub fn move_weights(
        &self,
        node: &Node<Action, R>,
        ids: &[Action],
        step: usize,
        samples: Vec<D>,
    ) -> (r: Vec<D>)
        requires
            D::spec_less(zero(), self.spec_move_noise(step)) ==> samples@.len() == ids@.len(),
        ensures
            r@ == self.spec_move_weights(node.edge_visits@, ids@, step, samples@),
            r@.len() == ids@.len(),
    {
        let n: usize = ids.len();
        let mut visits: Vec<usize> = Vec::with_capacity(n);
        let mut i: usize = 0;
        while i < n
            invariant
                i <= n,
                n == ids.len(),
                visits@ == visits_for(node.edge_visits@, ids@).take(i as int),
            decreases n - i,
        {
            let slot: usize = ids[i] as usize;
            if slot < node.edge_visits.len() {
                visits.push(node.edge_visits[slot]);
            } else {
                visits.push(0);
            }
            i += 1;
            assert(visits@ =~= visits_for(node.edge_visits@, ids@).take(i as int));
        }
        assert(visits@ =~= visits_for(node.edge_visits@, ids@));
        let probs: Vec<D> = action_probabilities(&visits, self.move_temperature(step));
        let weight: D = self.move_noise(step);
        let noise: Vec<D> = if D::less(&D::decimal(0, 0), &weight) {
            dirichlet_noise(samples)
        } else {
            filled(&D::decimal(0, 0), n)
        };
        let rest: D = D::binary(Binary::Minus, &D::decimal(1, 0), &weight);
        let mut out: Vec<D> = Vec::with_capacity(n);
        let mut j: usize = 0;
        while j < n
            invariant
                j <= n,
                n == probs@.len(),
                n == noise@.len(),
                rest == minus(one::<D>(), weight),
                out@ == mixed(probs@, noise@, weight).take(j as int),
            decreases n - j,
        {
            let x: D = D::binary(
                Binary::Plus,
                &D::binary(Binary::Times, &rest, &probs[j]),
                &D::binary(Binary::Times, &weight, &noise[j]),
            );
            out.push(D::binary(Binary::Max, &x, &D::decimal(0, 0)));
            j += 1;
            assert(out@ =~= mixed(probs@, noise@, weight).take(j as int));
        }
        assert(out@ =~= mixed(probs@, noise@, weight));
        out
    }
}

} // verus!
