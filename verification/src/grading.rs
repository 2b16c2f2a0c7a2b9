//! The reward of an episode: in full against the reference when it reached its goal, and graded
//! by its progress when it did not.

use crate::gatherer::Gatherer;
use crate::reward::{
    margin_score, not_done_score, spec_margin_score, spec_not_done_score, spec_suffix_score,
    spec_terminal_score, suffix_score,
};
use crate::scalar::{larger, minus, one, over, plus, smaller, times, zero, Binary, Scalar};
use vstd::prelude::*;

verus! {

/// Where a reward comes from.
#[derive(Clone, Copy, Debug, PartialEq, Eq, Structural)]
pub enum RewardKind {
    /// The goal was reached.
    Done,
    /// Part of the goal was reached, and is graded as such.
    Her,
    /// A hard instance, graded against a goal just past reach.
    Cusp,
    /// Nothing was reached.
    Floor,
}

impl RewardKind {
    /// What [`RewardKind::label`] gives.
    pub open spec fn spec_label(self) -> Seq<char> {
        match self {
            RewardKind::Done => "done"@,
            RewardKind::Her => "her"@,
            RewardKind::Cusp => "cusp"@,
            RewardKind::Floor => "floor"@,
        }
    }

    /// The name of the kind in records.
    pub fn label(&self) -> (r: &'static str)
        ensures
            r@ == self.spec_label(),
    {
        match self {
            RewardKind::Done => "done",
            RewardKind::Her => "her",
            RewardKind::Cusp => "cusp",
            RewardKind::Floor => "floor",
        }
    }
}

/// The sum of the objective weights that are given, and the largest of them.
pub open spec fn spec_pp_weights(weights: Seq<Option<usize>>) -> (nat, nat)
    decreases weights.len(),
{
    if weights.len() == 0 {
        (0, 0)
    } else {
        let (t, m) = spec_pp_weights(weights.drop_last());
        match weights.last() {
            Some(w) => (
                t + w as nat,
                if w > m {
                    w as nat
                } else {
                    m
                },
            ),
            None => (t, m),
        }
    }
}

/// A prefix has no more weight than the whole.
proof fn lemma_weights_prefix(weights: Seq<Option<usize>>, k: int)
    requires
        0 <= k <= weights.len(),
    ensures
        spec_pp_weights(weights.take(k)).0 <= spec_pp_weights(weights).0,
        spec_pp_weights(weights).1 <= spec_pp_weights(weights).0,
    decreases weights.len(),
{
    if k < weights.len() {
        lemma_weights_prefix(weights.drop_last(), k);
        assert(weights.drop_last().take(k) =~= weights.take(k));
    } else {
        assert(weights.take(k) =~= weights);
        if weights.len() > 0 {
            lemma_weights_prefix(weights.drop_last(), k - 1);
        }
    }
}

/// The total and the largest weight of the objectives of an instance. An objective that is no
/// Pauli product has no weight.
pub fn pp_weights(weights: &[Option<usize>]) -> (r: (usize, usize))
    requires
        spec_pp_weights(weights@).0 <= usize::MAX,
    ensures
        (r.0 as nat, r.1 as nat) == spec_pp_weights(weights@),
{
    let mut total: usize = 0;
    let mut top: usize = 0;
    let mut i: usize = 0;
    assert(weights@.take(0).len() == 0);
    while i < weights.len()
        invariant
            i <= weights.len(),
            spec_pp_weights(weights@).0 <= usize::MAX,
            (total as nat, top as nat) == spec_pp_weights(weights@.take(i as int)),
        decreases weights.len() - i,
    {
        proof {
            assert(weights@.take(i + 1).drop_last() =~= weights@.take(i as int));
            lemma_weights_prefix(weights@, i + 1);
        }
        if let Some(w) = weights[i] {
            total = total + w;
            if w > top {
                top = w;
            }
        }
        i += 1;
    }
    assert(weights@.take(i as int) =~= weights@);
    (total, top)
}

/// The smaller of two counts.
pub open spec fn least(a: int, b: int) -> int {
    if a <= b {
        a
    } else {
        b
    }
}

/// The goal just past reach: `min(num_objectives, frontier + margin)`, at least 1.
pub open spec fn spec_cusp_goal(num_objectives: usize, frontier: usize, margin: usize) -> int {
    if least(num_objectives as int, frontier + margin) == 0 {
        1
    } else {
        least(num_objectives as int, frontier + margin)
    }
}

/// The goal just past reach.
fn cusp_goal(num_objectives: usize, frontier: usize, margin: usize) -> (r: usize)
    requires
        frontier + margin <= usize::MAX,
    ensures
        r == spec_cusp_goal(num_objectives, frontier, margin),
{
    let goal: usize = if num_objectives <= frontier + margin {
        num_objectives
    } else {
        frontier + margin
    };
    if goal == 0 {
        1
    } else {
        goal
    }
}

/// What [`cusp_partial_reward`] gives.
pub open spec fn spec_cusp_partial_reward<R: Scalar>(
    achieved: usize,
    num_objectives: usize,
    frontier: usize,
    margin: usize,
) -> R {
    let goal = spec_cusp_goal(num_objectives, frontier, margin);
    minus(
        over(
            R::spec_count(least(achieved as int, goal) as usize),
            R::spec_count(goal as usize),
        ),
        one(),
    )
}

/// Grades the objectives achieved against the goal just past reach: -1 for none, 0 at the goal
/// and beyond.
pub fn cusp_partial_reward<R: Scalar>(
    achieved: usize,
    num_objectives: usize,
    frontier: usize,
    margin: usize,
) -> (r: R)
    requires
        frontier + margin <= usize::MAX,
    ensures
        r == spec_cusp_partial_reward::<R>(achieved, num_objectives, frontier, margin),
{
    let goal: usize = cusp_goal(num_objectives, frontier, margin);
    let counted: usize = if achieved <= goal {
        achieved
    } else {
        goal
    };
    R::binary(
        Binary::Minus,
        &R::binary(Binary::Over, &R::count(counted), &R::count(goal)),
        &R::decimal(1, 0),
    )
}

/// Law: at the goal just past reach and beyond it, more objectives make no difference.
pub proof fn law_partial_is_capped<R: Scalar>(
    a: usize,
    b: usize,
    num_objectives: usize,
    frontier: usize,
    margin: usize,
)
    requires
        a >= spec_cusp_goal(num_objectives, frontier, margin),
        b >= spec_cusp_goal(num_objectives, frontier, margin),
    ensures
        spec_cusp_partial_reward::<R>(a, num_objectives, frontier, margin)
            == spec_cusp_partial_reward::<R>(b, num_objectives, frontier, margin),
{
}

/// Law: on instances with at least as many objectives as the goal, the grade of an achievement
/// does not depend on how many there are.
pub proof fn law_partial_ignores_size<R: Scalar>(
    achieved: usize,
    n: usize,
    m: usize,
    frontier: usize,
    margin: usize,
)
    requires
        n >= frontier + margin,
        m >= frontier + margin,
    ensures
        spec_cusp_partial_reward::<R>(achieved, n, frontier, margin) == spec_cusp_partial_reward::<
            R,
        >(achieved, m, frontier, margin),
{
}

/// The factors that the goal just past reach stands for, at least 1: its share of all factors.
pub open spec fn spec_factor_budget<R: Scalar>(
    total: usize,
    num_objectives: usize,
    frontier: usize,
    margin: usize,
) -> R {
    larger(
        over(
            times(
                R::spec_count(total),
                R::spec_count(spec_cusp_goal(num_objectives, frontier, margin) as usize),
            ),
            R::spec_count(num_objectives),
        ),
        one(),
    )
}

/// What [`cusp_factor_reward`] gives.
pub open spec fn spec_cusp_factor_reward<R: Scalar>(
    merged: usize,
    total: usize,
    num_objectives: usize,
    frontier: usize,
    margin: usize,
) -> R {
    if total == 0 || num_objectives == 0 {
        R::spec_decimal(-1, 0)
    } else {
        let budget = spec_factor_budget::<R>(total, num_objectives, frontier, margin);
        minus(over(smaller(R::spec_count(merged), budget), budget), one())
    }
}

/// Grades the factors merged against the factors that the goal just past reach stands for.
pub fn cusp_factor_reward<R: Scalar>(
    merged: usize,
    total: usize,
    num_objectives: usize,
    frontier: usize,
    margin: usize,
) -> (r: R)
    requires
        frontier + margin <= usize::MAX,
    ensures
        r == spec_cusp_factor_reward::<R>(merged, total, num_objectives, frontier, margin),
{
    if total == 0 || num_objectives == 0 {
        return R::decimal(-1, 0);
    }
    let goal: usize = cusp_goal(num_objectives, frontier, margin);
    let share: R = R::binary(
        Binary::Over,
        &R::binary(Binary::Times, &R::count(total), &R::count(goal)),
        &R::count(num_objectives),
    );
    let budget: R = R::binary(Binary::Max, &share, &R::decimal(1, 0));
    let counted: R = R::binary(Binary::Min, &R::count(merged), &budget);
    R::binary(
        Binary::Minus,
        &R::binary(Binary::Over, &counted, &budget),
        &R::decimal(1, 0),
    )
}

/// What an episode is measured by.
pub struct Reference<R> {
    /// Depth of the reference solution.
    pub depth: R,
    /// Actions of the reference solution that are left to play.
    pub actions: usize,
    /// The depth of the scaffold that the episode started behind, if it did.
    pub scaffold: Option<R>,
}

impl<R: Scalar> Reference<R> {
    /// The depth of the scaffold, 0 without one.
    pub open spec fn spec_scaffold_depth(&self) -> R {
        match self.scaffold {
            Some(s) => s,
            None => zero(),
        }
    }

    /// The depth of the scaffold, 0 without one.
    pub fn scaffold_depth(&self) -> (r: R)
        ensures
            r == self.spec_scaffold_depth(),
    {
        match &self.scaffold {
            Some(s) => s.dup(),
            None => R::decimal(0, 0),
        }
    }
}

/// The goal that a partial episode did reach.
pub enum Hindsight<R> {
    /// It reached none.
    Nothing,
    /// It reached some objectives, which the reference solver cannot solve.
    Unsolved(usize),
    /// It reached some objectives, which the reference solver solves at a depth.
    Solved(usize, R),
}

/// How an episode ended.
pub struct Ending<R> {
    /// Whether the goal was reached.
    pub done: bool,
    /// Depth at the end.
    pub depth: R,
    /// Objectives at the start.
    pub start_objectives: usize,
    /// Objectives that are left.
    pub remaining_objectives: usize,
    /// Weight of the widest objective at the start.
    pub max_weight: usize,
    /// Factors merged since the start.
    pub merged: usize,
    /// Factors at the start.
    pub factors: usize,
    /// The goal that was reached, where the grade depends on it.
    pub hindsight: Hindsight<R>,
}

impl<R: Scalar> Ending<R> {
    /// Objectives that the episode completed.
    pub open spec fn spec_achieved(&self) -> int {
        if self.remaining_objectives <= self.start_objectives {
            self.start_objectives - self.remaining_objectives
        } else {
            0
        }
    }

    /// Objectives that the episode completed.
    fn achieved(&self) -> (r: usize)
        ensures
            r == self.spec_achieved(),
    {
        if self.remaining_objectives <= self.start_objectives {
            self.start_objectives - self.remaining_objectives
        } else {
            0
        }
    }
}

/// The reward of an episode.
pub struct Grade<R> {
    pub score: R,
    pub kind: RewardKind,
    /// Objectives that count as achieved.
    pub achieved: usize,
}

/// The lowest grade.
pub open spec fn spec_floor<R: Scalar>(achieved: usize) -> Grade<R> {
    Grade { score: spec_not_done_score(), kind: RewardKind::Floor, achieved }
}

/// The lowest grade.
fn floor<R: Scalar>(achieved: usize) -> (r: Grade<R>)
    ensures
        r == spec_floor::<R>(achieved),
{
    Grade { score: not_done_score(), kind: RewardKind::Floor, achieved }
}

impl<R: Scalar, D: Scalar> Gatherer<R, D> {
    /// Whether an instance is graded against the goal just past reach: it has more objectives
    /// than are within reach, or one that is wider than the goal.
    pub open spec fn spec_graded_at_cusp(&self, num_objectives: usize, max_weight: usize) -> bool {
        self.cusp_reward && (num_objectives > self.cusp_frontier || max_weight > self.cusp_frontier
            + self.cusp_margin)
    }

    /// What [`Gatherer::needs_hindsight`] gives.
    pub open spec fn spec_needs_hindsight(
        &self,
        done: bool,
        scaffolded: bool,
        num_objectives: usize,
        max_weight: usize,
    ) -> bool {
        !done && !scaffolded && !self.spec_graded_at_cusp(num_objectives, max_weight)
            && self.her_reward
    }

    /// Whether the grade of an episode depends on the goal that it did reach.
    pub fn needs_hindsight(
        &self,
        done: bool,
        scaffolded: bool,
        num_objectives: usize,
        max_weight: usize,
    ) -> (r: bool)
        requires
            self.cusp_frontier + self.cusp_margin <= usize::MAX,
        ensures
            r == self.spec_needs_hindsight(done, scaffolded, num_objectives, max_weight),
    {
        !done && !scaffolded && !(self.cusp_reward && (num_objectives > self.cusp_frontier
            || max_weight > self.cusp_frontier + self.cusp_margin)) && self.her_reward
    }

    /// What [`Gatherer::grade`] gives.
    pub open spec fn spec_grade(&self, reference: &Reference<R>, end: &Ending<R>) -> Grade<R> {
        let tau = self.reward_saturation_temperature;
        if end.done {
            Grade {
                score: spec_suffix_score(
                    reference.depth,
                    reference.spec_scaffold_depth(),
                    end.depth,
                    tau,
                ),
                kind: RewardKind::Done,
                achieved: end.start_objectives,
            }
        } else if reference.scaffold is Some {
            if end.spec_achieved() == 0 {
                spec_floor(0)
            } else {
                Grade {
                    score: spec_cusp_partial_reward(
                        end.spec_achieved() as usize,
                        end.start_objectives,
                        self.cusp_frontier,
                        self.cusp_margin,
                    ),
                    kind: RewardKind::Her,
                    achieved: end.spec_achieved() as usize,
                }
            }
        } else if self.spec_graded_at_cusp(end.start_objectives, end.max_weight) {
            if end.merged == 0 {
                spec_floor(0)
            } else {
                Grade {
                    score: spec_cusp_factor_reward(
                        end.merged,
                        end.factors,
                        end.start_objectives,
                        self.cusp_frontier,
                        self.cusp_margin,
                    ),
                    kind: RewardKind::Cusp,
                    achieved: end.spec_achieved() as usize,
                }
            }
        } else if !self.her_reward {
            spec_floor(0)
        } else {
            match end.hindsight {
                Hindsight::Nothing => spec_floor(0),
                Hindsight::Unsolved(k) => spec_floor(k),
                Hindsight::Solved(k, depth) => Grade {
                    score: spec_margin_score(
                        minus(times(plus(one(), self.her_reward_margin), depth), end.depth),
                        depth,
                        tau,
                    ),
                    kind: RewardKind::Her,
                    achieved: k,
                },
            }
        }
    }

    /// The reward of an episode.
    ///
    /// One that reached its goal has the score of its depth against the reference, both without
    /// the scaffold. One that did not is graded by the objectives it completed if it started
    /// behind a scaffold; by the factors it merged if the instance is beyond reach; and else by
    /// its depth against the reference for the goal it did reach.
    pub fn grade(&self, reference: &Reference<R>, end: &Ending<R>) -> (r: Grade<R>)
        requires
            self.cusp_frontier + self.cusp_margin <= usize::MAX,
        ensures
            r == self.spec_grade(reference, end),
    {
        let tau: &R = &self.reward_saturation_temperature;
        if end.done {
            return Grade {
                score: suffix_score(
                    &reference.depth,
                    &reference.scaffold_depth(),
                    &end.depth,
                    tau,
                ),
                kind: RewardKind::Done,
                achieved: end.start_objectives,
            };
        }
        let achieved: usize = end.achieved();
        if reference.scaffold.is_some() {
            if achieved == 0 {
                return floor(0);
            }
            return Grade {
                score: cusp_partial_reward(
                    achieved,
                    end.start_objectives,
                    self.cusp_frontier,
                    self.cusp_margin,
                ),
                kind: RewardKind::Her,
                achieved,
            };
        }
        if self.cusp_reward && (end.start_objectives > self.cusp_frontier || end.max_weight
            > self.cusp_frontier + self.cusp_margin) {
            if end.merged == 0 {
                return floor(0);
            }
            return Grade {
                score: cusp_factor_reward(
                    end.merged,
                    end.factors,
                    end.start_objectives,
                    self.cusp_frontier,
                    self.cusp_margin,
                ),
                kind: RewardKind::Cusp,
                achieved,
            };
        }
        if !self.her_reward {
            return floor(0);
        }
        match &end.hindsight {
            Hindsight::Nothing => floor(0),
            Hindsight::Unsolved(k) => floor(*k),
            Hindsight::Solved(k, depth) => {
                let factor: R = R::binary(Binary::Plus, &R::decimal(1, 0), &self.her_reward_margin);
                let baseline: R = R::binary(Binary::Times, &factor, depth);
                Grade {
                    score: margin_score(
                        &R::binary(Binary::Minus, &baseline, &end.depth),
                        depth,
                        tau,
                    ),
                    kind: RewardKind::Her,
                    achieved: *k,
                }
            },
        }
    }
}

/// Law: the reward of an episode that reached its goal is the value that the search backs up
/// for its last state.
pub proof fn law_reward_is_search_value<R: Scalar, D: Scalar>(
    g: &Gatherer<R, D>,
    reference: &Reference<R>,
    end: &Ending<R>,
)
    requires
        end.done,
    ensures
        g.spec_grade(reference, end).score == spec_terminal_score(
            true,
            reference.depth,
            reference.spec_scaffold_depth(),
            end.depth,
            g.reward_saturation_temperature,
        ),
{
}

/// Law: a reward counts as done exactly when the goal was reached.
pub proof fn law_done_kind<R: Scalar, D: Scalar>(
    g: &Gatherer<R, D>,
    reference: &Reference<R>,
    end: &Ending<R>,
)
    ensures
        g.spec_grade(reference, end).kind == RewardKind::Done <==> end.done,
{
}

/// Law: the grade depends on the goal that was reached in hindsight only where
/// [`Gatherer::needs_hindsight`] says so.
pub proof fn law_hindsight_only_where_needed<R: Scalar, D: Scalar>(
    g: &Gatherer<R, D>,
    reference: &Reference<R>,
    a: &Ending<R>,
    b: &Ending<R>,
)
    requires
        *b == (Ending { hindsight: b.hindsight, ..*a }),
        !g.spec_needs_hindsight(
            a.done,
            reference.scaffold is Some,
            a.start_objectives,
            a.max_weight,
        ),
    ensures
        g.spec_grade(reference, a) == g.spec_grade(reference, b),
{
}

} // verus!
