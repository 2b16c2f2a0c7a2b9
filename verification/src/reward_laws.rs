//! What the scores and grades of episodes say of them.

use crate::gatherer::Gatherer;
use crate::grading::{Ending, Hindsight, Reference, RewardKind};
use crate::reward::{spec_done_score, spec_suffix_score, spec_terminal_score};
use crate::scalar::{minus, over, plus, times, Binary, Scalar, Unary};
use vstd::prelude::*;

verus! {

/// Law: a finished episode scores the share of the reference depth by which it is shallower, over
/// the temperature, and saturated: a tie is measured by a difference of a number with itself.
pub proof fn law_done_score_is_saturated_margin<R: Scalar>(reference: R, depth: R, tau: R)
    ensures
        spec_done_score(reference, depth, tau) == R::spec_unary(
            Unary::Tanh,
            over(
                over(minus(reference, depth), plus(reference, R::spec_decimal(1, -6))),
                tau,
            ),
        ),
{
}

/// Law: of two solutions of one instance the shallower one scores no lower, where a smaller number
/// leaves more of a difference, division by the reference and by the temperature keeps the order of
/// the two differences, and so does saturation.
pub proof fn law_shallower_is_no_worse<R: Scalar>(reference: R, near: R, far: R, tau: R)
    requires
        R::spec_less(near, far),
        R::spec_less(near, far) ==> !R::spec_less(minus(reference, near), minus(reference, far)),
        forall|x: R, y: R, z: R|
            (z == plus(reference, R::spec_decimal(1, -6)) || z == tau) && !R::spec_less(y, x)
                ==> !#[trigger] R::spec_less(over(y, z), over(x, z)),
        forall|x: R, y: R|
            !R::spec_less(y, x) ==> !#[trigger] R::spec_less(
                R::spec_unary(Unary::Tanh, y),
                R::spec_unary(Unary::Tanh, x),
            ),
    ensures
        !R::spec_less(
            spec_done_score(reference, near, tau),
            spec_done_score(reference, far, tau),
        ),
{
    let a = minus(reference, far);
    let b = minus(reference, near);
    let z = plus(reference, R::spec_decimal(1, -6));
    assert(!R::spec_less(over(b, z), over(a, z)));
    assert(!R::spec_less(over(over(b, z), tau), over(over(a, z), tau)));
}

/// Law: the score of an episode behind a scaffold is that of an episode without one on what is
/// left: the scaffold is taken off the depth of the reference, of which at least 1 stays, and off
/// the depth that was reached, of which at least 0 stays.
pub proof fn law_scaffold_counts_for_nobody<R: Scalar>(
    reference: R,
    scaffold: R,
    depth: R,
    tau: R,
)
    ensures
        spec_suffix_score(reference, scaffold, depth, tau) == spec_done_score(
            R::spec_binary(Binary::Max, minus(reference, scaffold), R::spec_decimal(1, 0)),
            R::spec_binary(Binary::Max, minus(depth, scaffold), R::spec_decimal(0, 0)),
            tau,
        ),
{
}

/// Law: episodes that leave the same to play, and play it in the same depth, score the same,
/// however deep their scaffolds are.
pub proof fn law_same_suffix_scores_the_same<R: Scalar>(
    reference: R,
    scaffold: R,
    depth: R,
    other_reference: R,
    other_scaffold: R,
    other_depth: R,
    tau: R,
)
    requires
        minus(reference, scaffold) == minus(other_reference, other_scaffold),
        minus(depth, scaffold) == minus(other_depth, other_scaffold),
    ensures
        spec_suffix_score(reference, scaffold, depth, tau) == spec_suffix_score(
            other_reference,
            other_scaffold,
            other_depth,
            tau,
        ),
{
}

/// Law: the value that a search gives a state at the end of a line of play is -1 where the goal is
/// not reached, and else the score of what was played behind the scaffold.
pub proof fn law_terminal_score<R: Scalar>(
    done: bool,
    reference: R,
    scaffold: R,
    depth: R,
    tau: R,
)
    ensures
        spec_terminal_score(done, reference, scaffold, depth, tau) == (if done {
            spec_done_score(
                R::spec_binary(Binary::Max, minus(reference, scaffold), R::spec_decimal(1, 0)),
                R::spec_binary(Binary::Max, minus(depth, scaffold), R::spec_decimal(0, 0)),
                tau,
            )
        } else {
            R::spec_decimal(-1, 0)
        }),
{
}

/// Law: an episode that reached its goal is graded by its score behind its scaffold, or without one
/// by its score on the whole, and has achieved all objectives.
pub proof fn law_grade_of_a_finished_episode<R: Scalar, D: Scalar>(
    g: &Gatherer<R, D>,
    reference: &Reference<R>,
    end: &Ending<R>,
)
    requires
        end.done,
    ensures
        ({
            let grade = g.spec_grade(reference, end);
            let scaffold = match reference.scaffold {
                Some(s) => s,
                None => R::spec_decimal(0, 0),
            };
            let left = R::spec_binary(
                Binary::Max,
                minus(reference.depth, scaffold),
                R::spec_decimal(1, 0),
            );
            let played = R::spec_binary(
                Binary::Max,
                minus(end.depth, scaffold),
                R::spec_decimal(0, 0),
            );
            &&& grade.score == R::spec_unary(
                Unary::Tanh,
                over(
                    over(minus(left, played), plus(left, R::spec_decimal(1, -6))),
                    g.reward_saturation_temperature,
                ),
            )
            &&& grade.kind == RewardKind::Done
            &&& grade.achieved == end.start_objectives
        }),
{
}

/// Law: an episode behind a scaffold that did not reach its goal is graded by the objectives that
/// it completed, against a goal of the frontier and its margin, or all objectives if they are
/// fewer: -1 for none of it, 0 for all of it, and what lies beyond counts for nothing.
pub proof fn law_grade_behind_a_scaffold<R: Scalar, D: Scalar>(
    g: &Gatherer<R, D>,
    reference: &Reference<R>,
    end: &Ending<R>,
    goal: int,
    achieved: int,
)
    requires
        !end.done,
        reference.scaffold is Some,
        end.start_objectives > 0,
        goal > 0,
        goal == end.start_objectives || goal == g.cusp_frontier + g.cusp_margin,
        goal <= end.start_objectives,
        goal <= g.cusp_frontier + g.cusp_margin,
        achieved == end.start_objectives - end.remaining_objectives,
        achieved >= 0,
    ensures
        ({
            let grade = g.spec_grade(reference, end);
            if achieved == 0 {
                &&& grade.score == R::spec_decimal(-1, 0)
                &&& grade.kind == RewardKind::Floor
                &&& grade.achieved == 0
            } else {
                &&& grade.score == minus(
                    over(
                        R::spec_count(
                            (if achieved < goal {
                                achieved
                            } else {
                                goal
                            }) as usize,
                        ),
                        R::spec_count(goal as usize),
                    ),
                    R::spec_decimal(1, 0),
                )
                &&& grade.kind == RewardKind::Her
                &&& grade.achieved == achieved
            }
        }),
{
}

/// Law: an instance beyond reach, which has more objectives than the frontier or one that is wider
/// than the frontier and its margin, is graded without a scaffold by the factors that were merged.
/// They are measured by the share of all factors that the goal has of the objectives, at least 1.
pub proof fn law_grade_beyond_reach<R: Scalar, D: Scalar>(
    g: &Gatherer<R, D>,
    reference: &Reference<R>,
    end: &Ending<R>,
    goal: int,
)
    requires
        !end.done,
        reference.scaffold is None,
        g.cusp_reward,
        end.start_objectives > g.cusp_frontier || end.max_weight > g.cusp_frontier + g.cusp_margin,
        end.start_objectives > 0,
        end.factors > 0,
        end.merged > 0,
        goal > 0,
        goal == end.start_objectives || goal == g.cusp_frontier + g.cusp_margin,
        goal <= end.start_objectives,
        goal <= g.cusp_frontier + g.cusp_margin,
    ensures
        ({
            let grade = g.spec_grade(reference, end);
            let budget = R::spec_binary(
                Binary::Max,
                over(
                    times(R::spec_count(end.factors), R::spec_count(goal as usize)),
                    R::spec_count(end.start_objectives),
                ),
                R::spec_decimal(1, 0),
            );
            &&& grade.kind == RewardKind::Cusp
            &&& grade.score == minus(
                over(R::spec_binary(Binary::Min, R::spec_count(end.merged), budget), budget),
                R::spec_decimal(1, 0),
            )
            &&& grade.achieved == (if end.remaining_objectives <= end.start_objectives {
                end.start_objectives - end.remaining_objectives
            } else {
                0
            })
        }),
{
}

/// Law: any other episode that did not reach its goal is graded in hindsight, if that is wanted: by
/// its depth against the reference for the goal that it did reach, on which it has a margin. It has
/// -1 where it reached none, where the reference cannot solve what it reached, or where hindsight
/// is not wanted.
pub proof fn law_grade_in_hindsight<R: Scalar, D: Scalar>(
    g: &Gatherer<R, D>,
    reference: &Reference<R>,
    end: &Ending<R>,
)
    requires
        !end.done,
        reference.scaffold is None,
        !g.cusp_reward || end.start_objectives <= g.cusp_frontier && end.max_weight
            <= g.cusp_frontier + g.cusp_margin,
    ensures
        ({
            let grade = g.spec_grade(reference, end);
            match end.hindsight {
                Hindsight::Solved(k, depth) if g.her_reward => {
                    &&& grade.kind == RewardKind::Her
                    &&& grade.achieved == k
                    &&& grade.score == R::spec_unary(
                        Unary::Tanh,
                        over(
                            over(
                                minus(
                                    times(
                                        plus(R::spec_decimal(1, 0), g.her_reward_margin),
                                        depth,
                                    ),
                                    end.depth,
                                ),
                                plus(depth, R::spec_decimal(1, -6)),
                            ),
                            g.reward_saturation_temperature,
                        ),
                    )
                },
                _ => {
                    &&& grade.kind == RewardKind::Floor
                    &&& grade.score == R::spec_decimal(-1, 0)
                    &&& grade.achieved == (match end.hindsight {
                        Hindsight::Unsolved(k) if g.her_reward => k,
                        _ => 0,
                    })
                },
            }
        }),
{
}

/// Law: an instance beyond reach on which no factor was merged has the lowest grade, and so has one
/// without factors or objectives.
pub proof fn law_nothing_merged_is_the_floor<R: Scalar, D: Scalar>(
    g: &Gatherer<R, D>,
    reference: &Reference<R>,
    end: &Ending<R>,
)
    requires
        !end.done,
        reference.scaffold is None,
        g.cusp_reward,
        end.start_objectives > g.cusp_frontier || end.max_weight > g.cusp_frontier + g.cusp_margin,
        end.merged == 0 || end.factors == 0 || end.start_objectives == 0,
    ensures
        g.spec_grade(reference, end).score == R::spec_decimal(-1, 0),
        end.merged == 0 ==> g.spec_grade(reference, end).kind == RewardKind::Floor,
{
}

} // verus!
