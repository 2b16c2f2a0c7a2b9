//! The score of an episode that reaches its goal.
//!
//! Scores are margins over the reference solution: a tie is 0, a shallower solution is positive,
//! a deeper one negative, and an episode without a solution has the floor of -1. The search backs
//! up the same scores that the value targets hold.

use crate::scalar::{larger, minus, one, over, plus, zero, Binary, Scalar, Unary};
use vstd::prelude::*;

verus! {

/// The saturated margin: `tanh((ahead / (reference + 1e-6)) / tau)`.
pub open spec fn spec_margin_score<R: Scalar>(ahead: R, reference: R, tau: R) -> R {
    R::spec_unary(Unary::Tanh, over(over(ahead, plus(reference, R::spec_decimal(1, -6))), tau))
}

/// The saturated margin of a solution that is `ahead` of a reference.
pub fn margin_score<R: Scalar>(ahead: &R, reference: &R, tau: &R) -> (r: R)
    ensures
        r == spec_margin_score(*ahead, *reference, *tau),
{
    let base: R = R::binary(Binary::Plus, reference, &R::decimal(1, -6));
    let ratio: R = R::binary(Binary::Over, ahead, &base);
    R::unary(Unary::Tanh, &R::binary(Binary::Over, &ratio, tau))
}

/// What [`done_score`] gives.
pub open spec fn spec_done_score<R: Scalar>(reference_depth: R, depth: R, tau: R) -> R {
    spec_margin_score(minus(reference_depth, depth), reference_depth, tau)
}

/// Terminal score of a completed episode.
pub fn done_score<R: Scalar>(reference_depth: &R, depth: &R, tau: &R) -> (r: R)
    ensures
        r == spec_done_score(*reference_depth, *depth, *tau),
{
    margin_score(&R::binary(Binary::Minus, reference_depth, depth), reference_depth, tau)
}

/// What [`not_done_score`] gives.
pub open spec fn spec_not_done_score<R: Scalar>() -> R {
    R::spec_decimal(-1, 0)
}

/// Terminal score of an episode that was not completed.
pub fn not_done_score<R: Scalar>() -> (r: R)
    ensures
        r == spec_not_done_score::<R>(),
{
    R::decimal(-1, 0)
}

/// The depth of the reference that is left after a scaffold, at least 1.
pub open spec fn spec_reference_suffix<R: Scalar>(reference_depth: R, scaffold: R) -> R {
    larger(minus(reference_depth, scaffold), one())
}

/// The depth of the reference that is left after a scaffold.
pub fn reference_suffix<R: Scalar>(reference_depth: &R, scaffold: &R) -> (r: R)
    ensures
        r == spec_reference_suffix(*reference_depth, *scaffold),
{
    R::binary(Binary::Max, &R::binary(Binary::Minus, reference_depth, scaffold), &R::decimal(1, 0))
}

/// What [`suffix_score`] gives.
pub open spec fn spec_suffix_score<R: Scalar>(
    reference_depth: R,
    scaffold: R,
    depth: R,
    tau: R,
) -> R {
    spec_done_score(
        spec_reference_suffix(reference_depth, scaffold),
        larger(minus(depth, scaffold), zero()),
        tau,
    )
}

/// The score of a completed episode that began after a scaffold of some depth. The scaffold is
/// part of both depths, so it is taken off both: only what the episode played counts.
pub fn suffix_score<R: Scalar>(reference_depth: &R, scaffold: &R, depth: &R, tau: &R) -> (r: R)
    ensures
        r == spec_suffix_score(*reference_depth, *scaffold, *depth, *tau),
{
    let played: R = R::binary(
        Binary::Max,
        &R::binary(Binary::Minus, depth, scaffold),
        &R::decimal(0, 0),
    );
    done_score(&reference_suffix(reference_depth, scaffold), &played, tau)
}

/// What [`terminal_score`] gives.
pub open spec fn spec_terminal_score<R: Scalar>(
    done: bool,
    reference_depth: R,
    scaffold: R,
    depth: R,
    tau: R,
) -> R {
    if done {
        spec_suffix_score(reference_depth, scaffold, depth, tau)
    } else {
        spec_not_done_score()
    }
}

/// The value of a state at the end of a line of play.
pub fn terminal_score<R: Scalar>(
    done: bool,
    reference_depth: &R,
    scaffold: &R,
    depth: &R,
    tau: &R,
) -> (r: R)
    ensures
        r == spec_terminal_score(done, *reference_depth, *scaffold, *depth, *tau),
{
    if done {
        suffix_score(reference_depth, scaffold, depth, tau)
    } else {
        not_done_score()
    }
}

} // verus!
