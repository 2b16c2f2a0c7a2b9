//! Which instances are gathered on, and how: the checks on generated instances, and the choice
//! between an episode, a climb of the reverse curriculum and a demonstration.

use crate::gatherer::Gatherer;
use crate::playthrough::{draw_between, draw_unit, luck_of, Chance, Luck};
use crate::scalar::{at_most, spec_at_most, zero, Scalar};
use crate::text::{digits, number_text};
use vstd::prelude::*;
use vstd::string::StringExecFns;

verus! {

/// How an instance is gathered on.
#[derive(Clone, Copy, Debug, PartialEq, Eq, Structural)]
pub enum Route {
    /// The reference plan is recorded as a demonstration.
    Demo,
    /// Episodes behind scaffolds: the first behind `seed` actions, and none behind `floor` or
    /// fewer.
    Climb { seed: usize, floor: usize },
    /// One episode from the start.
    Episode,
}

impl<R: Scalar, D: Scalar> Gatherer<R, D> {
    /// Whether the instance is so wide that it is only demonstrated, unless it is climbed.
    pub open spec fn spec_imitation_only(&self) -> bool {
        self.demo_only_min_weight > 0 && self.env_mw >= self.demo_only_min_weight
    }

    /// Whether the instance is so wide that it is only demonstrated, unless it is climbed.
    pub fn imitation_only(&self) -> (r: bool)
        ensures
            r == self.spec_imitation_only(),
    {
        self.demo_only_min_weight > 0 && self.env_mw >= self.demo_only_min_weight
    }

    /// The probability of a climb on the instance.
    pub open spec fn spec_climb_prob(&self) -> R {
        if self.spec_imitation_only() {
            self.full_weight_rc_prob
        } else if self.env_k > 0 && spec_at_most(zero(), self.clustered_reverse_prob) {
            self.clustered_reverse_prob
        } else {
            self.reverse_curriculum_prob
        }
    }

    /// Whether the instance can be climbed at all.
    pub open spec fn spec_may_climb(&self) -> bool {
        self.reverse_curriculum && (self.spec_imitation_only() ==> R::spec_less(
            zero(),
            self.full_weight_rc_prob,
        ) && self.full_weight_rc_tail > 0)
    }

    /// Whether the instance can be climbed at all, so that it is left to chance.
    pub fn may_climb(&self) -> (r: bool)
        ensures
            r == self.spec_may_climb(),
    {
        self.reverse_curriculum && (!self.imitation_only() || (R::less(
            &R::decimal(0, 0),
            &self.full_weight_rc_prob,
        ) && self.full_weight_rc_tail > 0))
    }

    /// What [`Gatherer::tries_climb`] gives.
    pub open spec fn spec_tries_climb(&self, draw: R) -> bool {
        self.spec_may_climb() && R::spec_less(draw, self.spec_climb_prob())
    }

    /// Whether a number drawn from 0 to 1 makes the instance be climbed, if its plan is long
    /// enough. Clustered instances can have a probability of their own.
    pub fn tries_climb(&self, draw: &R) -> (r: bool)
        ensures
            r == self.spec_tries_climb(*draw),
    {
        if !self.may_climb() {
            return false;
        }
        if self.imitation_only() {
            R::less(draw, &self.full_weight_rc_prob)
        } else if self.env_k > 0 && at_most(&R::decimal(0, 0), &self.clustered_reverse_prob) {
            R::less(draw, &self.clustered_reverse_prob)
        } else {
            R::less(draw, &self.reverse_curriculum_prob)
        }
    }

    /// What [`Gatherer::route`] gives.
    pub open spec fn spec_route(&self, plan_len: Option<usize>) -> Route {
        let tail = self.full_weight_rc_tail;
        match plan_len {
            Some(len) if self.spec_imitation_only() && len > tail => Route::Climb {
                seed: (len - tail) as usize,
                floor: if len >= 2 * tail {
                    (len - 2 * tail) as usize
                } else {
                    0
                },
            },
            Some(len) if !self.spec_imitation_only() && len >= self.reverse_curriculum_min_len => {
                Route::Climb { seed: self.reverse_curriculum_prefix_start, floor: 0 }
            },
            _ => if self.spec_imitation_only() {
                Route::Demo
            } else {
                Route::Episode
            },
        }
    }

    /// How the instance is gathered on. `plan_len` is the length of the reference plan where a
    /// climb is tried.
    ///
    /// A climb on a very wide instance begins near its goal and never leaves more than twice
    /// the tail to play; on others it begins near the start.
    pub fn route(&self, plan_len: Option<usize>) -> (r: Route)
        requires
            2 * self.full_weight_rc_tail <= usize::MAX,
        ensures
            r == self.spec_route(plan_len),
    {
        let imitation: bool = self.imitation_only();
        let tail: usize = self.full_weight_rc_tail;
        if let Some(len) = plan_len {
            if imitation {
                if len > tail {
                    return Route::Climb {
                        seed: len - tail,
                        floor: if len >= 2 * tail {
                            len - 2 * tail
                        } else {
                            0
                        },
                    };
                }
            } else if len >= self.reverse_curriculum_min_len {
                return Route::Climb { seed: self.reverse_curriculum_prefix_start, floor: 0 };
            }
        }
        if imitation {
            Route::Demo
        } else {
            Route::Episode
        }
    }

    /// What decides, short of chance, whether a demonstration follows an episode.
    pub open spec fn spec_may_demo(&self, done: bool, num_objectives: usize) -> bool {
        R::spec_less(zero(), self.demo_fraction) && !done && num_objectives
            > self.demo_min_objectives
    }

    /// Whether a demonstration may follow an episode: it failed on a hard instance.
    pub fn may_demo(&self, done: bool, num_objectives: usize) -> (r: bool)
        ensures
            r == self.spec_may_demo(done, num_objectives),
    {
        R::less(&R::decimal(0, 0), &self.demo_fraction) && !done && num_objectives
            > self.demo_min_objectives
    }

    /// What [`Gatherer::wants_demo`] gives.
    pub open spec fn spec_wants_demo(&self, done: bool, num_objectives: usize, draw: R) -> bool {
        self.spec_may_demo(done, num_objectives) && R::spec_less(draw, self.demo_fraction)
    }

    /// Whether a demonstration follows an episode, by a number drawn from 0 to 1.
    pub fn wants_demo(&self, done: bool, num_objectives: usize, draw: &R) -> (r: bool)
        ensures
            r == self.spec_wants_demo(done, num_objectives, *draw),
    {
        self.may_demo(done, num_objectives) && R::less(draw, &self.demo_fraction)
    }
}

/// Law: a climb on a very wide instance never leaves more than twice the tail to play, and
/// begins with exactly the tail.
pub proof fn law_wide_climb_is_short<R: Scalar, D: Scalar>(g: &Gatherer<R, D>, len: usize)
    requires
        g.spec_imitation_only(),
        len > g.full_weight_rc_tail,
    ensures
        g.spec_route(Some(len)) matches Route::Climb { seed, floor } && len - seed
            == g.full_weight_rc_tail && floor <= seed && len - floor <= 2 * g.full_weight_rc_tail,
{
}

/// Whether a grid leaves nothing to place: all cells but one are blank, or it is at most 2 by 2.
pub open spec fn spec_degenerate(height: usize, width: usize, num_blanks: usize) -> bool {
    num_blanks >= height * width - 1 || (height <= 2 && width <= 2)
}

/// Whether a grid leaves nothing to place.
pub fn degenerate(height: usize, width: usize, num_blanks: usize) -> (r: bool)
    requires
        1 <= height * width <= usize::MAX,
    ensures
        r == spec_degenerate(height, width, num_blanks),
{
    let cells: usize = height * width;
    num_blanks >= cells - 1 || (height <= 2 && width <= 2)
}

/// The weight of an objective over all cells that are not blank, at least 1.
pub open spec fn spec_full_weight(height: usize, width: usize, num_blanks: usize) -> int {
    if height * width <= num_blanks {
        1
    } else {
        height * width - num_blanks
    }
}

/// The weight of an objective over all cells that are not blank.
pub fn full_weight(height: usize, width: usize, num_blanks: usize) -> (r: usize)
    requires
        height * width <= usize::MAX,
    ensures
        r == spec_full_weight(height, width, num_blanks),
        r >= 1,
{
    let cells: usize = height * width;
    if cells <= num_blanks {
        1
    } else {
        cells - num_blanks
    }
}

/// The most that the weight of a clustered instance within reach can be: `max`, or the full weight
/// if that is less, but not below `min`.
pub open spec fn spec_learnable_max(min: usize, max: usize, full: usize) -> usize {
    if max <= full {
        if max >= min {
            max
        } else {
            min
        }
    } else if full >= min {
        full
    } else {
        min
    }
}

/// The range that the weight of a clustered instance within reach is drawn from: from `min` to
/// `max`, or to the full weight if that is less, but not below `min`.
pub fn learnable_range(min: usize, max: usize, full: usize) -> (r: (usize, usize))
    ensures
        r.0 == min,
        r.1 == spec_learnable_max(min, max, full),
        r.0 <= r.1,
{
    let cut: usize = if max <= full {
        max
    } else {
        full
    };
    (
        min,
        if cut >= min {
            cut
        } else {
            min
        },
    )
}

/// Whether some clustered instances are to be within reach, so that it is left to chance.
pub fn may_be_learnable<R: Scalar>(prob: &R, min: usize, max: usize) -> (r: bool)
    ensures
        r == (R::spec_less(zero(), *prob) && max >= min && min > 0),
{
    R::less(&R::decimal(0, 0), prob) && max >= min && min > 0
}

/// The largest number of clusters to draw: at least 1.
pub open spec fn spec_most_clusters(num_clusters: usize) -> usize {
    if num_clusters == 0 {
        1
    } else {
        num_clusters
    }
}

/// The largest number of clusters to draw.
pub fn most_clusters(num_clusters: usize) -> (r: usize)
    ensures
        r == spec_most_clusters(num_clusters),
{
    if num_clusters == 0 {
        1
    } else {
        num_clusters
    }
}

/// How the objectives of an instance are laid out.
#[derive(Clone, Copy, Debug, PartialEq, Eq, Structural)]
pub enum Shape {
    /// Objectives all over the grid.
    Scattered { num_objectives: usize },
    /// One wide objective in clusters.
    Clustered { weight: usize, num_clusters: usize },
}

/// What the layout of an instance is chosen by.
pub struct Shaping<R> {
    pub height: usize,
    pub width: usize,
    pub num_blanks: usize,
    /// The fraction of clustered instances.
    pub clustered_fraction: R,
    /// The most clusters.
    pub num_clusters: usize,
    /// The fraction of clustered instances whose weight is within reach, and their weights.
    pub learnable_prob: R,
    pub learnable_min: usize,
    pub learnable_max: usize,
}

/// The numbers that the layout of an instance is drawn by.
pub ghost struct ShapeDraws<R> {
    pub clustered: R,
    pub clusters: usize,
    pub learnable: R,
    pub weight: usize,
}

impl<R: Scalar> Shaping<R> {
    /// Whether a clustered instance may have a weight within reach.
    pub open spec fn spec_may_be_learnable(&self) -> bool {
        R::spec_less(zero(), self.learnable_prob) && self.learnable_max >= self.learnable_min
            && self.learnable_min > 0
    }

    /// Whether numbers were drawn for a layout, as far as it takes some: the clusters from 1 to
    /// their limit, a weight within reach from its range.
    pub open spec fn are_draws<D>(&self, luck: Luck<R, D>, draws: ShapeDraws<R>) -> bool {
        let full = spec_full_weight(self.height, self.width, self.num_blanks) as usize;
        R::spec_less(zero(), self.clustered_fraction) ==> {
            &&& (luck.unit)(draws.clustered)
            &&& R::spec_less(draws.clustered, self.clustered_fraction) ==> {
                &&& (luck.between)(1, spec_most_clusters(self.num_clusters), draws.clusters)
                &&& self.spec_may_be_learnable() ==> {
                    &&& (luck.unit)(draws.learnable)
                    &&& R::spec_less(draws.learnable, self.learnable_prob) ==> (luck.between)(
                        self.learnable_min,
                        spec_learnable_max(self.learnable_min, self.learnable_max, full),
                        draws.weight,
                    )
                }
            }
        }
    }

    /// The layout by the numbers drawn. A clustered instance has the full weight, unless it is
    /// to be within reach.
    pub open spec fn spec_pick(&self, num_objectives: usize, draws: ShapeDraws<R>) -> Shape {
        if R::spec_less(zero(), self.clustered_fraction) && R::spec_less(
            draws.clustered,
            self.clustered_fraction,
        ) {
            Shape::Clustered {
                weight: if self.spec_may_be_learnable() && R::spec_less(
                    draws.learnable,
                    self.learnable_prob,
                ) {
                    draws.weight
                } else {
                    spec_full_weight(self.height, self.width, self.num_blanks) as usize
                },
                num_clusters: draws.clusters,
            }
        } else {
            Shape::Scattered { num_objectives }
        }
    }

    /// Chooses the layout of an instance: scattered, or clustered with a number of clusters and
    /// a weight. The clusters are drawn from 1 to their limit, a weight within reach from its
    /// range.
    pub fn pick<D: Scalar, H: Chance<R, D>>(&self, num_objectives: usize, chance: &mut H) -> (r:
        Shape)
        requires
            self.height * self.width <= usize::MAX,
        ensures
            exists|draws: ShapeDraws<R>| #[trigger]
                self.spec_pick(num_objectives, draws) == r && self.are_draws(
                    luck_of::<R, D, H>(),
                    draws,
                ),
            !R::spec_less(zero(), self.clustered_fraction) ==> *final(chance) == *old(chance),
    {
        let ghost none = ShapeDraws {
            clustered: zero::<R>(),
            clusters: 0,
            learnable: zero::<R>(),
            weight: 0,
        };
        if !R::less(&R::decimal(0, 0), &self.clustered_fraction) {
            assert(self.spec_pick(num_objectives, none) == (Shape::Scattered { num_objectives }));
            return Shape::Scattered { num_objectives };
        }
        let clustered: R = draw_unit::<R, D, H>(chance);
        if !R::less(&clustered, &self.clustered_fraction) {
            let ghost draws = ShapeDraws { clustered, ..none };
            assert(self.spec_pick(num_objectives, draws) == (Shape::Scattered {
                num_objectives,
            }));
            return Shape::Scattered { num_objectives };
        }
        let clusters: usize = draw_between::<R, D, H>(
            chance,
            1,
            most_clusters(self.num_clusters),
        );
        let full: usize = full_weight(self.height, self.width, self.num_blanks);
        if may_be_learnable(&self.learnable_prob, self.learnable_min, self.learnable_max) {
            let learnable: R = draw_unit::<R, D, H>(chance);
            if R::less(&learnable, &self.learnable_prob) {
                let range: (usize, usize) = learnable_range(
                    self.learnable_min,
                    self.learnable_max,
                    full,
                );
                let weight: usize = draw_between::<R, D, H>(chance, range.0, range.1);
                let r: Shape = Shape::Clustered { weight, num_clusters: clusters };
                let ghost draws = ShapeDraws { clustered, clusters, learnable, weight };
                assert(self.spec_pick(num_objectives, draws) == r);
                return r;
            }
            let r: Shape = Shape::Clustered { weight: full, num_clusters: clusters };
            let ghost draws = ShapeDraws { clustered, clusters, learnable, weight: 0 };
            assert(self.spec_pick(num_objectives, draws) == r);
            return r;
        }
        let r: Shape = Shape::Clustered { weight: full, num_clusters: clusters };
        let ghost draws = ShapeDraws { clustered, clusters, learnable: zero::<R>(), weight: 0 };
        assert(self.spec_pick(num_objectives, draws) == r);
        r
    }
}

/// The limits on generated instances.
pub struct Limits<R> {
    /// The longest reference plan.
    pub max_generated_depth: usize,
    /// The longest reference plan of a clustered instance that is only demonstrated.
    pub clustered_max_generated_depth: Option<usize>,
    /// Instances of at least this weight are only demonstrated; 0 disables it.
    pub demo_only_min_weight: usize,
    /// The shortest reference plan of most instances; 0 disables it.
    pub gather_min_ref_actions: usize,
    /// The fraction of shorter ones that is kept.
    pub gather_easy_keep_fraction: R,
}

/// Whether all flags are set.
pub open spec fn all_set(flags: Seq<bool>) -> bool {
    forall|i: int| 0 <= i < flags.len() ==> #[trigger] flags[i]
}

/// Whether all flags are set.
fn are_all_set(flags: &[bool]) -> (r: bool)
    ensures
        r == all_set(flags@),
{
    let mut i: usize = 0;
    while i < flags.len()
        invariant
            i <= flags@.len(),
            forall|j: int| 0 <= j < i ==> #[trigger] flags@[j],
        decreases flags.len() - i,
    {
        if !flags[i] {
            return false;
        }
        i += 1;
    }
    true
}

impl<R: Scalar> Limits<R> {
    /// The longest plan that an instance may have.
    pub open spec fn spec_cap(&self, is_clustered: bool, max_weight: usize) -> usize {
        let demo_only = self.demo_only_min_weight > 0 && max_weight >= self.demo_only_min_weight;
        match self.clustered_max_generated_depth {
            Some(n) if is_clustered && demo_only => n,
            _ => self.max_generated_depth,
        }
    }

    /// The longest plan that an instance may have. Clustered instances that are only
    /// demonstrated can have a limit of their own.
    pub fn cap(&self, is_clustered: bool, max_weight: usize) -> (r: usize)
        ensures
            r == self.spec_cap(is_clustered, max_weight),
    {
        let demo_only: bool = self.demo_only_min_weight > 0 && max_weight
            >= self.demo_only_min_weight;
        if is_clustered && demo_only {
            match self.clustered_max_generated_depth {
                Some(n) => n,
                None => self.max_generated_depth,
            }
        } else {
            self.max_generated_depth
        }
    }

    /// What decides, short of chance, that an instance is admitted.
    pub open spec fn spec_may_admit(
        &self,
        is_clustered: bool,
        max_weight: usize,
        automatic: Seq<bool>,
    ) -> bool {
        automatic.len() <= self.spec_cap(is_clustered, max_weight) && !all_set(automatic)
    }

    /// Whether an instance is so easy that it is left to chance.
    pub open spec fn spec_easy(&self, plan_len: int) -> bool {
        self.gather_min_ref_actions > 0 && plan_len < self.gather_min_ref_actions
    }

    /// Whether an instance can be gathered on, by its reference plan: for each action, whether
    /// it is the automatic one. The plan is within the limit, and needs more than the automatic
    /// action.
    pub fn may_admit(&self, is_clustered: bool, max_weight: usize, automatic: &[bool]) -> (r: bool)
        ensures
            r == self.spec_may_admit(is_clustered, max_weight, automatic@),
    {
        automatic.len() <= self.cap(is_clustered, max_weight) && !are_all_set(automatic)
    }

    /// Whether an instance is so easy that it is left to chance.
    pub fn easy(&self, plan_len: usize) -> (r: bool)
        ensures
            r == self.spec_easy(plan_len as int),
    {
        self.gather_min_ref_actions > 0 && plan_len < self.gather_min_ref_actions
    }

    /// What [`Limits::admits`] gives.
    pub open spec fn spec_admits(
        &self,
        is_clustered: bool,
        max_weight: usize,
        automatic: Seq<bool>,
        draw: R,
    ) -> bool {
        self.spec_may_admit(is_clustered, max_weight, automatic) && !(self.spec_easy(
            automatic.len() as int,
        ) && spec_at_most(self.gather_easy_keep_fraction, draw))
    }

    /// Whether an instance is gathered on. Of the easy ones a fraction is kept, by a number
    /// drawn from 0 to 1.
    pub fn admits(
        &self,
        is_clustered: bool,
        max_weight: usize,
        automatic: &[bool],
        draw: &R,
    ) -> (r: bool)
        ensures
            r == self.spec_admits(is_clustered, max_weight, automatic@, *draw),
    {
        self.may_admit(is_clustered, max_weight, automatic) && !(self.easy(automatic.len())
            && at_most(&self.gather_easy_keep_fraction, draw))
    }

    /// Whether an instance is gathered on. A number is drawn only for an easy one that can be.
    pub fn decide<D: Scalar, H: Chance<R, D>>(
        &self,
        is_clustered: bool,
        max_weight: usize,
        automatic: &[bool],
        chance: &mut H,
    ) -> (r: bool)
        ensures
            exists|draw: R| #[trigger]
                self.spec_admits(is_clustered, max_weight, automatic@, draw) == r && (
                self.spec_may_admit(is_clustered, max_weight, automatic@) && self.spec_easy(
                    automatic@.len() as int,
                ) ==> (luck_of::<R, D, H>().unit)(draw)),
            !(self.spec_may_admit(is_clustered, max_weight, automatic@) && self.spec_easy(
                automatic@.len() as int,
            )) ==> *final(chance) == *old(chance),
    {
        let draw: R = if self.may_admit(is_clustered, max_weight, automatic) && self.easy(
            automatic.len(),
        ) {
            draw_unit::<R, D, H>(chance)
        } else {
            R::decimal(0, 0)
        };
        let r: bool = self.admits(is_clustered, max_weight, automatic, &draw);
        assert(self.spec_admits(is_clustered, max_weight, automatic@, draw) == r);
        r
    }
}

/// The name of the arena for a number of slots and handlers, with a tag if there is one.
pub fn tagged_arena_name(tag: &str, num_slots: usize, num_handlers: usize) -> (r: String)
    ensures
        r@ == (if tag@.len() == 0 {
            "mcts_"@ + digits(num_slots as nat) + "_"@ + digits(num_handlers as nat)
        } else {
            "mcts_"@ + tag@ + "_"@ + digits(num_slots as nat) + "_"@ + digits(num_handlers as nat)
        }),
{
    if tag.unicode_len() == 0 {
        return crate::arena::arena_name(num_slots, num_handlers);
    }
    let slots: String = number_text(num_slots as u64);
    let handlers: String = number_text(num_handlers as u64);
    String::from_str("mcts_").concat(tag).concat("_").concat(slots.as_str()).concat("_").concat(
        handlers.as_str(),
    )
}

} // verus!
