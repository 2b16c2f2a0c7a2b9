//! The settings of self-play and the rules that depend on them alone: which search a turn gets,
//! how an action is drawn, how a partial result is graded, and what is recorded.

use crate::scalar::{clamp, larger, one, spec_clamp, times, zero, Binary, Scalar, Unary};
use vstd::prelude::*;

verus! {

/// The settings of a worker that plays episodes and records them. Rewards and values are
/// numbers of `R`; the weights that actions are drawn by are numbers of `D`.
pub struct Gatherer<R, D> {
    /// Leaves that are evaluated together.
    pub batch_size: usize,
    /// Playouts of a full search, which is recorded.
    pub mcts_steps: usize,
    /// Playouts of a fast search, which only picks the move.
    pub fast_steps: usize,
    /// Fraction of the turns that run a full search.
    pub p_full_search: R,
    /// A fixed action budget of an episode.
    pub max_actions: Option<usize>,
    /// Without a fixed budget: the budget as a multiple of the reference's actions.
    pub max_action_multiplier: R,
    pub output_path: String,
    /// Weight of the noise on the move, before it decays.
    pub noise_strength: D,
    /// Weight of the noise on the root priors of full searches; 0 disables it.
    pub dirichlet_epsilon: R,
    /// Objective layers of an observation.
    pub lookahead: usize,
    pub gather_id: usize,
    /// Temperature at which the rewards saturate.
    pub reward_saturation_temperature: R,
    /// An episode resigns when the value is at most this for a number of moves in a row.
    pub resign_value_threshold: R,
    /// That number of moves; 0 disables resignation.
    pub resign_consecutive_moves: usize,
    /// No resignation before this multiple of the reference depth, and before step 20; 0
    /// disables the floor.
    pub resign_min_step_ref_mult: R,
    /// Probability of a reverse-curriculum climb on clustered instances; negative for the
    /// general one.
    pub clustered_reverse_prob: R,
    /// Weight of the widest objective of the instance.
    pub env_mw: usize,
    /// Total weight of the objectives of the instance.
    pub env_tw: usize,
    /// Clusters of the instance; 0 if it is not clustered.
    pub env_k: usize,
    /// Fraction of the episodes that never resign.
    pub no_resign_rate: R,
    /// Probability that an episode without progress is kept.
    pub floor_keep_fraction: R,
    /// Moves the zero of the reward of partial episodes to this much above the reference.
    pub her_reward_margin: R,
    /// Whether a partial episode is graded against the goal that it reached.
    pub her_reward: bool,
    pub trajectory_dir: Option<String>,
    pub resignation_log_dir: Option<String>,
    /// Whether episodes may start behind a scaffold of reference actions.
    pub reverse_curriculum: bool,
    /// The shortest reference plan that is climbed.
    pub reverse_curriculum_min_len: usize,
    /// Probes of one climb.
    pub reverse_curriculum_max_probes: usize,
    /// Scaffold of the first probe.
    pub reverse_curriculum_prefix_start: usize,
    /// Probability of a climb.
    pub reverse_curriculum_prob: R,
    /// Where hard wins are kept for good.
    pub gold_shard_dir: Option<String>,
    /// Reference actions that make a win hard.
    pub gold_min_len: usize,
    /// Score that makes a win good.
    pub gold_min_reward: R,
    /// Whether hard instances are graded against a goal just past reach.
    pub cusp_reward: bool,
    /// Objectives within reach.
    pub cusp_frontier: usize,
    /// How far past reach the goal is.
    pub cusp_margin: usize,
    /// Probability of a demonstration after a failure.
    pub demo_fraction: R,
    /// Demonstrations need more objectives than this.
    pub demo_min_objectives: usize,
    /// Probability that a state of a demonstration is kept.
    pub demo_subsample: R,
    /// Instances of at least this weight are only demonstrated; 0 disables it.
    pub demo_only_min_weight: usize,
    /// Temperature of the move from `deep_play_after` on; 0 keeps the decay.
    pub deep_play_temp: R,
    pub deep_play_after: usize,
    /// Probability of a climb on an instance that is otherwise only demonstrated.
    pub full_weight_rc_prob: R,
    /// Actions that such a climb leaves to play at first.
    pub full_weight_rc_tail: usize,
    /// States to keep of a demonstration, whatever its length; 0 goes by `demo_subsample`.
    pub demo_target_states: usize,
}

/// The number given, or else a decimal.
pub open spec fn spec_or_decimal<R: Scalar>(x: Option<R>, digits: int, exponent: int) -> R {
    match x {
        Some(v) => v,
        None => R::spec_decimal(digits, exponent),
    }
}

/// The number given, or else a decimal.
fn or_decimal<R: Scalar>(x: Option<R>, digits: i64, exponent: i32) -> (r: R)
    ensures
        r == spec_or_decimal(x, digits as int, exponent as int),
{
    match x {
        Some(v) => v,
        None => R::decimal(digits, exponent),
    }
}

/// Cuts a number to the range from 0 to 1.
pub open spec fn spec_unit<R: Scalar>(x: R) -> R {
    spec_clamp(x, zero(), one())
}

/// Cuts a number to the range from 0 to 1.
fn unit<R: Scalar>(x: R) -> (r: R)
    ensures
        r == spec_unit(x),
{
    clamp(x, R::decimal(0, 0), R::decimal(1, 0))
}

/// What [`Gatherer::new`] gives.
pub open spec fn spec_gatherer<R: Scalar, D: Scalar>(
    batch_size: usize,
    mcts_steps: usize,
    fast_steps: usize,
    p_full_search: R,
    output_path: String,
    noise_strength: D,
    dirichlet_epsilon: R,
    lookahead: usize,
    gather_id: usize,
    trajectory_dir: Option<String>,
    reward_saturation_temperature: Option<R>,
    max_actions: Option<usize>,
    max_action_multiplier: Option<R>,
    resign_value_threshold: Option<R>,
    resign_consecutive_moves: Option<usize>,
    resign_min_step_ref_mult: Option<R>,
    no_resign_rate: Option<R>,
    resignation_log_dir: Option<String>,
    floor_keep_fraction: Option<R>,
    her_reward_margin: Option<R>,
) -> Gatherer<R, D> {
    Gatherer {
        batch_size,
        mcts_steps,
        fast_steps,
        p_full_search,
        max_actions,
        max_action_multiplier: spec_or_decimal(max_action_multiplier, 12, -1),
        output_path,
        noise_strength,
        dirichlet_epsilon,
        lookahead,
        gather_id,
        reward_saturation_temperature: spec_or_decimal(reward_saturation_temperature, 3, -1),
        resign_value_threshold: spec_or_decimal(resign_value_threshold, -9, -1),
        resign_consecutive_moves: match resign_consecutive_moves {
            Some(n) => n,
            None => 5,
        },
        resign_min_step_ref_mult: spec_or_decimal(resign_min_step_ref_mult, 0, 0),
        clustered_reverse_prob: R::spec_decimal(-1, 0),
        env_mw: 0,
        env_tw: 0,
        env_k: 0,
        no_resign_rate: spec_or_decimal(no_resign_rate, 1, -1),
        floor_keep_fraction: spec_or_decimal(floor_keep_fraction, 1, 0),
        her_reward_margin: spec_or_decimal(her_reward_margin, 0, 0),
        her_reward: true,
        trajectory_dir,
        resignation_log_dir,
        reverse_curriculum: false,
        reverse_curriculum_min_len: usize::MAX,
        reverse_curriculum_max_probes: 5,
        reverse_curriculum_prefix_start: 10,
        reverse_curriculum_prob: one(),
        gold_shard_dir: None,
        gold_min_len: usize::MAX,
        gold_min_reward: zero(),
        cusp_reward: false,
        cusp_frontier: 2,
        cusp_margin: 2,
        demo_fraction: zero(),
        demo_subsample: one(),
        demo_min_objectives: 2,
        demo_only_min_weight: 0,
        demo_target_states: 0,
        full_weight_rc_prob: zero(),
        full_weight_rc_tail: 0,
        deep_play_temp: zero(),
        deep_play_after: 20,
    }
}

impl<R: Scalar, D: Scalar> Gatherer<R, D> {
    /// Settings with everything optional at its default: a budget of 1.2 times the reference,
    /// temperature 0.3, resignation at -0.9 for 5 moves with a tenth of the episodes exempt,
    /// every episode kept, and no curriculum, bank or demonstrations.
    pub fn new(
        batch_size: usize,
        mcts_steps: usize,
        fast_steps: usize,
        p_full_search: R,
        output_path: String,
        noise_strength: D,
        dirichlet_epsilon: R,
        lookahead: usize,
        gather_id: usize,
        trajectory_dir: Option<String>,
        reward_saturation_temperature: Option<R>,
        max_actions: Option<usize>,
        max_action_multiplier: Option<R>,
        resign_value_threshold: Option<R>,
        resign_consecutive_moves: Option<usize>,
        resign_min_step_ref_mult: Option<R>,
        no_resign_rate: Option<R>,
        resignation_log_dir: Option<String>,
        floor_keep_fraction: Option<R>,
        her_reward_margin: Option<R>,
    ) -> (r: Self)
        ensures
            r == spec_gatherer::<R, D>(
                batch_size,
                mcts_steps,
                fast_steps,
                p_full_search,
                output_path,
                noise_strength,
                dirichlet_epsilon,
                lookahead,
                gather_id,
                trajectory_dir,
                reward_saturation_temperature,
                max_actions,
                max_action_multiplier,
                resign_value_threshold,
                resign_consecutive_moves,
                resign_min_step_ref_mult,
                no_resign_rate,
                resignation_log_dir,
                floor_keep_fraction,
                her_reward_margin,
            ),
    {
        Gatherer {
            batch_size,
            mcts_steps,
            fast_steps,
            p_full_search,
            max_actions,
            max_action_multiplier: or_decimal(max_action_multiplier, 12, -1),
            output_path,
            noise_strength,
            dirichlet_epsilon,
            lookahead,
            gather_id,
            reward_saturation_temperature: or_decimal(reward_saturation_temperature, 3, -1),
            resign_value_threshold: or_decimal(resign_value_threshold, -9, -1),
            resign_consecutive_moves: match resign_consecutive_moves {
                Some(n) => n,
                None => 5,
            },
            resign_min_step_ref_mult: or_decimal(resign_min_step_ref_mult, 0, 0),
            clustered_reverse_prob: R::decimal(-1, 0),
            env_mw: 0,
            env_tw: 0,
            env_k: 0,
            no_resign_rate: or_decimal(no_resign_rate, 1, -1),
            floor_keep_fraction: or_decimal(floor_keep_fraction, 1, 0),
            her_reward_margin: or_decimal(her_reward_margin, 0, 0),
            her_reward: true,
            trajectory_dir,
            resignation_log_dir,
            reverse_curriculum: false,
            reverse_curriculum_min_len: usize::MAX,
            reverse_curriculum_max_probes: 5,
            reverse_curriculum_prefix_start: 10,
            reverse_curriculum_prob: R::decimal(1, 0),
            gold_shard_dir: None,
            gold_min_len: usize::MAX,
            gold_min_reward: R::decimal(0, 0),
            cusp_reward: false,
            cusp_frontier: 2,
            cusp_margin: 2,
            demo_fraction: R::decimal(0, 0),
            demo_subsample: R::decimal(1, 0),
            demo_min_objectives: 2,
            demo_only_min_weight: 0,
            demo_target_states: 0,
            full_weight_rc_prob: R::decimal(0, 0),
            full_weight_rc_tail: 0,
            deep_play_temp: R::decimal(0, 0),
            deep_play_after: 20,
        }
    }

    /// Sets up demonstrations.
    pub fn set_demo(
        &mut self,
        demo_fraction: R,
        demo_min_objectives: usize,
        demo_subsample: R,
        demo_only_min_weight: usize,
        demo_target_states: usize,
    )
        ensures
            *final(self) == (Gatherer {
                demo_fraction: spec_unit(demo_fraction),
                demo_subsample: spec_unit(demo_subsample),
                demo_min_objectives,
                demo_only_min_weight,
                demo_target_states,
                ..*old(self)
            }),
    {
        self.demo_fraction = unit(demo_fraction);
        self.demo_subsample = unit(demo_subsample);
        self.demo_min_objectives = demo_min_objectives;
        self.demo_only_min_weight = demo_only_min_weight;
        self.demo_target_states = demo_target_states;
    }

    /// Sets the temperature deep in an episode.
    pub fn set_deep_play(&mut self, temp: R, after: usize)
        ensures
            *final(self) == (Gatherer {
                deep_play_temp: larger(temp, zero()),
                deep_play_after: after,
                ..*old(self)
            }),
    {
        self.deep_play_temp = R::binary(Binary::Max, &temp, &R::decimal(0, 0));
        self.deep_play_after = after;
    }

    /// Sets up climbs on instances that are otherwise only demonstrated.
    pub fn set_full_weight_rc(&mut self, prob: R, tail: usize)
        ensures
            *final(self) == (Gatherer {
                full_weight_rc_prob: spec_unit(prob),
                full_weight_rc_tail: tail,
                ..*old(self)
            }),
    {
        self.full_weight_rc_prob = unit(prob);
        self.full_weight_rc_tail = tail;
    }

    /// Switches the grading against the reached goal.
    pub fn set_her_reward(&mut self, enabled: bool)
        ensures
            *final(self) == (Gatherer { her_reward: enabled, ..*old(self) }),
    {
        self.her_reward = enabled;
    }

    /// Sets up the grading against a goal just past reach. The margin is at least 1.
    pub fn set_cusp_reward(&mut self, enabled: bool, frontier: usize, margin: usize)
        ensures
            *final(self) == (Gatherer {
                cusp_reward: enabled,
                cusp_frontier: frontier,
                cusp_margin: if margin == 0 {
                    1
                } else {
                    margin
                },
                ..*old(self)
            }),
    {
        self.cusp_reward = enabled;
        self.cusp_frontier = frontier;
        self.cusp_margin = if margin == 0 {
            1
        } else {
            margin
        };
    }

    /// Sets up the bank of hard wins.
    pub fn set_gold_banking(
        &mut self,
        gold_shard_dir: Option<String>,
        gold_min_len: usize,
        gold_min_reward: R,
    )
        ensures
            *final(self) == (Gatherer {
                gold_shard_dir,
                gold_min_reward,
                gold_min_len,
                ..*old(self)
            }),
    {
        self.gold_shard_dir = gold_shard_dir;
        self.gold_min_reward = gold_min_reward;
        self.gold_min_len = gold_min_len;
    }

    /// Sets up the reverse curriculum. There is at least one probe.
    pub fn set_reverse_curriculum(
        &mut self,
        enabled: bool,
        min_len: usize,
        max_probes: usize,
        prefix_start: usize,
        prob: R,
    )
        ensures
            *final(self) == (Gatherer {
                reverse_curriculum: enabled,
                reverse_curriculum_prob: spec_unit(prob),
                reverse_curriculum_min_len: min_len,
                reverse_curriculum_max_probes: if max_probes == 0 {
                    1
                } else {
                    max_probes
                },
                reverse_curriculum_prefix_start: prefix_start,
                ..*old(self)
            }),
    {
        self.reverse_curriculum = enabled;
        self.reverse_curriculum_prob = unit(prob);
        self.reverse_curriculum_min_len = min_len;
        self.reverse_curriculum_max_probes = if max_probes == 0 {
            1
        } else {
            max_probes
        };
        self.reverse_curriculum_prefix_start = prefix_start;
    }

    /// Sets the probability of a climb on clustered instances. A negative one stands for the
    /// general probability.
    pub fn set_clustered_reverse_prob(&mut self, prob: R)
        ensures
            *final(self) == (Gatherer {
                clustered_reverse_prob: if R::spec_less(prob, zero()) {
                    R::spec_decimal(-1, 0)
                } else {
                    spec_unit(prob)
                },
                ..*old(self)
            }),
    {
        self.clustered_reverse_prob = if R::less(&prob, &R::decimal(0, 0)) {
            R::decimal(-1, 0)
        } else {
            unit(prob)
        };
    }

    /// Sets the weight of the widest objective and the number of clusters of the instance.
    pub fn set_env_meta(&mut self, mw: usize, k: usize)
        ensures
            *final(self) == (Gatherer { env_mw: mw, env_k: k, ..*old(self) }),
    {
        self.env_mw = mw;
        self.env_k = k;
    }

    /// Sets the total objective weight of the instance.
    pub fn set_env_total_weight(&mut self, tw: usize)
        ensures
            *final(self) == (Gatherer { env_tw: tw, ..*old(self) }),
    {
        self.env_tw = tw;
    }

    /// Whether episodes can resign at all.
    pub open spec fn spec_resignation_enabled(&self) -> bool {
        self.resign_consecutive_moves > 0 && R::spec_less(self.resign_value_threshold, one())
    }

    /// Whether episodes can resign at all.
    pub fn resignation_enabled(&self) -> (r: bool)
        ensures
            r == self.spec_resignation_enabled(),
    {
        self.resign_consecutive_moves > 0 && R::less(
            &self.resign_value_threshold,
            &R::decimal(1, 0),
        )
    }

    /// The budget in actions, before the slack, that the reference gives an episode.
    pub open spec fn scaled_budget(&self, reference_actions: usize) -> usize {
        R::spec_to_count(
            R::spec_unary(
                Unary::Ceil,
                times(R::spec_count(reference_actions), self.max_action_multiplier),
            ),
        )
    }

    /// What [`Gatherer::action_budget`] gives.
    pub open spec fn spec_action_budget(&self, reference_actions: usize) -> int {
        match self.max_actions {
            Some(n) => n as int,
            None => self.scaled_budget(reference_actions) + 2,
        }
    }

    /// The number of actions that an episode may take: the fixed one, or the multiple of the
    /// reference's actions, rounded up, and 2 more.
    pub fn action_budget(&self, reference_actions: usize) -> (r: usize)
        requires
            self.spec_action_budget(reference_actions) <= usize::MAX,
        ensures
            r == self.spec_action_budget(reference_actions),
    {
        match self.max_actions {
            Some(n) => n,
            None => {
                let scaled: R = R::binary(
                    Binary::Times,
                    &R::count(reference_actions),
                    &self.max_action_multiplier,
                );
                R::to_count(&R::unary(Unary::Ceil, &scaled)) + 2
            },
        }
    }

    /// What [`Gatherer::resign_floor`] gives.
    pub open spec fn spec_resign_floor(&self, reference_depth: R) -> usize {
        if R::spec_less(zero(), self.resign_min_step_ref_mult) {
            R::spec_to_count(
                larger(
                    R::spec_unary(
                        Unary::Ceil,
                        times(self.resign_min_step_ref_mult, reference_depth),
                    ),
                    R::spec_decimal(20, 0),
                ),
            )
        } else {
            0
        }
    }

    /// The first step at which an episode may resign.
    pub fn resign_floor(&self, reference_depth: &R) -> (r: usize)
        ensures
            r == self.spec_resign_floor(*reference_depth),
    {
        if R::less(&R::decimal(0, 0), &self.resign_min_step_ref_mult) {
            let scaled: R = R::binary(
                Binary::Times,
                &self.resign_min_step_ref_mult,
                reference_depth,
            );
            R::to_count(
                &R::binary(Binary::Max, &R::unary(Unary::Ceil, &scaled), &R::decimal(20, 0)),
            )
        } else {
            0
        }
    }
}

} // verus!
