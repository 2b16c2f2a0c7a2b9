//! What is gathered on, how, and what is written of it.

use crate::climb::spec_next_probe;
use crate::episode::{EpisodeOutcome, StepRecord, TurnRecord};
use crate::evaluator::{is_last_most_visited, slot_visits, Evaluator};
use crate::gatherer::{spec_gatherer, spec_unit, Gatherer};
use crate::generation::{
    spec_degenerate, spec_full_weight, spec_learnable_max, spec_most_clusters, Limits, Route,
    Shape, ShapeDraws, Shaping,
};
use crate::grading::{spec_pp_weights, Hindsight, RewardKind};
use crate::playthrough::Luck;
use crate::records::{
    spec_trajectory_fields, spec_trajectory_value, spec_trajectory_weights, FieldView,
};
use crate::reward::spec_done_score;
use crate::scalar::{minus, over, times, Binary, Scalar, Unary};
use crate::text::digits;
use crate::tilers_obs::{full_mask, spec_channel, spec_lookahead, Action, BoardCell};
use vstd::prelude::*;

verus! {

/// Whether a number is at most another.
pub open spec fn is_at_most<R: Scalar>(x: R, y: R) -> bool {
    R::spec_less(x, y) || R::spec_same(x, y)
}

/// Law: an episode that made no progress, or whose grade is next to -1, is kept as training data
/// only by a draw below the fraction to keep, if that is below 1. Any other episode is kept.
pub proof fn law_chance_keeps_empty_episodes<R: Scalar, D: Scalar>(
    g: &Gatherer<R, D>,
    o: &EpisodeOutcome<R>,
    is_reverse: bool,
    draw: R,
)
    ensures
        ({
            let empty = o.reward_kind == RewardKind::Floor || o.reward_kind == RewardKind::Her && (
            R::spec_less(o.score, R::spec_decimal(-999, -3)) || R::spec_same(
                o.score,
                R::spec_decimal(-999, -3),
            ));
            let fraction = g.floor_keep_fraction;
            let dropped = empty && R::spec_less(fraction, R::spec_decimal(1, 0)) && (R::spec_less(
                fraction,
                draw,
            ) || R::spec_same(fraction, draw));
            g.spec_plan_writing(o, is_reverse, draw).corpus == !dropped
        }),
{
}

/// Law: the trajectory of an episode is written exactly where its score is positive and there is a
/// place for it, and a line of the log exactly where there is a place for that.
pub proof fn law_wins_have_their_trajectory_written<R: Scalar, D: Scalar>(
    g: &Gatherer<R, D>,
    o: &EpisodeOutcome<R>,
    is_reverse: bool,
    draw: R,
)
    ensures
        g.spec_plan_writing(o, is_reverse, draw).trajectory <==> g.trajectory_dir is Some
            && R::spec_less(R::spec_decimal(0, 0), o.score),
        g.spec_plan_writing(o, is_reverse, draw).log <==> g.resignation_log_dir is Some,
{
}

/// Law: an episode is banked exactly where there is a bank and it is kept, reached its goal from
/// the start, is at least as good as the bank asks for, and at least as long.
pub proof fn law_hard_wins_are_banked<R: Scalar, D: Scalar>(
    g: &Gatherer<R, D>,
    o: &EpisodeOutcome<R>,
    is_reverse: bool,
    draw: R,
)
    ensures
        g.spec_plan_writing(o, is_reverse, draw).gold <==> {
            &&& g.spec_plan_writing(o, is_reverse, draw).corpus
            &&& g.gold_shard_dir is Some
            &&& o.done
            &&& !is_reverse
            &&& R::spec_less(g.gold_min_reward, o.score) || R::spec_same(
                g.gold_min_reward,
                o.score,
            )
            &&& o.reference_action_count >= g.gold_min_len
        },
{
}

/// Law: the files of an episode come in the order log, trajectory, training data, bank, each where
/// the plan has it; the training data has a record for each full search and the trajectory one for
/// each step, in order.
pub proof fn law_files_of_an_episode<R: Scalar, D: Scalar>(
    g: &Gatherer<R, D>,
    o: &EpisodeOutcome<R>,
    is_reverse: bool,
    draw: R,
    i: int,
)
    ensures
        ({
            let plan = g.spec_plan_writing(o, is_reverse, draw);
            let files = g.spec_writings(o, is_reverse, draw);
            let log = if plan.log {
                1int
            } else {
                0
            };
            let trajectory = if plan.trajectory {
                1int
            } else {
                0
            };
            let corpus = if plan.corpus {
                1int
            } else {
                0
            };
            let gold = if plan.gold {
                1int
            } else {
                0
            };
            &&& files.len() == log + trajectory + corpus + gold
            &&& plan.log ==> {
                let dir = g.resignation_log_dir->0@;
                &&& files[0].records == seq![g.spec_resignation_fields(o)]
                &&& !files[0].vital
                &&& files[0].dir == Some(dir)
                &&& files[0].path == dir + "/resignation_"@ + digits(g.gather_id as nat)
                    + ".jsonl"@
            }
            &&& plan.trajectory ==> {
                let file = files[log];
                let dir = g.trajectory_dir->0@;
                &&& file.vital
                &&& file.dir == Some(dir)
                &&& file.path == dir + "/traj_"@ + digits(g.gather_id as nat) + ".json"@
                &&& file.records.len() == o.all_steps_data@.len()
                &&& 0 <= i < file.records.len() ==> file.records[i] == spec_trajectory_fields(o, i)
            }
            &&& plan.corpus ==> {
                let file = files[log + trajectory];
                &&& file.vital
                &&& file.dir is None
                &&& file.path == g.output_path@
                &&& file.records.len() == o.temp_data@.len()
                &&& 0 <= i < file.records.len() ==> file.records[i] == g.spec_corpus_fields(
                    o,
                    &o.temp_data@[i],
                    is_reverse,
                )
            }
            &&& plan.gold ==> {
                let file = files[log + trajectory + corpus];
                let dir = g.gold_shard_dir->0@;
                &&& !file.vital
                &&& file.dir == Some(dir)
                &&& file.path == dir + "/gold-"@ + digits(g.gather_id as nat) + ".jsonl"@
                &&& file.records.len() == o.temp_data@.len()
                &&& 0 <= i < file.records.len() ==> file.records[i] == g.spec_gold_fields(
                    o,
                    &o.temp_data@[i],
                    is_reverse,
                )
            }
        }),
{
}

/// Law: a record of training data holds the recorded visits, the grade of the whole episode, and
/// what the instance is.
pub proof fn law_training_record<R: Scalar, D: Scalar>(
    g: &Gatherer<R, D>,
    o: &EpisodeOutcome<R>,
    rec: &TurnRecord,
    is_reverse: bool,
)
    ensures
        ({
            let fields = g.spec_corpus_fields(o, rec, is_reverse);
            &&& fields.len() == 13
            &&& fields[0] == ("height"@, FieldView::<R>::Count(o.instance.height))
            &&& fields[1] == ("width"@, FieldView::<R>::Count(o.instance.width))
            &&& fields[2] == ("num_ancillas"@, FieldView::<R>::Count(rec.num_ancillas))
            &&& fields[3].0 == "board"@
            &&& fields[4] == ("valid_actions"@, FieldView::<R>::Ids(rec.valid_actions@))
            &&& fields[5] == ("edge_visits"@, FieldView::<R>::Visits(rec.edge_visits@))
            &&& fields[6] == ("reward"@, FieldView::Number(o.score))
            &&& fields[7].0 == "reward_kind"@
            &&& fields[8] == (
                "achieved_objectives"@,
                FieldView::<R>::Count(o.achieved_objectives),
            )
            &&& fields[9] == ("reverse_curriculum"@, FieldView::<R>::Flag(is_reverse))
            &&& fields[10] == ("env_mw"@, FieldView::<R>::Count(g.env_mw))
            &&& fields[11] == ("env_tw"@, FieldView::<R>::Count(g.env_tw))
            &&& fields[12] == ("env_k"@, FieldView::<R>::Count(g.env_k))
        }),
{
}

/// Law: a record of the bank is one of training data without what the instance is, marked as gold.
pub proof fn law_bank_record<R: Scalar, D: Scalar>(
    g: &Gatherer<R, D>,
    o: &EpisodeOutcome<R>,
    rec: &TurnRecord,
    is_reverse: bool,
)
    ensures
        g.spec_gold_fields(o, rec, is_reverse) =~= g.spec_corpus_fields(o, rec, is_reverse).take(
            10,
        ).push(("gold"@, FieldView::Flag(true))),
{
}

/// Law: a record of a demonstration has everything on the action of the plan, and the reward of
/// the reference itself, which is 0.
pub proof fn law_demonstration_record<R: Scalar, D: Scalar>(g: &Gatherer<R, D>, rec: &StepRecord)
    ensures
        ({
            let fields = g.spec_demo_fields(rec);
            &&& fields.len() == 14
            &&& fields[0] == ("height"@, FieldView::<R>::Count(rec.height))
            &&& fields[1] == ("width"@, FieldView::<R>::Count(rec.width))
            &&& fields[2] == ("num_ancillas"@, FieldView::<R>::Count(rec.num_ancillas))
            &&& fields[4] == ("valid_actions"@, FieldView::<R>::Ids(rec.valid_actions@))
            &&& fields[5] == ("edge_visits"@, FieldView::<R>::OneHot(rec.action))
            &&& fields[6] == ("reward"@, FieldView::Number(R::spec_decimal(0, 0)))
            &&& fields[7] == ("reward_kind"@, FieldView::<R>::Text("demo"@))
            &&& fields[8] == ("achieved_objectives"@, FieldView::<R>::Count(0))
            &&& fields[9] == ("reverse_curriculum"@, FieldView::<R>::Flag(false))
            &&& fields[10] == ("is_demo"@, FieldView::<R>::Flag(true))
            &&& fields[11] == ("env_mw"@, FieldView::<R>::Count(g.env_mw))
            &&& fields[12] == ("env_tw"@, FieldView::<R>::Count(g.env_tw))
            &&& fields[13] == ("env_k"@, FieldView::<R>::Count(g.env_k))
        }),
{
}

/// Law: a board is written cell by cell with its ten channels in their order.
pub proof fn law_board_is_written_whole(board: Seq<Vec<BoardCell>>, l: int, c: int)
    requires
        0 <= l < board.len(),
        0 <= c < board[l]@.len(),
    ensures
        ({
            let written = crate::records::board_view(board);
            let cell = board[l]@[c];
            &&& written.len() == board.len()
            &&& written[l].len() == board[l]@.len()
            &&& written[l][c] == seq![
                cell.qubit_role,
                cell.factor_kind,
                cell.resource_kind,
                cell.pp_group_row,
                cell.pp_group_col,
                cell.ancilla_idx,
                cell.last_move_dir,
                cell.weight_in_pp,
                cell.is_hub_for_pp,
                cell.is_y_ready,
            ]
        }),
{
    let written = crate::records::board_view(board);
    assert(written[l][c] =~= seq![
        board[l]@[c].qubit_role,
        board[l]@[c].factor_kind,
        board[l]@[c].resource_kind,
        board[l]@[c].pp_group_row,
        board[l]@[c].pp_group_col,
        board[l]@[c].ancilla_idx,
        board[l]@[c].last_move_dir,
        board[l]@[c].weight_in_pp,
        board[l]@[c].is_hub_for_pp,
        board[l]@[c].is_y_ready,
    ]);
}

/// Law: no channel of a cell is left out: cells that agree in their ten channels are the same.
pub proof fn law_channels_tell_cells_apart(a: BoardCell, b: BoardCell)
    requires
        forall|f: int| 0 <= f < 10 ==> #[trigger] spec_channel(a, f) == spec_channel(b, f),
    ensures
        a == b,
{
    assert(spec_channel(a, 0) == spec_channel(b, 0));
    assert(spec_channel(a, 1) == spec_channel(b, 1));
    assert(spec_channel(a, 2) == spec_channel(b, 2));
    assert(spec_channel(a, 3) == spec_channel(b, 3));
    assert(spec_channel(a, 4) == spec_channel(b, 4));
    assert(spec_channel(a, 5) == spec_channel(b, 5));
    assert(spec_channel(a, 6) == spec_channel(b, 6));
    assert(spec_channel(a, 7) == spec_channel(b, 7));
    assert(spec_channel(a, 8) == spec_channel(b, 8));
    assert(spec_channel(a, 9) == spec_channel(b, 9));
}

/// Law: a step of a trajectory is worth 1 where at most two steps are left, itself counted, and
/// otherwise the power of 0.8 by the steps that are left, doubled, at most 2, less 1.
pub proof fn law_trajectory_is_worth_less_far_from_its_end<R: Scalar>(
    o: &EpisodeOutcome<R>,
    step: int,
)
    requires
        0 <= step < o.all_steps_data@.len() <= usize::MAX,
    ensures
        ({
            let rec = o.all_steps_data@[step];
            let left = (o.all_steps_data@.len() - step) as usize;
            let fields = spec_trajectory_fields(o, step);
            let worth = if left <= 2 {
                R::spec_decimal(1, 0)
            } else {
                minus(
                    R::spec_binary(
                        Binary::Min,
                        times(R::spec_decimal(2, 0), R::spec_raise(R::spec_decimal(8, -1), left)),
                        R::spec_decimal(2, 0),
                    ),
                    R::spec_decimal(1, 0),
                )
            };
            &&& fields.len() == 7
            &&& fields[4] == ("valid_actions"@, FieldView::<R>::Ids(rec.valid_actions@))
            &&& fields[5] == (
                "edge_visits"@,
                FieldView::<R>::Weights(spec_trajectory_weights(rec.valid_actions@, rec.action)),
            )
            &&& fields[6] == ("reward"@, FieldView::Number(worth))
            &&& spec_trajectory_value::<R>(left) == worth
        }),
{
}

/// Law: in a trajectory each valid action keeps its place, and the only valid action has weight 1.
pub proof fn law_trajectory_weighs_every_action(
    valid_actions: Seq<Action>,
    action: Action,
    i: int,
)
    requires
        0 <= i < valid_actions.len(),
    ensures
        spec_trajectory_weights(valid_actions, action).len() == valid_actions.len(),
        spec_trajectory_weights(valid_actions, action)[i].0 == valid_actions[i],
        valid_actions.len() == 1 ==> spec_trajectory_weights(valid_actions, action)[i].1 == 1,
        valid_actions[i] != action ==> spec_trajectory_weights(valid_actions, action)[i].1 == 1,
{
}

/// Law: where a number of states is set for demonstrations, a state is kept by that number over
/// the length of the plan, at most surely; else by the fraction that is set.
pub proof fn law_demonstrations_keep_as_many_states<R: Scalar, D: Scalar>(
    g: &Gatherer<R, D>,
    plan_len: usize,
)
    ensures
        g.demo_target_states == 0 ==> g.spec_demo_keep(plan_len) == g.demo_subsample,
        g.demo_target_states > 0 && plan_len > 0 ==> g.spec_demo_keep(plan_len) == R::spec_binary(
            Binary::Min,
            over(R::spec_count(g.demo_target_states), R::spec_count(plan_len)),
            R::spec_decimal(1, 0),
        ),
        g.spec_demo_keep(0) == g.spec_demo_keep(1),
{
}

/// Law: an instance as wide as the limit for demonstrations is climbed with its own probability,
/// if that and its tail are positive. Another one is climbed with the probability for clusters, if
/// it has some and that is not negative, and else with the general one. Nothing is climbed where
/// the curriculum is off.
pub proof fn law_chance_of_a_climb<R: Scalar, D: Scalar>(g: &Gatherer<R, D>, draw: R)
    ensures
        ({
            let wide = g.demo_only_min_weight > 0 && g.env_mw >= g.demo_only_min_weight;
            let own = g.env_k > 0 && is_at_most(R::spec_decimal(0, 0), g.clustered_reverse_prob);
            g.spec_tries_climb(draw) <==> g.reverse_curriculum && (if wide {
                &&& R::spec_less(R::spec_decimal(0, 0), g.full_weight_rc_prob)
                &&& g.full_weight_rc_tail > 0
                &&& R::spec_less(draw, g.full_weight_rc_prob)
            } else if own {
                R::spec_less(draw, g.clustered_reverse_prob)
            } else {
                R::spec_less(draw, g.reverse_curriculum_prob)
            })
        }),
{
}

/// Law: a plan that is long enough is climbed: on an instance that is otherwise only demonstrated
/// from its tail on and not further back than twice the tail, on another one from the set scaffold
/// on. Where no plan is given, or it is too short, the instance is demonstrated or played.
pub proof fn law_route_by_plan<R: Scalar, D: Scalar>(g: &Gatherer<R, D>, plan_len: Option<usize>)
    ensures
        ({
            let wide = g.demo_only_min_weight > 0 && g.env_mw >= g.demo_only_min_weight;
            let tail = g.full_weight_rc_tail;
            let route = g.spec_route(plan_len);
            &&& wide && (plan_len is None || plan_len->0 <= tail) ==> route == Route::Demo
            &&& !wide && (plan_len is None || plan_len->0 < g.reverse_curriculum_min_len)
                ==> route == Route::Episode
            &&& wide && plan_len is Some && plan_len->0 > tail ==> {
                &&& route is Climb
                &&& route->seed + tail == plan_len->0
                &&& plan_len->0 <= 2 * tail ==> route->floor == 0
                &&& plan_len->0 > 2 * tail ==> route->floor + 2 * tail == plan_len->0
            }
            &&& !wide && plan_len is Some && plan_len->0 >= g.reverse_curriculum_min_len
                ==> route == (Route::Climb {
                seed: g.reverse_curriculum_prefix_start,
                floor: 0,
            })
        }),
{
}

/// Law: a demonstration follows an episode exactly where the episode failed on more objectives
/// than are asked for, and the draw is below a positive fraction.
pub proof fn law_failures_are_demonstrated<R: Scalar, D: Scalar>(
    g: &Gatherer<R, D>,
    done: bool,
    num_objectives: usize,
    draw: R,
)
    ensures
        g.spec_wants_demo(done, num_objectives, draw) <==> {
            &&& !done
            &&& num_objectives > g.demo_min_objectives
            &&& R::spec_less(R::spec_decimal(0, 0), g.demo_fraction)
            &&& R::spec_less(draw, g.demo_fraction)
        },
{
}

/// Law: a grid is degenerate where less than two of its cells are left, or where it is at most two
/// by two.
pub proof fn law_degenerate_grids(height: usize, width: usize, num_blanks: usize)
    ensures
        spec_degenerate(height, width, num_blanks) <==> height * width - num_blanks < 2 || height
            <= 2 && width <= 2,
{
}

/// Law: the full weight and the blanks make up the grid, unless there would be no weight left.
pub proof fn law_full_weight_fills_the_grid(height: usize, width: usize, num_blanks: usize)
    ensures
        spec_full_weight(height, width, num_blanks) >= 1,
        num_blanks < height * width ==> spec_full_weight(height, width, num_blanks) + num_blanks
            == height * width,
        num_blanks >= height * width ==> spec_full_weight(height, width, num_blanks) == 1,
{
}

/// Law: weights within reach go up to the smallest of the two limits, and the range is never
/// empty.
pub proof fn law_learnable_range(min: usize, max: usize, full: usize)
    ensures
        spec_learnable_max(min, max, full) >= min,
        spec_learnable_max(min, max, full) == min || spec_learnable_max(min, max, full) <= max,
        spec_learnable_max(min, max, full) == min || spec_learnable_max(min, max, full) <= full,
        max >= min && full >= min ==> spec_learnable_max(min, max, full) == max
            || spec_learnable_max(min, max, full) == full,
{
}

/// Law: an instance is clustered exactly where its draw is below a positive fraction. It has the
/// full weight, unless a draw brings it within reach.
pub proof fn law_layout_by_draws<R: Scalar>(
    s: &Shaping<R>,
    num_objectives: usize,
    draws: ShapeDraws<R>,
)
    ensures
        ({
            let clustered = R::spec_less(R::spec_decimal(0, 0), s.clustered_fraction)
                && R::spec_less(draws.clustered, s.clustered_fraction);
            let reachable = R::spec_less(R::spec_decimal(0, 0), s.learnable_prob)
                && s.learnable_max >= s.learnable_min && s.learnable_min > 0 && R::spec_less(
                draws.learnable,
                s.learnable_prob,
            );
            let shape = s.spec_pick(num_objectives, draws);
            &&& !clustered ==> shape == (Shape::Scattered { num_objectives })
            &&& clustered && reachable ==> shape == (Shape::Clustered {
                weight: draws.weight,
                num_clusters: draws.clusters,
            })
            &&& clustered && !reachable ==> shape == (Shape::Clustered {
                weight: spec_full_weight(s.height, s.width, s.num_blanks) as usize,
                num_clusters: draws.clusters,
            })
        }),
{
}

/// Law: an instance is gathered on exactly where its plan is within its limit, takes an action that
/// is not automatic, and is not shorter than asked for, or its draw is below the fraction of easy
/// ones to keep.
pub proof fn law_admission<R: Scalar>(
    limits: &Limits<R>,
    is_clustered: bool,
    max_weight: usize,
    automatic: Seq<bool>,
    draw: R,
)
    ensures
        ({
            let wide = limits.demo_only_min_weight > 0 && max_weight
                >= limits.demo_only_min_weight;
            let cap = if is_clustered && wide && limits.clustered_max_generated_depth is Some {
                limits.clustered_max_generated_depth->0
            } else {
                limits.max_generated_depth
            };
            let easy = automatic.len() < limits.gather_min_ref_actions;
            limits.spec_admits(is_clustered, max_weight, automatic, draw) <==> {
                &&& automatic.len() <= cap
                &&& exists|i: int| 0 <= i < automatic.len() && !#[trigger] automatic[i]
                &&& easy ==> !is_at_most(limits.gather_easy_keep_fraction, draw)
            }
        }),
{
    assert(limits.gather_min_ref_actions == 0 ==> !(automatic.len()
        < limits.gather_min_ref_actions));
}

/// Law: the total weight is the sum of the weights that are given, and the widest is the largest
/// of them.
pub proof fn law_weights_of_objectives(weights: Seq<Option<usize>>)
    ensures
        spec_pp_weights(weights).0 == weights.fold_left(
            0int,
            |sum: int, w: Option<usize>|
                match w {
                    Some(x) => sum + x,
                    None => sum,
                },
        ),
        forall|i: int|
            0 <= i < weights.len() && (#[trigger] weights[i]) is Some ==> weights[i]->0
                <= spec_pp_weights(weights).1,
        spec_pp_weights(weights).1 == 0 || exists|i: int|
            0 <= i < weights.len() && (#[trigger] weights[i]) is Some && weights[i]->0
                == spec_pp_weights(weights).1,
    decreases weights.len(),
{
    if weights.len() > 0 {
        let before = weights.drop_last();
        law_weights_of_objectives(before);
        let top = spec_pp_weights(before).1;
        assert forall|i: int|
            0 <= i < weights.len() && (#[trigger] weights[i]) is Some implies weights[i]->0
            <= spec_pp_weights(weights).1 by {
            if i < before.len() {
                assert(before[i] == weights[i]);
            }
        }
        if spec_pp_weights(weights).1 != top {
            assert(weights[weights.len() - 1] is Some);
        } else if top != 0 {
            let i = choose|i: int|
                0 <= i < before.len() && (#[trigger] before[i]) is Some && before[i]->0 == top;
            assert(weights[i] == before[i]);
        }
    }
}

/// Law: the next scaffold to probe lies strictly between the ends and splits what is between them
/// into halves that differ by at most one; there is none where nothing lies between.
pub proof fn law_probe_halves(lo: int, hi: int)
    ensures
        spec_next_probe(lo, hi) is None <==> hi - lo <= 1,
        spec_next_probe(lo, hi) is Some ==> {
            let p = spec_next_probe(lo, hi)->0;
            &&& lo < p < hi
            &&& 0 <= (hi - p) - (p - lo) <= 1
        },
{
}

/// Law: an evaluation plays an action that none of the others exceeds in visits, and the last of
/// those that are as often visited.
pub proof fn law_evaluation_is_greedy(ids: Seq<Action>, edge_visits: Seq<usize>, i: int, j: int)
    requires
        is_last_most_visited(ids, edge_visits, i),
        0 <= j < ids.len(),
    ensures
        slot_visits(edge_visits, ids[j]) <= slot_visits(edge_visits, ids[i]),
        slot_visits(edge_visits, ids[j]) == slot_visits(edge_visits, ids[i]) ==> j <= i,
        is_last_most_visited(ids, edge_visits, j) ==> j == i,
        ids[j] < edge_visits.len() ==> slot_visits(edge_visits, ids[j])
            == edge_visits[ids[j] as int],
        ids[j] >= edge_visits.len() ==> slot_visits(edge_visits, ids[j]) == 0,
{
}

/// Law: an evaluation may take the multiple of the length of the reference plan, rounded up, or a
/// thousand actions without one.
pub proof fn law_evaluation_budget<R: Scalar>(e: &Evaluator<R>, plan_len: Option<usize>)
    ensures
        plan_len is Some ==> e.spec_action_budget(plan_len) == R::spec_to_count(
            R::spec_unary(
                Unary::Ceil,
                times(R::spec_count(plan_len->0), e.max_action_multiplier),
            ),
        ),
        plan_len is None ==> e.spec_action_budget(plan_len) == 1000,
{
}

/// Law: an evaluated instance that reached its goal is graded by its depth against the reference,
/// with all objectives achieved. One that did not has no solution depth, and is graded against the
/// reference for the goal that it did reach; without such a goal or reference it has -1.
pub proof fn law_evaluation_verdict<R: Scalar>(
    e: &Evaluator<R>,
    reference_depth: R,
    done: bool,
    depth: R,
    num_objectives: usize,
    hindsight: Hindsight<R>,
)
    ensures
        ({
            let v = e.spec_verdict(reference_depth, done, depth, num_objectives, hindsight);
            let tau = e.reward_saturation_temperature;
            &&& v.solution_depth == (if done {
                Some(depth)
            } else {
                None
            })
            &&& v.achieved_objectives == (if done {
                num_objectives
            } else {
                match hindsight {
                    Hindsight::Nothing => 0,
                    Hindsight::Unsolved(k) => k,
                    Hindsight::Solved(k, _) => k,
                }
            })
            &&& v.eval_reward == (if done {
                spec_done_score(reference_depth, depth, tau)
            } else {
                match hindsight {
                    Hindsight::Solved(_, reached) => spec_done_score(reached, depth, tau),
                    _ => R::spec_decimal(-1, 0),
                }
            })
            &&& e.spec_terminal_value(done, reference_depth, depth) == (if done {
                spec_done_score(reference_depth, depth, tau)
            } else {
                R::spec_decimal(-1, 0)
            })
        }),
{
}

/// Law: the mask of an observation has a place for each of the 301 actions, and is set where the
/// mask of the state is.
pub proof fn law_mask_covers_all_actions(mask: Seq<bool>, a: int)
    requires
        0 <= a < 301,
    ensures
        full_mask(mask).len() == 301,
        full_mask(mask)[a] <==> a < mask.len() && mask[a],
{
}

/// Law: the lookahead is one less than the layers with objectives, and not less than 0.
pub proof fn law_lookahead(layers: usize)
    ensures
        layers > 0 ==> spec_lookahead(layers) + 1 == layers,
        layers == 0 ==> spec_lookahead(layers) == 0,
{
}

/// Law: new settings hold what is given, and where nothing is given a budget of 1.2 times the
/// reference, temperature 0.3, resignation at -0.9 for 5 moves with a tenth of the episodes exempt
/// and no floor, every episode kept, and no margin. Everything else is off.
pub proof fn law_default_settings<R: Scalar, D: Scalar>(
    batch_size: usize,
    mcts_steps: usize,
    fast_steps: usize,
    p_full_search: R,
    output_path: String,
    noise_strength: D,
    dirichlet_epsilon: R,
    lookahead: usize,
    gather_id: usize,
    max_actions: Option<usize>,
)
    ensures
        ({
            let g = spec_gatherer::<R, D>(
                batch_size,
                mcts_steps,
                fast_steps,
                p_full_search,
                output_path,
                noise_strength,
                dirichlet_epsilon,
                lookahead,
                gather_id,
                None,
                None,
                max_actions,
                None,
                None,
                None,
                None,
                None,
                None,
                None,
                None,
            );
            &&& g.batch_size == batch_size
            &&& g.mcts_steps == mcts_steps
            &&& g.fast_steps == fast_steps
            &&& g.p_full_search == p_full_search
            &&& g.output_path == output_path
            &&& g.noise_strength == noise_strength
            &&& g.dirichlet_epsilon == dirichlet_epsilon
            &&& g.lookahead == lookahead
            &&& g.gather_id == gather_id
            &&& g.max_actions == max_actions
            &&& g.max_action_multiplier == R::spec_decimal(12, -1)
            &&& g.reward_saturation_temperature == R::spec_decimal(3, -1)
            &&& g.resign_value_threshold == R::spec_decimal(-9, -1)
            &&& g.resign_consecutive_moves == 5
            &&& g.resign_min_step_ref_mult == R::spec_decimal(0, 0)
            &&& g.no_resign_rate == R::spec_decimal(1, -1)
            &&& g.floor_keep_fraction == R::spec_decimal(1, 0)
            &&& g.her_reward_margin == R::spec_decimal(0, 0)
            &&& g.her_reward
            &&& !g.reverse_curriculum
            &&& !g.cusp_reward
            &&& g.cusp_frontier == 2
            &&& g.cusp_margin == 2
            &&& g.demo_fraction == R::spec_decimal(0, 0)
            &&& g.demo_only_min_weight == 0
            &&& g.deep_play_temp == R::spec_decimal(0, 0)
            &&& g.gold_shard_dir is None
            &&& g.trajectory_dir is None
            &&& g.resignation_log_dir is None
        }),
{
}

/// Law: a state of a demonstration adds a line exactly where the action of the plan is valid in it
/// and its draw is below the chance to keep it; the lines before stay. Without states there is no
/// line, and the lines go where the training data goes.
pub proof fn law_demonstrated_state_adds_its_line<R: Scalar, D: Scalar>(
    g: &Gatherer<R, D>,
    plan_len: usize,
    states: Seq<StepRecord>,
    s: StepRecord,
    draws: Seq<R>,
)
    ensures
        ({
            let before = g.demo_writing(plan_len, states, draws);
            let after = g.demo_writing(plan_len, states.push(s), draws);
            let kept = s.valid_actions@.contains(s.action) && R::spec_less(
                draws[states.len() as int],
                g.spec_demo_keep(plan_len),
            );
            &&& after.path == g.output_path@
            &&& after.vital
            &&& after.dir is None
            &&& g.demo_writing(plan_len, Seq::empty(), draws).records.len() == 0
            &&& kept ==> after.records == before.records.push(g.spec_demo_fields(&s))
            &&& !kept ==> after.records == before.records
        }),
{
    assert(states.push(s).drop_last() =~= states);
}

/// Law: a probability that is set is brought to the range from 0 to 1, and one that is in it stays.
pub proof fn law_probabilities_are_clamped<R: Scalar>(x: R)
    ensures
        R::spec_less(x, R::spec_decimal(0, 0)) ==> spec_unit(x) == R::spec_decimal(0, 0),
        !R::spec_less(x, R::spec_decimal(0, 0)) && R::spec_less(R::spec_decimal(1, 0), x)
            ==> spec_unit(x) == R::spec_decimal(1, 0),
        !R::spec_less(x, R::spec_decimal(0, 0)) && !R::spec_less(R::spec_decimal(1, 0), x)
            ==> spec_unit(x) == x,
{
}

/// Law: each kind of reward has its own name in records.
pub proof fn law_kinds_have_names()
    ensures
        RewardKind::Done.spec_label() == "done"@,
        RewardKind::Her.spec_label() == "her"@,
        RewardKind::Cusp.spec_label() == "cusp"@,
        RewardKind::Floor.spec_label() == "floor"@,
{
}

/// Law: there is at least one cluster to draw, and else as many as are set.
pub proof fn law_clusters_to_draw(n: usize)
    ensures
        spec_most_clusters(n) >= 1,
        n >= 1 ==> spec_most_clusters(n) == n,
{
}

/// Law: resignation is possible exactly where it takes a move at least and a threshold below 1.
pub proof fn law_resignation_is_possible<R: Scalar, D: Scalar>(g: &Gatherer<R, D>)
    ensures
        g.spec_resignation_enabled() <==> g.resign_consecutive_moves >= 1 && R::spec_less(
            g.resign_value_threshold,
            R::spec_decimal(1, 0),
        ),
{
}

/// Law: a clustered instance draws its clusters from 1 to their limit, and a weight that is to be
/// within reach from the smallest one to the largest one that fits.
pub proof fn law_layout_draws<R: Scalar, D: Scalar>(
    s: &Shaping<R>,
    luck: Luck<R, D>,
    draws: ShapeDraws<R>,
)
    requires
        s.are_draws(luck, draws),
        R::spec_less(R::spec_decimal(0, 0), s.clustered_fraction),
    ensures
        (luck.unit)(draws.clustered),
        R::spec_less(draws.clustered, s.clustered_fraction) ==> (luck.between)(
            1,
            spec_most_clusters(s.num_clusters),
            draws.clusters,
        ),
        ({
            let reach = R::spec_less(R::spec_decimal(0, 0), s.learnable_prob) && s.learnable_max
                >= s.learnable_min && s.learnable_min > 0;
            R::spec_less(draws.clustered, s.clustered_fraction) && reach ==> (luck.unit)(
                draws.learnable,
            ) && (R::spec_less(draws.learnable, s.learnable_prob) ==> (luck.between)(
                s.learnable_min,
                spec_learnable_max(
                    s.learnable_min,
                    s.learnable_max,
                    spec_full_weight(s.height, s.width, s.num_blanks) as usize,
                ),
                draws.weight,
            ))
        }),
{
}

} // verus!
