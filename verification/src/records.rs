//! What is written of an episode: which files get it, and the fields of the records.

use crate::episode::{EpisodeOutcome, StepRecord, TurnRecord};
use crate::gatherer::Gatherer;
use crate::grading::RewardKind;
use crate::scalar::{
    at_most, minus, one, over, smaller, spec_at_most, times, zero, Binary, Scalar,
};
use crate::text::{digits, number_text};
use crate::tilers_obs::{spec_channel, Action, BoardCell, CELL_FIELDS};
use std::collections::HashMap;
use vstd::prelude::*;
use vstd::string::StringExecFns;

verus! {

/// Where an episode is written.
#[derive(Clone, Copy, Debug, PartialEq, Eq, Structural)]
pub struct WritePlan {
    /// A line of the log that resignation is tuned by.
    pub log: bool,
    /// The whole trajectory, as examples to imitate.
    pub trajectory: bool,
    /// The full searches, as training data.
    pub corpus: bool,
    /// The full searches once more, to be kept for good.
    pub gold: bool,
}

impl<R: Scalar, D: Scalar> Gatherer<R, D> {
    /// Whether an episode tells nothing: it made no progress, or its grade is next to -1.
    pub open spec fn uninformative(&self, kind: RewardKind, score: R) -> bool {
        kind == RewardKind::Floor || (kind == RewardKind::Her && spec_at_most(
            score,
            R::spec_decimal(-999, -3),
        ))
    }

    /// What [`Gatherer::needs_keep_draw`] gives.
    pub open spec fn spec_needs_keep_draw(&self, kind: RewardKind, score: R) -> bool {
        self.uninformative(kind, score) && R::spec_less(self.floor_keep_fraction, one())
    }

    /// Whether it is left to chance if an episode is kept.
    pub fn needs_keep_draw(&self, kind: RewardKind, score: &R) -> (r: bool)
        ensures
            r == self.spec_needs_keep_draw(kind, *score),
    {
        (kind == RewardKind::Floor || (kind == RewardKind::Her && at_most(
            score,
            &R::decimal(-999, -3),
        ))) && R::less(&self.floor_keep_fraction, &R::decimal(1, 0))
    }

    /// What [`Gatherer::plan_writing`] gives.
    pub open spec fn spec_plan_writing(
        &self,
        o: &EpisodeOutcome<R>,
        is_reverse: bool,
        draw: R,
    ) -> WritePlan {
        let corpus = !(self.spec_needs_keep_draw(o.reward_kind, o.score) && spec_at_most(
            self.floor_keep_fraction,
            draw,
        ));
        WritePlan {
            log: self.resignation_log_dir is Some,
            trajectory: self.trajectory_dir is Some && R::spec_less(zero(), o.score),
            corpus,
            gold: corpus && self.gold_shard_dir is Some && o.done && !is_reverse && spec_at_most(
                self.gold_min_reward,
                o.score,
            ) && o.reference_action_count >= self.gold_min_len,
        }
    }

    /// Where an episode is written.
    ///
    /// Wins have their trajectory written. Of the episodes that tell nothing only a fraction is
    /// kept as training data, by a number drawn from 0 to 1. Full wins that are hard and good
    /// enough are also banked; wins behind a scaffold are not.
    pub fn plan_writing(&self, o: &EpisodeOutcome<R>, is_reverse: bool, draw: &R) -> (r: WritePlan)
        ensures
            r == self.spec_plan_writing(o, is_reverse, *draw),
    {
        let corpus: bool = !(self.needs_keep_draw(o.reward_kind, &o.score) && at_most(
            &self.floor_keep_fraction,
            draw,
        ));
        WritePlan {
            log: self.resignation_log_dir.is_some(),
            trajectory: self.trajectory_dir.is_some() && R::less(&R::decimal(0, 0), &o.score),
            corpus,
            gold: corpus && self.gold_shard_dir.is_some() && o.done && !is_reverse && at_most(
                &self.gold_min_reward,
                &o.score,
            ) && o.reference_action_count >= self.gold_min_len,
        }
    }

    /// The probability that a state of a demonstration is kept.
    pub open spec fn spec_demo_keep(&self, plan_len: usize) -> R {
        if self.demo_target_states > 0 {
            smaller(
                over(
                    R::spec_count(self.demo_target_states),
                    R::spec_count(
                        if plan_len == 0 {
                            1
                        } else {
                            plan_len
                        },
                    ),
                ),
                one(),
            )
        } else {
            self.demo_subsample
        }
    }

    /// The probability that a state of a demonstration is kept: a fixed one, or such that about
    /// as many states are kept of every demonstration.
    pub fn demo_keep(&self, plan_len: usize) -> (r: R)
        ensures
            r == self.spec_demo_keep(plan_len),
    {
        if self.demo_target_states > 0 {
            let states: R = R::count(self.demo_target_states);
            let len: R = R::count(
                if plan_len == 0 {
                    1
                } else {
                    plan_len
                },
            );
            R::binary(Binary::Min, &R::binary(Binary::Over, &states, &len), &R::decimal(1, 0))
        } else {
            self.demo_subsample.dup()
        }
    }

    /// Whether a state of a demonstration is recorded: its action is valid there, and a number
    /// drawn from 0 to 1 keeps it.
    pub fn keeps_demo_state(
        &self,
        plan_len: usize,
        valid_actions: &[Action],
        action: Action,
        draw: &R,
    ) -> (r: bool)
        ensures
            r == (valid_actions@.contains(action) && R::spec_less(
                *draw,
                self.spec_demo_keep(plan_len),
            )),
    {
        is_valid(valid_actions, action) && R::less(draw, &self.demo_keep(plan_len))
    }
}

/// Law: an episode is banked only as part of what is kept for training, and never one that
/// started behind a scaffold.
pub proof fn law_gold_is_kept<R: Scalar, D: Scalar>(
    g: &Gatherer<R, D>,
    o: &EpisodeOutcome<R>,
    is_reverse: bool,
    draw: R,
)
    ensures
        g.spec_plan_writing(o, is_reverse, draw).gold ==> g.spec_plan_writing(
            o,
            is_reverse,
            draw,
        ).corpus && !is_reverse && o.done,
{
}

/// Law: an episode that reached its goal, and a graded one that is not next to -1, is always
/// kept; with a keep fraction that is not below 1 every episode is.
pub proof fn law_informative_is_kept<R: Scalar, D: Scalar>(
    g: &Gatherer<R, D>,
    o: &EpisodeOutcome<R>,
    is_reverse: bool,
    draw: R,
)
    requires
        !g.uninformative(o.reward_kind, o.score) || !R::spec_less(g.floor_keep_fraction, one()),
    ensures
        g.spec_plan_writing(o, is_reverse, draw).corpus,
{
}

/// Whether an action is among the valid ones.
pub fn is_valid(valid_actions: &[Action], action: Action) -> (r: bool)
    ensures
        r == valid_actions@.contains(action),
{
    let mut i: usize = 0;
    while i < valid_actions.len()
        invariant
            i <= valid_actions@.len(),
            forall|j: int| 0 <= j < i ==> valid_actions@[j] != action,
        decreases valid_actions.len() - i,
    {
        if valid_actions[i] == action {
            return true;
        }
        i += 1;
    }
    false
}

/// The channels of a board: per layer and cell.
pub open spec fn board_view(board: Seq<Vec<BoardCell>>) -> Seq<Seq<Seq<i16>>> {
    Seq::new(
        board.len(),
        |l: int|
            Seq::new(
                board[l]@.len(),
                |c: int| Seq::new(CELL_FIELDS as nat, |f: int| spec_channel(board[l]@[c], f)),
            ),
    )
}

/// What nested channels hold.
pub open spec fn channels_view(board: Seq<Vec<Vec<i16>>>) -> Seq<Seq<Seq<i16>>> {
    Seq::new(board.len(), |l: int| Seq::new(board[l]@.len(), |c: int| board[l]@[c]@))
}

/// The channels of a board as nested lists: per layer, per cell, the channels in order.
pub fn serialize_board(board: &Vec<Vec<BoardCell>>) -> (r: Vec<Vec<Vec<i16>>>)
    ensures
        channels_view(r@) == board_view(board@),
{
    let mut out: Vec<Vec<Vec<i16>>> = Vec::with_capacity(board.len());
    let mut l: usize = 0;
    while l < board.len()
        invariant
            l <= board@.len(),
            out@.len() == l,
            forall|k: int|
                0 <= k < l ==> Seq::new(
                    (#[trigger] out@[k])@.len(),
                    |c: int| out@[k]@[c]@,
                ) == board_view(board@)[k],
        decreases board.len() - l,
    {
        let layer: &Vec<BoardCell> = &board[l];
        let mut cells: Vec<Vec<i16>> = Vec::with_capacity(layer.len());
        let mut c: usize = 0;
        while c < layer.len()
            invariant
                c <= layer@.len(),
                cells@.len() == c,
                forall|d: int|
                    0 <= d < c ==> (#[trigger] cells@[d])@ == Seq::new(
                        CELL_FIELDS as nat,
                        |f: int| spec_channel(layer@[d], f),
                    ),
            decreases layer.len() - c,
        {
            cells.push(layer[c].channels());
            c += 1;
        }
        assert(Seq::new(cells@.len(), |c: int| cells@[c]@) =~= board_view(board@)[l as int]);
        out.push(cells);
        l += 1;
    }
    assert(channels_view(out@) =~= board_view(board@));
    out
}

/// The value of a field of a record.
pub enum Field<'a, R> {
    Count(usize),
    Number(R),
    Text(&'static str),
    Flag(bool),
    Board(Vec<Vec<Vec<i16>>>),
    /// Numbers of actions or of tokens.
    Ids(&'a Vec<u16>),
    /// Visits per action.
    Visits(&'a HashMap<Action, usize>),
    /// Visits per action, in the order of the valid actions.
    Weights(Vec<(Action, usize)>),
    /// Everything on one action.
    OneHot(Action),
    Numbers(&'a Vec<R>),
    Flags(&'a Vec<bool>),
}

/// What a field holds.
#[verifier::ext_equal]
pub ghost enum FieldView<R> {
    Count(usize),
    Number(R),
    Text(Seq<char>),
    Flag(bool),
    Board(Seq<Seq<Seq<i16>>>),
    Ids(Seq<u16>),
    Visits(Map<Action, usize>),
    Weights(Seq<(Action, usize)>),
    OneHot(Action),
    Numbers(Seq<R>),
    Flags(Seq<bool>),
}

impl<'a, R> View for Field<'a, R> {
    type V = FieldView<R>;

    open spec fn view(&self) -> FieldView<R> {
        match *self {
            Field::Count(n) => FieldView::Count(n),
            Field::Number(x) => FieldView::Number(x),
            Field::Text(s) => FieldView::Text(s@),
            Field::Flag(b) => FieldView::Flag(b),
            Field::Board(b) => FieldView::Board(channels_view(b@)),
            Field::Ids(v) => FieldView::Ids(v@),
            Field::Visits(m) => FieldView::Visits(m@),
            Field::Weights(v) => FieldView::Weights(v@),
            Field::OneHot(a) => FieldView::OneHot(a),
            Field::Numbers(v) => FieldView::Numbers(v@),
            Field::Flags(v) => FieldView::Flags(v@),
        }
    }
}

/// A record: its fields by their names.
pub type Record<'a, R> = Vec<(&'static str, Field<'a, R>)>;

/// What a record holds.
pub open spec fn record_view<'a, R>(r: Seq<(&'static str, Field<'a, R>)>) -> Seq<
    (Seq<char>, FieldView<R>),
> {
    Seq::new(r.len(), |i: int| (r[i].0@, r[i].1@))
}

impl<R: Scalar, D: Scalar> Gatherer<R, D> {
    /// What the fields that training data and the bank have in common hold.
    pub open spec fn spec_turn_fields(
        &self,
        o: &EpisodeOutcome<R>,
        rec: &TurnRecord,
        is_reverse: bool,
    ) -> Seq<(Seq<char>, FieldView<R>)> {
        seq![
            ("height"@, FieldView::Count(o.instance.height)),
            ("width"@, FieldView::Count(o.instance.width)),
            ("num_ancillas"@, FieldView::Count(rec.num_ancillas)),
            ("board"@, FieldView::Board(board_view(rec.board@))),
            ("valid_actions"@, FieldView::Ids(rec.valid_actions@)),
            ("edge_visits"@, FieldView::Visits(rec.edge_visits@)),
            ("reward"@, FieldView::Number(o.score)),
            ("reward_kind"@, FieldView::Text(o.reward_kind.spec_label())),
            ("achieved_objectives"@, FieldView::Count(o.achieved_objectives)),
            ("reverse_curriculum"@, FieldView::Flag(is_reverse)),
        ]
    }

    /// The fields that training data and the bank have in common.
    fn turn_fields<'a>(&self, o: &'a EpisodeOutcome<R>, rec: &'a TurnRecord, is_reverse: bool) -> (r:
        Record<'a, R>)
        ensures
            record_view(r@) == self.spec_turn_fields(o, rec, is_reverse),
    {
        let mut r: Record<'a, R> = Vec::with_capacity(13);
        r.push(("height", Field::Count(o.instance.height)));
        r.push(("width", Field::Count(o.instance.width)));
        r.push(("num_ancillas", Field::Count(rec.num_ancillas)));
        r.push(("board", Field::Board(serialize_board(&rec.board))));
        r.push(("valid_actions", Field::Ids(&rec.valid_actions)));
        r.push(("edge_visits", Field::Visits(&rec.edge_visits)));
        r.push(("reward", Field::Number(o.score.dup())));
        r.push(("reward_kind", Field::Text(o.reward_kind.label())));
        r.push(("achieved_objectives", Field::Count(o.achieved_objectives)));
        r.push(("reverse_curriculum", Field::Flag(is_reverse)));
        assert(record_view(r@) =~= self.spec_turn_fields(o, rec, is_reverse));
        r
    }

    /// What the record of a full search as training data holds.
    pub open spec fn spec_corpus_fields(
        &self,
        o: &EpisodeOutcome<R>,
        rec: &TurnRecord,
        is_reverse: bool,
    ) -> Seq<(Seq<char>, FieldView<R>)> {
        self.spec_turn_fields(o, rec, is_reverse) + seq![
            ("env_mw"@, FieldView::Count(self.env_mw)),
            ("env_tw"@, FieldView::Count(self.env_tw)),
            ("env_k"@, FieldView::Count(self.env_k)),
        ]
    }

    /// The record of a full search as training data.
    pub fn corpus_record<'a>(
        &self,
        o: &'a EpisodeOutcome<R>,
        rec: &'a TurnRecord,
        is_reverse: bool,
    ) -> (r: Record<'a, R>)
        ensures
            record_view(r@) == self.spec_corpus_fields(o, rec, is_reverse),
    {
        let mut r: Record<'a, R> = self.turn_fields(o, rec, is_reverse);
        let ghost head = r@;
        r.push(("env_mw", Field::Count(self.env_mw)));
        r.push(("env_tw", Field::Count(self.env_tw)));
        r.push(("env_k", Field::Count(self.env_k)));
        assert(record_view(head) == self.spec_turn_fields(o, rec, is_reverse));
        assert(record_view(r@) =~= self.spec_corpus_fields(o, rec, is_reverse));
        r
    }

    /// What the record of a full search in the bank holds.
    pub open spec fn spec_gold_fields(
        &self,
        o: &EpisodeOutcome<R>,
        rec: &TurnRecord,
        is_reverse: bool,
    ) -> Seq<(Seq<char>, FieldView<R>)> {
        self.spec_turn_fields(o, rec, is_reverse).push(("gold"@, FieldView::Flag(true)))
    }

    /// The record of a full search in the bank.
    pub fn gold_record<'a>(
        &self,
        o: &'a EpisodeOutcome<R>,
        rec: &'a TurnRecord,
        is_reverse: bool,
    ) -> (r: Record<'a, R>)
        ensures
            record_view(r@) == self.spec_gold_fields(o, rec, is_reverse),
    {
        let mut r: Record<'a, R> = self.turn_fields(o, rec, is_reverse);
        let ghost head = r@;
        r.push(("gold", Field::Flag(true)));
        assert(record_view(head) == self.spec_turn_fields(o, rec, is_reverse));
        assert(record_view(r@) =~= self.spec_gold_fields(o, rec, is_reverse));
        r
    }

    /// What the record of a state of a demonstration holds.
    pub open spec fn spec_demo_fields(&self, rec: &StepRecord) -> Seq<
        (Seq<char>, FieldView<R>),
    > {
        seq![
            ("height"@, FieldView::Count(rec.height)),
            ("width"@, FieldView::Count(rec.width)),
            ("num_ancillas"@, FieldView::Count(rec.num_ancillas)),
            ("board"@, FieldView::Board(board_view(rec.board@))),
            ("valid_actions"@, FieldView::Ids(rec.valid_actions@)),
            ("edge_visits"@, FieldView::OneHot(rec.action)),
            ("reward"@, FieldView::Number(zero::<R>())),
            ("reward_kind"@, FieldView::Text("demo"@)),
            ("achieved_objectives"@, FieldView::Count(0)),
            ("reverse_curriculum"@, FieldView::Flag(false)),
            ("is_demo"@, FieldView::Flag(true)),
            ("env_mw"@, FieldView::Count(self.env_mw)),
            ("env_tw"@, FieldView::Count(self.env_tw)),
            ("env_k"@, FieldView::Count(self.env_k)),
        ]
    }

    /// The record of a state of a demonstration: the action has everything, and the reward is
    /// that of the reference itself.
    pub fn demo_record<'a>(&self, rec: &'a StepRecord) -> (r: Record<'a, R>)
        ensures
            record_view(r@) == self.spec_demo_fields(rec),
    {
        let mut r: Record<'a, R> = Vec::with_capacity(14);
        r.push(("height", Field::Count(rec.height)));
        r.push(("width", Field::Count(rec.width)));
        r.push(("num_ancillas", Field::Count(rec.num_ancillas)));
        r.push(("board", Field::Board(serialize_board(&rec.board))));
        r.push(("valid_actions", Field::Ids(&rec.valid_actions)));
        r.push(("edge_visits", Field::OneHot(rec.action)));
        r.push(("reward", Field::Number(R::decimal(0, 0))));
        r.push(("reward_kind", Field::Text("demo")));
        r.push(("achieved_objectives", Field::Count(0)));
        r.push(("reverse_curriculum", Field::Flag(false)));
        r.push(("is_demo", Field::Flag(true)));
        r.push(("env_mw", Field::Count(self.env_mw)));
        r.push(("env_tw", Field::Count(self.env_tw)));
        r.push(("env_k", Field::Count(self.env_k)));
        assert(record_view(r@) =~= self.spec_demo_fields(rec));
        r
    }
}

/// The weight of the action taken in a trajectory: 99 times that of all others together.
pub open spec fn winner_weight(num_valid: int) -> int {
    if num_valid > 1 {
        (num_valid - 1) * 99
    } else {
        1
    }
}

/// The policy of a step of a trajectory: nearly everything on the action taken, and 1 on each
/// other valid action.
pub open spec fn spec_trajectory_weights(valid_actions: Seq<Action>, action: Action) -> Seq<
    (Action, usize),
> {
    Seq::new(
        valid_actions.len(),
        |i: int|
            (
                valid_actions[i],
                if valid_actions[i] == action {
                    winner_weight(valid_actions.len() as int) as usize
                } else {
                    1
                },
            ),
    )
}

/// The policy of a step of a trajectory.
pub fn trajectory_weights(valid_actions: &Vec<Action>, action: Action) -> (r: Vec<(Action, usize)>)
    requires
        winner_weight(valid_actions@.len() as int) <= usize::MAX,
    ensures
        r@ == spec_trajectory_weights(valid_actions@, action),
{
    let n: usize = valid_actions.len();
    let winner: usize = if n > 1 {
        (n - 1) * 99
    } else {
        1
    };
    let mut out: Vec<(Action, usize)> = Vec::with_capacity(n);
    let mut i: usize = 0;
    while i < n
        invariant
            i <= n,
            n == valid_actions@.len(),
            winner == winner_weight(n as int),
            out@ == spec_trajectory_weights(valid_actions@, action).take(i as int),
        decreases n - i,
    {
        let w: usize = if valid_actions[i] == action {
            winner
        } else {
            1
        };
        out.push((valid_actions[i], w));
        i += 1;
        assert(out@ =~= spec_trajectory_weights(valid_actions@, action).take(i as int));
    }
    assert(out@ =~= spec_trajectory_weights(valid_actions@, action));
    out
}

/// The value of a state some steps before a win: `min(2 * 0.8^n, 2) - 1`, and 1 for the last
/// two.
pub open spec fn spec_trajectory_value<R: Scalar>(steps_remaining: usize) -> R {
    if steps_remaining > 2 {
        minus(
            smaller(
                times(
                    R::spec_decimal(2, 0),
                    R::spec_raise(R::spec_decimal(8, -1), steps_remaining),
                ),
                R::spec_decimal(2, 0),
            ),
            one(),
        )
    } else {
        one()
    }
}

/// The value of a state some steps before a win.
pub fn trajectory_value<R: Scalar>(steps_remaining: usize) -> (r: R)
    ensures
        r == spec_trajectory_value::<R>(steps_remaining),
{
    if steps_remaining > 2 {
        let two: R = R::decimal(2, 0);
        let discounted: R = R::binary(
            Binary::Times,
            &two,
            &R::raise(&R::decimal(8, -1), steps_remaining),
        );
        R::binary(
            Binary::Minus,
            &R::binary(Binary::Min, &discounted, &two),
            &R::decimal(1, 0),
        )
    } else {
        R::decimal(1, 0)
    }
}

/// What the record of a step of a winning trajectory holds.
pub open spec fn spec_trajectory_fields<R: Scalar>(o: &EpisodeOutcome<R>, step: int) -> Seq<
    (Seq<char>, FieldView<R>),
> {
    let rec = o.all_steps_data@[step];
    seq![
        ("height"@, FieldView::Count(rec.height)),
        ("width"@, FieldView::Count(rec.width)),
        ("num_ancillas"@, FieldView::Count(rec.num_ancillas)),
        ("board"@, FieldView::Board(board_view(rec.board@))),
        ("valid_actions"@, FieldView::Ids(rec.valid_actions@)),
        (
            "edge_visits"@,
            FieldView::Weights(spec_trajectory_weights(rec.valid_actions@, rec.action)),
        ),
        (
            "reward"@,
            FieldView::Number(
                spec_trajectory_value::<R>((o.all_steps_data@.len() - step) as usize),
            ),
        ),
    ]
}

/// The record of a step of a winning trajectory.
pub fn trajectory_record<R: Scalar>(o: &EpisodeOutcome<R>, step: usize) -> (r: Record<R>)
    requires
        step < o.all_steps_data@.len(),
        winner_weight(o.all_steps_data@[step as int].valid_actions@.len() as int) <= usize::MAX,
    ensures
        record_view(r@) == spec_trajectory_fields(o, step as int),
{
    let rec: &StepRecord = &o.all_steps_data[step];
    let left: usize = o.all_steps_data.len() - step;
    let mut r: Record<R> = Vec::with_capacity(7);
    r.push(("height", Field::Count(rec.height)));
    r.push(("width", Field::Count(rec.width)));
    r.push(("num_ancillas", Field::Count(rec.num_ancillas)));
    r.push(("board", Field::Board(serialize_board(&rec.board))));
    r.push(("valid_actions", Field::Ids(&rec.valid_actions)));
    r.push(("edge_visits", Field::Weights(trajectory_weights(&rec.valid_actions, rec.action))));
    r.push(("reward", Field::Number(trajectory_value(left))));
    assert(record_view(r@) =~= spec_trajectory_fields(o, step as int));
    r
}

/// Law: in a trajectory the action taken outweighs all other valid actions together 99 times.
pub proof fn law_trajectory_follows_action(valid_actions: Seq<Action>, action: Action, i: int)
    requires
        0 <= i < valid_actions.len(),
        valid_actions.len() > 1,
        winner_weight(valid_actions.len() as int) <= usize::MAX,
    ensures
        spec_trajectory_weights(valid_actions, action)[i].1 == (if valid_actions[i] == action {
            99 * (valid_actions.len() - 1)
        } else {
            1
        }),
{
}

impl<R: Scalar, D: Scalar> Gatherer<R, D> {
    /// What the line of the log that resignation is tuned by holds.
    pub open spec fn spec_resignation_fields(&self, o: &EpisodeOutcome<R>) -> Seq<
        (Seq<char>, FieldView<R>),
    > {
        seq![
            ("gather_id"@, FieldView::Count(self.gather_id)),
            ("h"@, FieldView::Count(o.instance.height)),
            ("w"@, FieldView::Count(o.instance.width)),
            ("num_ancillas"@, FieldView::Count(o.instance.num_ancillas)),
            ("num_objectives"@, FieldView::Count(o.instance.num_objectives)),
            ("achieved_objectives"@, FieldView::Count(o.achieved_objectives)),
            ("reference_depth"@, FieldView::Number(o.reference_depth)),
            ("final_depth"@, FieldView::Number(o.solution_depth)),
            ("final_score"@, FieldView::Number(o.score)),
            ("done"@, FieldView::Flag(o.done)),
            ("resign_allowed"@, FieldView::Flag(o.resign_allowed)),
            ("resignation_enabled"@, FieldView::Flag(o.resignation_enabled)),
            ("resigned"@, FieldView::Flag(o.resigned)),
            ("resign_threshold_in_use"@, FieldView::Number(self.resign_value_threshold)),
            (
                "resign_consecutive_moves_in_use"@,
                FieldView::Count(self.resign_consecutive_moves),
            ),
            ("num_steps"@, FieldView::Count(o.q_trace@.len() as usize)),
            ("q_per_step"@, FieldView::Numbers(o.q_trace@)),
            ("over_solver_per_step"@, FieldView::Flags(o.over_solver_trace@)),
        ]
    }

    /// The line of the log that resignation is tuned by.
    pub fn resignation_record<'a>(&self, o: &'a EpisodeOutcome<R>) -> (r: Record<'a, R>)
        ensures
            record_view(r@) == self.spec_resignation_fields(o),
    {
        let mut r: Record<'a, R> = Vec::with_capacity(18);
        r.push(("gather_id", Field::Count(self.gather_id)));
        r.push(("h", Field::Count(o.instance.height)));
        r.push(("w", Field::Count(o.instance.width)));
        r.push(("num_ancillas", Field::Count(o.instance.num_ancillas)));
        r.push(("num_objectives", Field::Count(o.instance.num_objectives)));
        r.push(("achieved_objectives", Field::Count(o.achieved_objectives)));
        r.push(("reference_depth", Field::Number(o.reference_depth.dup())));
        r.push(("final_depth", Field::Number(o.solution_depth.dup())));
        r.push(("final_score", Field::Number(o.score.dup())));
        r.push(("done", Field::Flag(o.done)));
        r.push(("resign_allowed", Field::Flag(o.resign_allowed)));
        r.push(("resignation_enabled", Field::Flag(o.resignation_enabled)));
        r.push(("resigned", Field::Flag(o.resigned)));
        r.push(("resign_threshold_in_use", Field::Number(self.resign_value_threshold.dup())));
        r.push(("resign_consecutive_moves_in_use", Field::Count(self.resign_consecutive_moves)));
        r.push(("num_steps", Field::Count(o.q_trace.len())));
        r.push(("q_per_step", Field::Numbers(&o.q_trace)));
        r.push(("over_solver_per_step", Field::Flags(&o.over_solver_trace)));
        assert(record_view(r@) =~= self.spec_resignation_fields(o));
        r
    }

    /// The file of the log that resignation is tuned by.
    pub fn resignation_path(&self, dir: &str) -> (r: String)
        ensures
            r@ == dir@ + "/resignation_"@ + digits(self.gather_id as nat) + ".jsonl"@,
    {
        let id: String = number_text(self.gather_id as u64);
        String::from_str(dir).concat("/resignation_").concat(id.as_str()).concat(".jsonl")
    }

    /// The file of the winning trajectories.
    pub fn trajectory_path(&self, dir: &str) -> (r: String)
        ensures
            r@ == dir@ + "/traj_"@ + digits(self.gather_id as nat) + ".json"@,
    {
        let id: String = number_text(self.gather_id as u64);
        String::from_str(dir).concat("/traj_").concat(id.as_str()).concat(".json")
    }

    /// The file of the bank.
    pub fn gold_path(&self, dir: &str) -> (r: String)
        ensures
            r@ == dir@ + "/gold-"@ + digits(self.gather_id as nat) + ".jsonl"@,
    {
        let id: String = number_text(self.gather_id as u64);
        String::from_str(dir).concat("/gold-").concat(id.as_str()).concat(".jsonl")
    }
}

/// The file of the training data of a worker.
pub fn output_path(dir: &str, worker_id: u32) -> (r: String)
    ensures
        r@ == dir@ + "/output-"@ + digits(worker_id as nat) + ".jsonl"@,
{
    let id: String = number_text(worker_id as u64);
    String::from_str(dir).concat("/output-").concat(id.as_str()).concat(".jsonl")
}

} // verus!
