//! The files that an episode or a demonstration goes to, line by line.

use crate::episode::{EpisodeOutcome, StepRecord};
use crate::gatherer::Gatherer;
use crate::playthrough::{draw_unit, luck_of, Chance, Luck};
use crate::records::{
    is_valid, record_view, spec_trajectory_fields, trajectory_record, winner_weight, FieldView,
    Record,
};
use crate::scalar::{zero, Scalar};
use crate::text::digits;
use vstd::prelude::*;
use vstd::string::StringExecFns;

verus! {

/// Lines to be appended to a file.
pub struct Writing<'a, R> {
    /// The directory to be made first, if there is one.
    pub dir: Option<String>,
    pub path: String,
    /// One record per line.
    pub records: Vec<Record<'a, R>>,
    /// Whether nothing can go on if the lines are not written.
    pub vital: bool,
}

/// What a writing holds.
#[verifier::ext_equal]
pub ghost struct WritingView<R> {
    pub dir: Option<Seq<char>>,
    pub path: Seq<char>,
    pub records: Seq<Seq<(Seq<char>, FieldView<R>)>>,
    pub vital: bool,
}

/// What records hold, one by one.
pub open spec fn records_view<'a, R>(records: Seq<Record<'a, R>>) -> Seq<
    Seq<(Seq<char>, FieldView<R>)>,
> {
    Seq::new(records.len(), |i: int| record_view(records[i]@))
}

impl<'a, R> View for Writing<'a, R> {
    type V = WritingView<R>;

    open spec fn view(&self) -> WritingView<R> {
        WritingView {
            dir: match self.dir {
                Some(d) => Some(d@),
                None => None,
            },
            path: self.path@,
            records: records_view(self.records@),
            vital: self.vital,
        }
    }
}

/// What writings hold, one by one.
pub open spec fn writings_view<'a, R>(writings: Seq<Writing<'a, R>>) -> Seq<WritingView<R>> {
    Seq::new(writings.len(), |i: int| writings[i]@)
}

/// A writing, if there is to be one.
pub open spec fn written_if<R>(wanted: bool, w: WritingView<R>) -> Seq<WritingView<R>> {
    if wanted {
        seq![w]
    } else {
        Seq::empty()
    }
}

/// An episode whose trajectory can be written: the weights of all its steps fit.
pub open spec fn weights_fit<R>(o: &EpisodeOutcome<R>) -> bool {
    forall|i: int|
        0 <= i < o.all_steps_data@.len() ==> winner_weight(
            (#[trigger] o.all_steps_data@[i]).valid_actions@.len() as int,
        ) <= usize::MAX
}

/// A copy of a text.
fn copied(s: &String) -> (r: String)
    ensures
        r@ == s@,
{
    String::from_str(s.as_str())
}

/// Whether a number from 0 to 1 was drawn for each state whose action is valid in it.
pub open spec fn are_units<R, D>(luck: Luck<R, D>, states: Seq<StepRecord>, draws: Seq<R>) -> bool {
    &&& draws.len() == states.len()
    &&& forall|i: int|
        0 <= i < draws.len() && states[i].valid_actions@.contains(states[i].action) ==> (
        luck.unit)(#[trigger] draws[i])
}

impl<R: Scalar, D: Scalar> Gatherer<R, D> {
    /// The log that resignation is tuned by, in the directory for it.
    pub open spec fn log_writing(&self, o: &EpisodeOutcome<R>) -> WritingView<R> {
        let dir = self.resignation_log_dir->0@;
        WritingView {
            dir: Some(dir),
            path: dir + "/resignation_"@ + digits(self.gather_id as nat) + ".jsonl"@,
            records: seq![self.spec_resignation_fields(o)],
            vital: false,
        }
    }

    /// The trajectory, step by step.
    pub open spec fn trajectory_writing(&self, o: &EpisodeOutcome<R>) -> WritingView<R> {
        let dir = self.trajectory_dir->0@;
        WritingView {
            dir: Some(dir),
            path: dir + "/traj_"@ + digits(self.gather_id as nat) + ".json"@,
            records: Seq::new(
                o.all_steps_data@.len(),
                |i: int| spec_trajectory_fields(o, i),
            ),
            vital: true,
        }
    }

    /// The full searches as training data, in their order.
    pub open spec fn corpus_writing(
        &self,
        o: &EpisodeOutcome<R>,
        is_reverse: bool,
    ) -> WritingView<R> {
        WritingView {
            dir: None,
            path: self.output_path@,
            records: Seq::new(
                o.temp_data@.len(),
                |i: int| self.spec_corpus_fields(o, &o.temp_data@[i], is_reverse),
            ),
            vital: true,
        }
    }

    /// The full searches in the bank, in their order.
    pub open spec fn gold_writing(
        &self,
        o: &EpisodeOutcome<R>,
        is_reverse: bool,
    ) -> WritingView<R> {
        let dir = self.gold_shard_dir->0@;
        WritingView {
            dir: Some(dir),
            path: dir + "/gold-"@ + digits(self.gather_id as nat) + ".jsonl"@,
            records: Seq::new(
                o.temp_data@.len(),
                |i: int| self.spec_gold_fields(o, &o.temp_data@[i], is_reverse),
            ),
            vital: false,
        }
    }

    /// What [`Gatherer::writings`] gives.
    pub open spec fn spec_writings(
        &self,
        o: &EpisodeOutcome<R>,
        is_reverse: bool,
        draw: R,
    ) -> Seq<WritingView<R>> {
        let plan = self.spec_plan_writing(o, is_reverse, draw);
        written_if(plan.log, self.log_writing(o)) + written_if(
            plan.trajectory,
            self.trajectory_writing(o),
        ) + written_if(plan.corpus, self.corpus_writing(o, is_reverse)) + written_if(
            plan.gold,
            self.gold_writing(o, is_reverse),
        )
    }

    /// The records of a trajectory.
    fn trajectory_records<'a>(&self, o: &'a EpisodeOutcome<R>) -> (r: Vec<Record<'a, R>>)
        requires
            weights_fit(o),
        ensures
            records_view(r@) == self.trajectory_writing(o).records,
    {
        let mut records: Vec<Record<'a, R>> = Vec::with_capacity(o.all_steps_data.len());
        let mut i: usize = 0;
        while i < o.all_steps_data.len()
            invariant
                i <= o.all_steps_data@.len(),
                weights_fit(o),
                records@.len() == i,
                forall|k: int|
                    0 <= k < i ==> record_view((#[trigger] records@[k])@)
                        == spec_trajectory_fields(o, k),
            decreases o.all_steps_data@.len() - i,
        {
            assert(winner_weight(o.all_steps_data@[i as int].valid_actions@.len() as int)
                <= usize::MAX);
            records.push(trajectory_record(o, i));
            i += 1;
        }
        assert(records_view(records@) =~= self.trajectory_writing(o).records);
        records
    }

    /// The records of the full searches, for training or for the bank.
    fn turn_records<'a>(&self, o: &'a EpisodeOutcome<R>, is_reverse: bool, gold: bool) -> (r: Vec<
        Record<'a, R>,
    >)
        ensures
            records_view(r@) == (if gold {
                self.gold_writing(o, is_reverse).records
            } else {
                self.corpus_writing(o, is_reverse).records
            }),
    {
        let mut records: Vec<Record<'a, R>> = Vec::with_capacity(o.temp_data.len());
        let mut i: usize = 0;
        while i < o.temp_data.len()
            invariant
                i <= o.temp_data@.len(),
                records@.len() == i,
                forall|k: int|
                    0 <= k < i ==> record_view((#[trigger] records@[k])@) == (if gold {
                        self.spec_gold_fields(o, &o.temp_data@[k], is_reverse)
                    } else {
                        self.spec_corpus_fields(o, &o.temp_data@[k], is_reverse)
                    }),
            decreases o.temp_data@.len() - i,
        {
            if gold {
                records.push(self.gold_record(o, &o.temp_data[i], is_reverse));
            } else {
                records.push(self.corpus_record(o, &o.temp_data[i], is_reverse));
            }
            i += 1;
        }
        assert(records_view(records@) =~= (if gold {
            self.gold_writing(o, is_reverse).records
        } else {
            self.corpus_writing(o, is_reverse).records
        }));
        records
    }

    /// All that is written of an episode, with a number drawn from 0 to 1 for what is left to
    /// chance: the log, the trajectory of a win, the training data, and the bank.
    pub fn writings<'a>(&self, o: &'a EpisodeOutcome<R>, is_reverse: bool, draw: &R) -> (r: Vec<
        Writing<'a, R>,
    >)
        requires
            weights_fit(o),
        ensures
            writings_view(r@) == self.spec_writings(o, is_reverse, *draw),
    {
        let plan = self.plan_writing(o, is_reverse, draw);
        let mut out: Vec<Writing<'a, R>> = Vec::new();
        if plan.log {
            if let Some(dir) = &self.resignation_log_dir {
                let mut records: Vec<Record<'a, R>> = Vec::new();
                records.push(self.resignation_record(o));
                assert(records_view(records@) =~= seq![self.spec_resignation_fields(o)]);
                out.push(
                    Writing {
                        dir: Some(copied(dir)),
                        path: self.resignation_path(dir.as_str()),
                        records,
                        vital: false,
                    },
                );
                assert(out@[0]@ =~= self.log_writing(o));
            }
        }
        let ghost first = written_if(plan.log, self.log_writing(o));
        assert(writings_view(out@) =~= first);
        if plan.trajectory {
            if let Some(dir) = &self.trajectory_dir {
                let w: Writing<'a, R> = Writing {
                    dir: Some(copied(dir)),
                    path: self.trajectory_path(dir.as_str()),
                    records: self.trajectory_records(o),
                    vital: true,
                };
                assert(w@ =~= self.trajectory_writing(o));
                out.push(w);
            }
        }
        let ghost second = first + written_if(plan.trajectory, self.trajectory_writing(o));
        assert(writings_view(out@) =~= second);
        if plan.corpus {
            let w: Writing<'a, R> = Writing {
                dir: None,
                path: copied(&self.output_path),
                records: self.turn_records(o, is_reverse, false),
                vital: true,
            };
            assert(w@ =~= self.corpus_writing(o, is_reverse));
            out.push(w);
        }
        let ghost third = second + written_if(plan.corpus, self.corpus_writing(o, is_reverse));
        assert(writings_view(out@) =~= third);
        if plan.gold {
            if let Some(dir) = &self.gold_shard_dir {
                let w: Writing<'a, R> = Writing {
                    dir: Some(copied(dir)),
                    path: self.gold_path(dir.as_str()),
                    records: self.turn_records(o, is_reverse, true),
                    vital: false,
                };
                assert(w@ =~= self.gold_writing(o, is_reverse));
                out.push(w);
            }
        }
        assert(writings_view(out@) =~= third + written_if(
            plan.gold,
            self.gold_writing(o, is_reverse),
        ));
        out
    }

    /// All that is written of an episode, and what came of it: the depth reached, the depth of
    /// the reference, and whether the goal was reached.
    ///
    /// A number is drawn only where it is left to chance if the episode is kept.
    pub fn write_episode<'a, H: Chance<R, D>>(
        &self,
        o: &'a EpisodeOutcome<R>,
        is_reverse: bool,
        chance: &mut H,
    ) -> (r: (Vec<Writing<'a, R>>, (R, R, bool)))
        requires
            weights_fit(o),
        ensures
            exists|draw: R| #[trigger]
                self.spec_writings(o, is_reverse, draw) == writings_view(r.0@) && (
                self.spec_needs_keep_draw(o.reward_kind, o.score) ==> (luck_of::<
                    R,
                    D,
                    H,
                >().unit)(draw)),
            r.1 == (o.solution_depth, o.reference_depth, o.done),
            !self.spec_needs_keep_draw(o.reward_kind, o.score) ==> *final(chance) == *old(chance),
    {
        let draw: R = if self.needs_keep_draw(o.reward_kind, &o.score) {
            draw_unit::<R, D, H>(chance)
        } else {
            R::decimal(0, 0)
        };
        let out: Vec<Writing<'a, R>> = self.writings(o, is_reverse, &draw);
        assert(self.spec_writings(o, is_reverse, draw) == writings_view(out@));
        (out, (o.solution_depth.dup(), o.reference_depth.dup(), o.done))
    }

    /// The lines of a demonstration: the states whose action is valid and whose number keeps
    /// them, in their order.
    pub open spec fn spec_demo_records(
        &self,
        plan_len: usize,
        states: Seq<StepRecord>,
        draws: Seq<R>,
    ) -> Seq<Seq<(Seq<char>, FieldView<R>)>>
        decreases states.len(),
    {
        if states.len() == 0 {
            Seq::empty()
        } else {
            let rest = self.spec_demo_records(plan_len, states.drop_last(), draws);
            let s = states.last();
            if s.valid_actions@.contains(s.action) && R::spec_less(
                draws[states.len() - 1],
                self.spec_demo_keep(plan_len),
            ) {
                rest.push(self.spec_demo_fields(&s))
            } else {
                rest
            }
        }
    }

    /// What is written of a demonstration with the numbers drawn for its states.
    pub open spec fn demo_writing(
        &self,
        plan_len: usize,
        states: Seq<StepRecord>,
        draws: Seq<R>,
    ) -> WritingView<R> {
        WritingView {
            dir: None,
            path: self.output_path@,
            records: self.spec_demo_records(plan_len, states, draws),
            vital: true,
        }
    }

    /// What is written of a demonstration of `plan_len` actions, with a number from 0 to 1 drawn
    /// for each of its states.
    pub fn demonstration<'a>(
        &self,
        plan_len: usize,
        states: &'a Vec<StepRecord>,
        draws: &Vec<R>,
    ) -> (r: Writing<'a, R>)
        requires
            draws@.len() == states@.len(),
        ensures
            r@ == self.demo_writing(plan_len, states@, draws@),
    {
        let mut records: Vec<Record<'a, R>> = Vec::new();
        let mut i: usize = 0;
        assert(records_view(records@) =~= self.spec_demo_records(
            plan_len,
            states@.take(0),
            draws@,
        ));
        while i < states.len()
            invariant
                i <= states@.len(),
                draws@.len() == states@.len(),
                records_view(records@) == self.spec_demo_records(
                    plan_len,
                    states@.take(i as int),
                    draws@,
                ),
            decreases states@.len() - i,
        {
            let s: &StepRecord = &states[i];
            let ghost before = records@;
            if self.keeps_demo_state(plan_len, s.valid_actions.as_slice(), s.action, &draws[i]) {
                records.push(self.demo_record(s));
                assert(records_view(records@) =~= records_view(before).push(
                    self.spec_demo_fields(s),
                ));
            }
            i += 1;
            proof {
                let more = states@.take(i as int);
                assert(more.drop_last() =~= states@.take(i - 1));
                assert(more.last() == *s);
            }
        }
        assert(states@.take(i as int) =~= states@);
        let w: Writing<'a, R> = Writing {
            dir: None,
            path: copied(&self.output_path),
            records,
            vital: true,
        };
        assert(w@ =~= self.demo_writing(plan_len, states@, draws@));
        w
    }

    /// A demonstration has a record for each of its states at most.
    proof fn lemma_demo_records(&self, plan_len: usize, states: Seq<StepRecord>, draws: Seq<R>)
        ensures
            self.spec_demo_records(plan_len, states, draws).len() <= states.len(),
        decreases states.len(),
    {
        if states.len() > 0 {
            self.lemma_demo_records(plan_len, states.drop_last(), draws);
        }
    }

    /// What is written of a demonstration: nothing without a plan, else a random part of the
    /// states in which its action is valid. A number is drawn for each of these. Also the summary
    /// of a demonstration: no depth is reached, and not the goal.
    pub fn write_demo_episode<'a, H: Chance<R, D>>(
        &self,
        plan_len: usize,
        states: &'a Vec<StepRecord>,
        chance: &mut H,
    ) -> (r: (Option<Writing<'a, R>>, (R, R, bool)))
        ensures
            r.1 == (zero::<R>(), zero::<R>(), false),
            r.0 is None <==> plan_len == 0,
            r.0 is None ==> *final(chance) == *old(chance),
            r.0 matches Some(w) ==> w@.records.len() <= states@.len(),
            r.0 matches Some(w) ==> exists|draws: Seq<R>|
                are_units(luck_of::<R, D, H>(), states@, draws) && #[trigger] self.demo_writing(
                    plan_len,
                    states@,
                    draws,
                ) == w@,
    {
        let summary: (R, R, bool) = (R::decimal(0, 0), R::decimal(0, 0), false);
        if plan_len == 0 {
            return (None, summary);
        }
        let mut draws: Vec<R> = Vec::with_capacity(states.len());
        let mut i: usize = 0;
        while i < states.len()
            invariant
                i <= states@.len(),
                draws@.len() == i,
                forall|k: int|
                    0 <= k < i && states@[k].valid_actions@.contains(states@[k].action) ==> (
                    luck_of::<R, D, H>().unit)(#[trigger] draws@[k]),
            decreases states@.len() - i,
        {
            if is_valid(states[i].valid_actions.as_slice(), states[i].action) {
                draws.push(draw_unit::<R, D, H>(chance));
            } else {
                draws.push(R::decimal(0, 0));
            }
            i += 1;
        }
        let w: Writing<'a, R> = self.demonstration(plan_len, states, &draws);
        assert(self.demo_writing(plan_len, states@, draws@) == w@);
        proof {
            self.lemma_demo_records(plan_len, states@, draws@);
        }
        (Some(w), summary)
    }
}

/// Law: where nothing is left to chance, what is written of an episode does not depend on the
/// number drawn.
pub proof fn law_writing_is_settled<R: Scalar, D: Scalar>(
    g: &Gatherer<R, D>,
    o: &EpisodeOutcome<R>,
    is_reverse: bool,
    a: R,
    b: R,
)
    requires
        !g.spec_needs_keep_draw(o.reward_kind, o.score),
    ensures
        g.spec_writings(o, is_reverse, a) == g.spec_writings(o, is_reverse, b),
{
}

} // verus!
