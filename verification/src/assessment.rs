//! The assessment of an agent on an instance: the reference is solved, the agent plays, and its
//! result is graded.

use crate::environment::Environment;
use crate::evaluator::{is_line, state_after, Evaluator, Ply, Verdict, EVAL_BATCH};
use crate::grading::Hindsight;
use crate::inference::{
    alone, can_ask, is_failure, lemma_failure_widens, oracle_of, InferenceClient, InferenceError,
    Oracle,
};
use crate::node::NodeId;
use crate::run::playouts;
use crate::scalar::Scalar;
use crate::tilers_obs::{Action, TilersObs};
use vstd::prelude::*;

verus! {

/// What an assessment is told of its game.
pub struct Exam<G, V, N, H> {
    /// The depth of a state.
    pub depth: G,
    /// The depth of the reference solution of a state, if there is one.
    pub reference: V,
    /// Actions of the reference plan of a state, if there is one.
    pub plan_len: N,
    /// The goal that was reached between two states.
    pub look_back: H,
}

/// Whether a reference solver may solve a state.
pub open spec fn has_reference<E: Environment, R: Scalar, V: Fn(&E) -> Option<R>>(
    reference: &V,
    state: NodeId,
) -> bool {
    exists|e: &E, depth: R| #[trigger]
        call_ensures(reference, (e,), Some(depth)) && e.spec_hash() == state
}

impl<R: Scalar> Evaluator<R> {
    /// Whether all questions about the game can be asked, and the games on its plans counted.
    pub open spec fn can_assess<
        E: Environment,
        G: Fn(&E) -> R,
        V: Fn(&E) -> Option<R>,
        N: Fn(&E) -> Option<usize>,
        H: Fn(&E, &E) -> Hindsight<R>,
    >(&self, exam: &Exam<G, V, N, H>) -> bool {
        &&& self.mcts_steps + EVAL_BATCH <= usize::MAX
        &&& forall|e: &E| call_requires(exam.depth, (e,))
        &&& forall|e: &E| call_requires(exam.reference, (e,))
        &&& forall|e: &E| call_requires(exam.plan_len, (e,))
        &&& forall|a: &E, b: &E| call_requires(exam.look_back, (a, b))
        &&& forall|e: &E, n: Option<usize>| #[trigger]
            call_ensures(exam.plan_len, (e,), n) ==> (self.spec_action_budget(n) + 1) * playouts(
                self.mcts_steps,
                EVAL_BATCH,
            ) + 2 < usize::MAX
    }

    /// Whether a game was played greedily against a reference of some depth and length.
    pub open spec fn is_greedy<
        E: Environment<Act = Action, Obs = TilersObs>,
        G: Fn(&E) -> R,
    >(
        &self,
        depth: &G,
        oracle: Oracle<Action, R>,
        start: NodeId,
        reference_depth: R,
        plan_len: Option<usize>,
        actions: Seq<Action>,
    ) -> bool {
        let end = state_after::<E>(start, actions);
        let budget = self.spec_action_budget(plan_len);
        &&& is_line::<E>(start, actions)
        &&& actions.len() <= budget
        &&& actions.len() == budget || E::spec_done(end) || E::spec_actions(end).len() == 0
        &&& exists|plies: Seq<Ply<R>>| #[trigger]
            self.are_plies::<E, G>(reference_depth, depth, oracle, start, actions, plies)
    }

    /// Whether a verdict is that on a game. The goal that was reached is asked for only where it
    /// is not that of the instance.
    pub open spec fn is_verdict<
        E: Environment,
        G: Fn(&E) -> R,
        H: Fn(&E, &E) -> Hindsight<R>,
    >(
        &self,
        depth: &G,
        look_back: &H,
        num_objectives: usize,
        reference_depth: R,
        first: E,
        last: E,
        reached: R,
        hindsight: Hindsight<R>,
        verdict: Verdict<R>,
    ) -> bool {
        let done = E::spec_done(last.spec_hash());
        &&& call_ensures(depth, (&last,), reached)
        &&& if done {
            hindsight == Hindsight::<R>::Nothing
        } else {
            call_ensures(look_back, (&first, &last), hindsight)
        }
        &&& verdict == self.spec_verdict(reference_depth, done, reached, num_objectives, hindsight)
    }

    /// Whether the agent played an instance, and was graded.
    pub open spec fn is_graded<
        E: Environment<Act = Action, Obs = TilersObs>,
        G: Fn(&E) -> R,
        V: Fn(&E) -> Option<R>,
        N: Fn(&E) -> Option<usize>,
        H: Fn(&E, &E) -> Hindsight<R>,
    >(
        &self,
        exam: &Exam<G, V, N, H>,
        num_objectives: usize,
        oracle: Oracle<Action, R>,
        start: NodeId,
        actions: Seq<Action>,
        verdict: Verdict<R>,
    ) -> bool {
        exists|
            e: &E,
            reference_depth: R,
            f: &E,
            plan_len: Option<usize>,
            first: E,
            last: E,
            reached: R,
            hindsight: Hindsight<R>,
        |
            {
                &&& #[trigger] call_ensures(exam.reference, (e,), Some(reference_depth))
                &&& e.spec_hash() == start
                &&& #[trigger] call_ensures(exam.plan_len, (f,), plan_len)
                &&& f.spec_hash() == start
                &&& self.is_greedy::<E, G>(
                    &exam.depth,
                    oracle,
                    start,
                    reference_depth,
                    plan_len,
                    actions,
                )
                &&& #[trigger] self.is_verdict::<E, G, H>(
                    &exam.depth,
                    &exam.look_back,
                    num_objectives,
                    reference_depth,
                    first,
                    last,
                    reached,
                    hindsight,
                    verdict,
                )
                &&& first.spec_hash() == start
                &&& last.spec_hash() == state_after::<E>(start, actions)
            }
    }

    /// Whether an instance was assessed: without a reference solution there is no verdict, else
    /// the agent played it and was graded.
    pub open spec fn is_assessed<
        E: Environment<Act = Action, Obs = TilersObs>,
        G: Fn(&E) -> R,
        V: Fn(&E) -> Option<R>,
        N: Fn(&E) -> Option<usize>,
        H: Fn(&E, &E) -> Hindsight<R>,
    >(
        &self,
        exam: &Exam<G, V, N, H>,
        num_objectives: usize,
        oracle: Oracle<Action, R>,
        start: NodeId,
        result: Option<(Vec<Action>, Verdict<R>)>,
    ) -> bool {
        match result {
            None => exists|e: &E| #[trigger]
                call_ensures(exam.reference, (e,), None::<R>) && e.spec_hash() == start,
            Some((actions, verdict)) => self.is_graded::<E, G, V, N, H>(
                exam,
                num_objectives,
                oracle,
                start,
                actions@,
                verdict,
            ),
        }
    }

    /// Whether an assessment asks for a batch, with some answers of the reference solver.
    pub open spec fn asks_with<
        E: Environment<Act = Action, Obs = TilersObs>,
        G: Fn(&E) -> R,
        V: Fn(&E) -> Option<R>,
        N: Fn(&E) -> Option<usize>,
        H: Fn(&E, &E) -> Hindsight<R>,
    >(
        &self,
        exam: &Exam<G, V, N, H>,
        oracle: Oracle<Action, R>,
        start: NodeId,
        e: &E,
        reference_depth: R,
        f: &E,
        plan_len: Option<usize>,
        obs: Seq<TilersObs>,
    ) -> bool {
        &&& call_ensures(exam.reference, (e,), Some(reference_depth))
        &&& e.spec_hash() == start
        &&& call_ensures(exam.plan_len, (f,), plan_len)
        &&& f.spec_hash() == start
        &&& self.asked_in_plies::<E, G>(
            reference_depth,
            &exam.depth,
            oracle,
            start,
            self.spec_action_budget(plan_len),
        )(obs)
    }

    /// The batches that an assessment asks for: those of the evaluation, if there is a reference.
    pub open spec fn asked_in_exam<
        E: Environment<Act = Action, Obs = TilersObs>,
        G: Fn(&E) -> R,
        V: Fn(&E) -> Option<R>,
        N: Fn(&E) -> Option<usize>,
        H: Fn(&E, &E) -> Hindsight<R>,
    >(
        &self,
        exam: &Exam<G, V, N, H>,
        oracle: Oracle<Action, R>,
        start: NodeId,
    ) -> spec_fn(Seq<TilersObs>) -> bool {
        |obs: Seq<TilersObs>|
            exists|e: &E, reference_depth: R, f: &E, plan_len: Option<usize>| #[trigger]
                self.asks_with::<E, G, V, N, H>(
                    exam,
                    oracle,
                    start,
                    e,
                    reference_depth,
                    f,
                    plan_len,
                    obs,
                )
    }

    /// Assesses the agent on an instance: nothing where the reference solver gives up on it, else
    /// the actions that the agent took and the verdict on them.
    pub fn assess<
        E: Environment<Act = Action, Obs = TilersObs>,
        C: InferenceClient<E, R> + ?Sized,
        G: Fn(&E) -> R,
        V: Fn(&E) -> Option<R>,
        N: Fn(&E) -> Option<usize>,
        H: Fn(&E, &E) -> Hindsight<R>,
    >(&self, start: E, num_objectives: usize, client: &C, exam: &Exam<G, V, N, H>) -> (r: Result<
        Option<(Vec<Action>, Verdict<R>)>,
        InferenceError,
    >)
        requires
            self.can_assess::<E, G, V, N, H>(exam),
            can_ask::<E, R, C>(
                client,
                self.asked_in_exam::<E, G, V, N, H>(
                    exam,
                    oracle_of::<E, R, C>(client),
                    start.spec_hash(),
                ),
            ),
        ensures
            E::spec_done(start.spec_hash()) ==> r is Ok,
            E::spec_actions(start.spec_hash()).len() == 0 ==> r is Ok,
            !has_reference::<E, R, V>(&exam.reference, start.spec_hash()) ==> r == Ok::<
                Option<(Vec<Action>, Verdict<R>)>,
                InferenceError,
            >(None),
            r matches Err(e) ==> {
                let asked = self.asked_in_exam::<E, G, V, N, H>(
                    exam,
                    oracle_of::<E, R, C>(client),
                    start.spec_hash(),
                );
                is_failure::<E, R, C>(client, asked, alone::<E>(asked), e)
            },
            r matches Ok(result) ==> self.is_assessed::<E, G, V, N, H>(
                exam,
                num_objectives,
                oracle_of::<E, R, C>(client),
                start.spec_hash(),
                result,
            ),
    {
        let ghost here = start.spec_hash();
        let ghost oracle = oracle_of::<E, R, C>(client);
        let solved: Option<R> = (exam.reference)(&start);
        assert(call_ensures(exam.reference, (&start,), solved));
        let reference_depth: R = match solved {
            Some(d) => d,
            None => {
                return Ok(None);
            },
        };
        assert(call_ensures(exam.reference, (&start,), Some(reference_depth)));
        let plan_len: Option<usize> = (exam.plan_len)(&start);
        assert(call_ensures(exam.plan_len, (&start,), plan_len));
        let max_actions: usize = self.action_budget(plan_len);
        let mut env: E = start.clone();
        let ghost asked = self.asked_in_exam::<E, G, V, N, H>(exam, oracle, here);
        let ghost inner = self.asked_in_plies::<E, G>(
            reference_depth,
            &exam.depth,
            oracle,
            here,
            max_actions,
        );
        proof {
            E::clone_law(start, env);
            assert forall|obs: Seq<TilersObs>| #[trigger] inner(obs) implies asked(obs) by {
                assert(self.asks_with::<E, G, V, N, H>(
                    exam,
                    oracle,
                    here,
                    &start,
                    reference_depth,
                    &start,
                    plan_len,
                    obs,
                ));
            }
        }
        let actions: Vec<Action> = match self.evaluate_single(
            &mut env,
            &reference_depth,
            max_actions,
            client,
            &exam.depth,
        ) {
            Ok(a) => a,
            Err(e) => {
                proof {
                    lemma_failure_widens::<E, R, C>(
                        client,
                        inner,
                        alone::<E>(inner),
                        asked,
                        alone::<E>(asked),
                        e,
                    );
                }
                return Err(e);
            },
        };
        assert(self.is_greedy::<E, G>(
            &exam.depth,
            oracle,
            here,
            reference_depth,
            plan_len,
            actions@,
        ));
        let done: bool = env.done();
        let reached: R = (exam.depth)(&env);
        let hindsight: Hindsight<R> = if done {
            Hindsight::Nothing
        } else {
            (exam.look_back)(&start, &env)
        };
        let verdict: Verdict<R> = self.verdict(
            &reference_depth,
            done,
            &reached,
            num_objectives,
            &hindsight,
        );
        assert(self.is_verdict::<E, G, H>(
            &exam.depth,
            &exam.look_back,
            num_objectives,
            reference_depth,
            start,
            env,
            reached,
            hindsight,
            verdict,
        ));
        assert(self.is_graded::<E, G, V, N, H>(
            exam,
            num_objectives,
            oracle,
            here,
            actions@,
            verdict,
        ));
        Ok(Some((actions, verdict)))
    }
}

} // verus!
