//! Evaluation: an agent plays held-out instances greedily, and its result is graded.

use crate::advance::{next_root, reachable_set};
use crate::environment::Environment;
use crate::flight::load_at;
use crate::grading::Hindsight;
use crate::inference::{
    alone, can_ask, is_batch, is_failure, oracle_of, InferenceClient, InferenceError, Oracle,
};
use crate::json_text::{comma_list, number_array_text};
use crate::mcts::MCTS;
use crate::node::{Node, NodeId};
use crate::reward::{
    done_score, not_done_score, spec_done_score, spec_not_done_score,
};
use crate::run::{batches, playouts, rules_of};
use crate::scalar::{times, Binary, Scalar, Unary};
use crate::search::sound;
use crate::trace::{
    asks, is_searched, law_search_asks_open_batches, lemma_search_fails, lemma_search_weaken, Rules,
};
use crate::tree::{fresh_tuning, Tree};
use crate::tilers_obs::{Action, TilersObs};
use vstd::prelude::*;
use vstd::string::StringExecFns;

verus! {

/// The number of leaves that an evaluation evaluates together.
pub const EVAL_BATCH: usize = 8;

/// The settings of an evaluation.
pub struct Evaluator<R> {
    /// Playouts per action.
    pub mcts_steps: usize,
    pub c_puct: R,
    /// Temperature at which the rewards saturate.
    pub reward_saturation_temperature: R,
    /// The action budget as a multiple of the reference's actions.
    pub max_action_multiplier: R,
}

/// A held-out instance.
pub struct HoldoutEnvironment {
    pub environment_id: i64,
    pub json: String,
    pub num_objectives: i64,
    pub difficulty_bin: i64,
    pub action_count: i64,
}

/// The state that a sequence of actions leads to.
pub open spec fn state_after<E: Environment>(start: u64, actions: Seq<E::Act>) -> u64
    decreases actions.len(),
{
    if actions.len() == 0 {
        start
    } else {
        E::spec_next(state_after::<E>(start, actions.drop_last()), actions.last())
    }
}

/// Whether a sequence of actions is a line of play: every action is valid where it is taken, and
/// no state before the last is terminal.
pub open spec fn is_line<E: Environment>(start: u64, actions: Seq<E::Act>) -> bool {
    forall|i: int|
        0 <= i < actions.len() ==> {
            let here = #[trigger] state_after::<E>(start, actions.take(i));
            !E::spec_done(here) && E::spec_actions(here).contains(actions[i])
        }
}

/// One more action makes a line longer.
proof fn lemma_line_push<E: Environment>(start: u64, actions: Seq<E::Act>, action: E::Act)
    requires
        is_line::<E>(start, actions),
        !E::spec_done(state_after::<E>(start, actions)),
        E::spec_actions(state_after::<E>(start, actions)).contains(action),
    ensures
        is_line::<E>(start, actions.push(action)),
        state_after::<E>(start, actions.push(action)) == E::spec_next(
            state_after::<E>(start, actions),
            action,
        ),
{
    let longer = actions.push(action);
    assert(longer.drop_last() =~= actions);
    assert forall|i: int| 0 <= i < longer.len() implies {
        let here = #[trigger] state_after::<E>(start, longer.take(i));
        !E::spec_done(here) && E::spec_actions(here).contains(longer[i])
    } by {
        if i < actions.len() {
            assert(longer.take(i) =~= actions.take(i));
        } else {
            assert(longer.take(i) =~= actions);
        }
    }
}

/// The visits of an action, 0 where there is no slot for it.
pub open spec fn slot_visits(edge_visits: Seq<usize>, a: Action) -> usize {
    if a < edge_visits.len() {
        edge_visits[a as int]
    } else {
        0
    }
}

/// Whether the action at `i` is the last one with the most visits.
pub open spec fn is_last_most_visited(
    ids: Seq<Action>,
    edge_visits: Seq<usize>,
    i: int,
) -> bool {
    &&& 0 <= i < ids.len()
    &&& forall|j: int|
        0 <= j < i ==> slot_visits(edge_visits, #[trigger] ids[j]) <= slot_visits(
            edge_visits,
            ids[i],
        )
    &&& forall|j: int|
        i < j < ids.len() ==> slot_visits(edge_visits, #[trigger] ids[j]) < slot_visits(
            edge_visits,
            ids[i],
        )
}

/// The most visited of some actions, the last one of those with as many visits.
pub fn greedy_action(ids: &[Action], edge_visits: &Vec<usize>) -> (r: Action)
    requires
        ids@.len() > 0,
    ensures
        exists|i: int| #[trigger]
            is_last_most_visited(ids@, edge_visits@, i) && r == ids@[i],
        ids@.contains(r),
{
    let mut best: usize = 0;
    let mut top: usize = if (ids[0] as usize) < edge_visits.len() {
        edge_visits[ids[0] as usize]
    } else {
        0
    };
    let mut i: usize = 1;
    while i < ids.len()
        invariant
            1 <= i <= ids@.len(),
            best < i,
            top == slot_visits(edge_visits@, ids@[best as int]),
            forall|j: int|
                0 <= j < best ==> slot_visits(edge_visits@, #[trigger] ids@[j]) <= top,
            forall|j: int|
                best < j < i ==> slot_visits(edge_visits@, #[trigger] ids@[j]) < top,
        decreases ids.len() - i,
    {
        let slot: usize = ids[i] as usize;
        let v: usize = if slot < edge_visits.len() {
            edge_visits[slot]
        } else {
            0
        };
        if v >= top {
            best = i;
            top = v;
        }
        i += 1;
    }
    assert(is_last_most_visited(ids@, edge_visits@, best as int));
    ids[best]
}

/// A ply of an evaluation: the tree it starts with, and what a search makes of it.
#[verifier::reject_recursive_types(R)]
pub ghost struct Ply<R> {
    pub before: Tree<Action, R>,
    pub searched: Tree<Action, R>,
}

impl<R: Scalar> Evaluator<R> {
    /// Whether a value is the value of a terminal state, by its depth against the reference.
    pub open spec fn is_value<E: Environment, G: Fn(&E) -> R>(
        &self,
        reference_depth: R,
        depth: &G,
        id: NodeId,
        value: R,
    ) -> bool {
        exists|e: &E, d: R| #[trigger]
            call_ensures(depth, (e,), d) && e.spec_hash() == id && value
                == self.spec_terminal_value(E::spec_done(id), reference_depth, d)
    }

    /// What the searches of an evaluation are led by.
    pub open spec fn rules<E: Environment<Act = Action>, G: Fn(&E) -> R>(
        &self,
        oracle: Oracle<Action, R>,
        reference_depth: R,
        depth: &G,
        root: NodeId,
    ) -> Rules<Action, R> {
        Rules {
            root,
            tuning: fresh_tuning(),
            c_puct: self.c_puct,
            forced: false,
            finishes: |id: NodeId, value: R|
                self.is_value::<E, G>(reference_depth, depth, id, value),
            oracle,
        }
    }

    /// Whether a ply is played: its tree is searched from the state, and the last of the most
    /// visited actions is taken.
    pub open spec fn is_ply<E: Environment<Act = Action>, G: Fn(&E) -> R>(
        &self,
        reference_depth: R,
        depth: &G,
        oracle: Oracle<Action, R>,
        here: NodeId,
        ply: Ply<R>,
        action: Action,
    ) -> bool {
        &&& is_searched::<E, R>(
            self.rules::<E, G>(oracle, reference_depth, depth, here),
            ply.before,
            ply.searched,
            batches(self.mcts_steps, EVAL_BATCH),
            EVAL_BATCH as nat,
        )
        &&& exists|i: int| #[trigger]
            is_last_most_visited(
                E::spec_actions(here),
                ply.searched[here].edge_visits,
                i,
            ) && action == E::spec_actions(here)[i]
    }

    /// Whether the ply at `i` of an evaluation is played, on the tree that the one before it
    /// leaves; the first one on an empty tree.
    pub open spec fn is_ply_at<E: Environment<Act = Action>, G: Fn(&E) -> R>(
        &self,
        reference_depth: R,
        depth: &G,
        oracle: Oracle<Action, R>,
        start: NodeId,
        actions: Seq<Action>,
        plies: Seq<Ply<R>>,
        i: int,
    ) -> bool {
        &&& self.is_ply::<E, G>(
            reference_depth,
            depth,
            oracle,
            state_after::<E>(start, actions.take(i)),
            plies[i],
            actions[i],
        )
        &&& plies[i].before == (if i == 0 {
            Map::empty()
        } else {
            advanced(
                state_after::<E>(start, actions.take(i - 1)),
                plies[i - 1].searched,
                actions[i - 1],
            )
        })
    }

    /// Whether all plies of an evaluation are played.
    pub open spec fn are_plies<E: Environment<Act = Action>, G: Fn(&E) -> R>(
        &self,
        reference_depth: R,
        depth: &G,
        oracle: Oracle<Action, R>,
        start: NodeId,
        actions: Seq<Action>,
        plies: Seq<Ply<R>>,
    ) -> bool {
        &&& plies.len() == actions.len()
        &&& forall|i: int|
            0 <= i < actions.len() ==> #[trigger] self.is_ply_at::<E, G>(
                reference_depth,
                depth,
                oracle,
                start,
                actions,
                plies,
                i,
            )
    }

    /// The tree that some plies leave for the next one.
    pub open spec fn spec_left<E: Environment<Act = Action>>(
        start: NodeId,
        actions: Seq<Action>,
        plies: Seq<Ply<R>>,
    ) -> Tree<Action, R> {
        if actions.len() == 0 {
            Map::empty()
        } else {
            advanced(
                state_after::<E>(start, actions.drop_last()),
                plies.last().searched,
                actions.last(),
            )
        }
    }

    /// Whether an evaluation of at most `most` actions asks for a batch after some plies, which
    /// leave an action to search for.
    pub open spec fn asks_after_plies<E: Environment<Act = Action>, G: Fn(&E) -> R>(
        &self,
        reference_depth: R,
        depth: &G,
        oracle: Oracle<Action, R>,
        start: NodeId,
        most: usize,
        actions: Seq<Action>,
        plies: Seq<Ply<R>>,
        obs: Seq<E::Obs>,
    ) -> bool {
        let here = state_after::<E>(start, actions);
        &&& self.are_plies::<E, G>(reference_depth, depth, oracle, start, actions, plies)
        &&& is_line::<E>(start, actions)
        &&& actions.len() < most
        &&& !E::spec_done(here)
        &&& E::spec_actions(here).len() > 0
        &&& asks::<E, R>(
            self.rules::<E, G>(oracle, reference_depth, depth, here),
            Self::spec_left::<E>(start, actions, plies),
            batches(self.mcts_steps, EVAL_BATCH),
            EVAL_BATCH as nat,
            obs,
        )
    }

    /// The batches that an evaluation asks for: those of the search of each state that it comes
    /// to, as long as there is an action to search for.
    pub open spec fn asked_in_plies<E: Environment<Act = Action>, G: Fn(&E) -> R>(
        &self,
        reference_depth: R,
        depth: &G,
        oracle: Oracle<Action, R>,
        start: NodeId,
        most: usize,
    ) -> spec_fn(Seq<E::Obs>) -> bool {
        |obs: Seq<E::Obs>|
            exists|actions: Seq<Action>, plies: Seq<Ply<R>>| #[trigger]
                self.asks_after_plies::<E, G>(
                    reference_depth,
                    depth,
                    oracle,
                    start,
                    most,
                    actions,
                    plies,
                    obs,
                )
    }

    /// Whether an evaluation breaks off in a state: after some plies, where there is an action to
    /// search for.
    pub open spec fn is_broken_off<E: Environment<Act = Action>, G: Fn(&E) -> R>(
        &self,
        reference_depth: R,
        depth: &G,
        oracle: Oracle<Action, R>,
        start: NodeId,
        most: usize,
        end: NodeId,
    ) -> bool {
        exists|actions: Seq<Action>, plies: Seq<Ply<R>>|
            {
                &&& #[trigger] self.are_plies::<E, G>(
                    reference_depth,
                    depth,
                    oracle,
                    start,
                    actions,
                    plies,
                )
                &&& is_line::<E>(start, actions)
                &&& actions.len() < most
                &&& end == state_after::<E>(start, actions)
                &&& !E::spec_done(end)
                &&& E::spec_actions(end).len() > 0
            }
    }

    /// Law: an evaluation asks for batches of open states only, each with at least one state and
    /// at most as many as a batch of playouts has.
    pub proof fn law_evaluation_asks_open_batches<E: Environment<Act = Action>, G: Fn(&E) -> R>(
        &self,
        reference_depth: R,
        depth: &G,
        oracle: Oracle<Action, R>,
        start: NodeId,
        most: usize,
        obs: Seq<E::Obs>,
    )
        requires
            self.asked_in_plies::<E, G>(reference_depth, depth, oracle, start, most)(obs),
        ensures
            is_batch::<E>(obs, EVAL_BATCH as nat),
    {
        let (actions, plies) = choose|actions: Seq<Action>, plies: Seq<Ply<R>>| #[trigger]
            self.asks_after_plies::<E, G>(
                reference_depth,
                depth,
                oracle,
                start,
                most,
                actions,
                plies,
                obs,
            );
        law_search_asks_open_batches::<E, R>(
            self.rules::<E, G>(oracle, reference_depth, depth, state_after::<E>(start, actions)),
            Self::spec_left::<E>(start, actions, plies),
            batches(self.mcts_steps, EVAL_BATCH),
            EVAL_BATCH,
            obs,
        );
    }

    /// One more ply.
    proof fn lemma_plies_push<E: Environment<Act = Action>, G: Fn(&E) -> R>(
        &self,
        reference_depth: R,
        depth: &G,
        oracle: Oracle<Action, R>,
        start: NodeId,
        actions: Seq<Action>,
        plies: Seq<Ply<R>>,
        action: Action,
        ply: Ply<R>,
    )
        requires
            self.are_plies::<E, G>(reference_depth, depth, oracle, start, actions, plies),
            self.is_ply::<E, G>(
                reference_depth,
                depth,
                oracle,
                state_after::<E>(start, actions),
                ply,
                action,
            ),
            ply.before == Self::spec_left::<E>(start, actions, plies),
        ensures
            self.are_plies::<E, G>(
                reference_depth,
                depth,
                oracle,
                start,
                actions.push(action),
                plies.push(ply),
            ),
    {
        let a = actions.push(action);
        let p = plies.push(ply);
        assert forall|i: int| 0 <= i < a.len() implies #[trigger] self.is_ply_at::<E, G>(
            reference_depth,
            depth,
            oracle,
            start,
            a,
            p,
            i,
        ) by {
            assert(a.take(i) =~= actions.take(i));
            if i > 0 {
                assert(a.take(i - 1) =~= actions.take(i - 1));
            }
            if i < actions.len() {
                assert(self.is_ply_at::<E, G>(
                    reference_depth,
                    depth,
                    oracle,
                    start,
                    actions,
                    plies,
                    i,
                ));
            } else {
                assert(actions.take(i) =~= actions);
                if i > 0 {
                    assert(actions.take(i - 1) =~= actions.drop_last());
                }
            }
        }
    }
}

/// The tree that is left once an action is played at the root: what can be reached from the
/// child, or all of it without one.
pub open spec fn advanced<R: Scalar>(
    root: NodeId,
    tree: Tree<Action, R>,
    action: Action,
) -> Tree<Action, R> {
    match next_root(Some(root), tree, action) {
        Some(id) => tree.restrict(reachable_set(tree, id)),
        None => tree,
    }
}

/// The grade of an evaluated instance.
pub struct Verdict<R> {
    /// Depth of the solution, if there is one.
    pub solution_depth: Option<R>,
    /// Objectives achieved.
    pub achieved_objectives: usize,
    pub eval_reward: R,
}

impl<R: Scalar> Evaluator<R> {
    /// Settings of an evaluation.
    pub fn new(
        mcts_steps: usize,
        c_puct: R,
        reward_saturation_temperature: R,
        max_action_multiplier: R,
    ) -> (r: Self)
        ensures
            r == (Evaluator {
                mcts_steps,
                c_puct,
                reward_saturation_temperature,
                max_action_multiplier,
            }),
    {
        Evaluator { mcts_steps, c_puct, reward_saturation_temperature, max_action_multiplier }
    }

    /// What [`Evaluator::action_budget`] gives.
    pub open spec fn spec_action_budget(&self, plan_len: Option<usize>) -> usize {
        match plan_len {
            Some(n) => R::spec_to_count(
                R::spec_unary(Unary::Ceil, times(R::spec_count(n), self.max_action_multiplier)),
            ),
            None => 1000,
        }
    }

    /// The number of actions that the agent may take: the multiple of the reference plan, rounded
    /// up, or 1000 without one.
    pub fn action_budget(&self, plan_len: Option<usize>) -> (r: usize)
        ensures
            r == self.spec_action_budget(plan_len),
    {
        match plan_len {
            Some(n) => R::to_count(
                &R::unary(
                    Unary::Ceil,
                    &R::binary(Binary::Times, &R::count(n), &self.max_action_multiplier),
                ),
            ),
            None => 1000,
        }
    }

    /// The value of a terminal state against the reference.
    pub open spec fn spec_terminal_value(&self, done: bool, reference_depth: R, depth: R) -> R {
        if done {
            spec_done_score(reference_depth, depth, self.reward_saturation_temperature)
        } else {
            spec_not_done_score()
        }
    }

    /// The value of a terminal state against the reference.
    pub fn terminal_value(&self, done: bool, reference_depth: &R, depth: &R) -> (r: R)
        ensures
            r == self.spec_terminal_value(done, *reference_depth, *depth),
    {
        if done {
            done_score(reference_depth, depth, &self.reward_saturation_temperature)
        } else {
            not_done_score()
        }
    }

    /// Plays an instance: searches every state and takes the most visited action, until the goal
    /// is reached, no action is left or the budget is spent. Returns the actions taken; `depth`
    /// gives the depth of a state.
    pub fn evaluate_single<
        E: Environment<Act = Action, Obs = TilersObs>,
        C: InferenceClient<E, R> + ?Sized,
        G: Fn(&E) -> R,
    >(
        &self,
        env: &mut E,
        reference_depth: &R,
        max_actions: usize,
        client: &C,
        depth: &G,
    ) -> (r: Result<Vec<Action>, InferenceError>)
        requires
            forall|e: &E| call_requires(depth, (e,)),
            self.mcts_steps + EVAL_BATCH <= usize::MAX,
            (max_actions + 1) * playouts(self.mcts_steps, EVAL_BATCH) + 2 < usize::MAX,
            can_ask::<E, R, C>(
                client,
                self.asked_in_plies::<E, G>(
                    *reference_depth,
                    depth,
                    oracle_of::<E, R, C>(client),
                    old(env).spec_hash(),
                    max_actions,
                ),
            ),
        ensures
            E::spec_done(old(env).spec_hash()) ==> r is Ok,
            E::spec_actions(old(env).spec_hash()).len() == 0 ==> r is Ok,
            r matches Err(e) ==> {
                let asked = self.asked_in_plies::<E, G>(
                    *reference_depth,
                    depth,
                    oracle_of::<E, R, C>(client),
                    old(env).spec_hash(),
                    max_actions,
                );
                is_failure::<E, R, C>(client, asked, alone::<E>(asked), e)
            },
            r is Err ==> self.is_broken_off::<E, G>(
                *reference_depth,
                depth,
                oracle_of::<E, R, C>(client),
                old(env).spec_hash(),
                max_actions,
                final(env).spec_hash(),
            ),
            max_actions == 0 ==> r is Ok,
            r is Ok ==> {
                let start = old(env).spec_hash();
                let end = final(env).spec_hash();
                let actions = r->Ok_0@;
                &&& is_line::<E>(start, actions)
                &&& end == state_after::<E>(start, actions)
                &&& actions.len() <= max_actions
                &&& actions.len() == max_actions || E::spec_done(end) || E::spec_actions(end).len()
                    == 0
                &&& exists|plies: Seq<Ply<R>>| #[trigger]
                    self.are_plies::<E, G>(
                        *reference_depth,
                        depth,
                        oracle_of::<E, R, C>(client),
                        start,
                        actions,
                        plies,
                    )
            },
    {
        let mut mcts: MCTS<E, R> = MCTS::new(EVAL_BATCH);
        let mut actions: Vec<Action> = Vec::new();
        let ghost start = env.spec_hash();
        let ghost n = playouts(self.mcts_steps, EVAL_BATCH);
        let ghost mut played: nat = 0;
        let ghost oracle = oracle_of::<E, R, C>(client);
        let ghost mut plies: Seq<Ply<R>> = Seq::empty();
        let ghost asked = self.asked_in_plies::<E, G>(
            *reference_depth,
            depth,
            oracle,
            start,
            max_actions,
        );
        assert(mcts.tree() =~= Map::empty());
        assert(actions@.len() * n == 0) by (nonlinear_arith)
            requires
                actions@.len() == 0,
        ;
        while actions.len() < max_actions
            invariant
                forall|e: &E| call_requires(depth, (e,)),
                self.mcts_steps + EVAL_BATCH <= usize::MAX,
                n == playouts(self.mcts_steps, EVAL_BATCH),
                (max_actions + 1) * n + 2 < usize::MAX,
                actions@.len() <= max_actions,
                start == old(env).spec_hash(),
                is_line::<E>(start, actions@),
                env.spec_hash() == state_after::<E>(start, actions@),
                actions@.len() == 0 ==> env.spec_hash() == old(env).spec_hash(),
                played == actions@.len() * n,
                mcts.wf(),
                mcts.batch_size == EVAL_BATCH,
                mcts.tuning() == fresh_tuning::<Action, R>(),
                oracle == oracle_of::<E, R, C>(client),
                asked == self.asked_in_plies::<E, G>(
                    *reference_depth,
                    depth,
                    oracle,
                    start,
                    max_actions,
                ),
                can_ask::<E, R, C>(client, asked),
                actions@.len() > 0 ==> !E::spec_done(start) && E::spec_actions(start).len() > 0,
                self.are_plies::<E, G>(
                    *reference_depth,
                    depth,
                    oracle,
                    start,
                    actions@,
                    plies,
                ),
                mcts.tree() == Self::spec_left::<E>(start, actions@, plies),
                sound::<E, R>(mcts.tree()),
                forall|id: NodeId| #[trigger]
                    mcts.tree().contains_key(id) ==> mcts.tree()[id].load() <= played,
            ensures
                self.are_plies::<E, G>(
                    *reference_depth,
                    depth,
                    oracle,
                    start,
                    actions@,
                    plies,
                ),
                is_line::<E>(start, actions@),
                env.spec_hash() == state_after::<E>(start, actions@),
                actions@.len() <= max_actions,
                actions@.len() == max_actions || E::spec_done(env.spec_hash()) || E::spec_actions(
                    env.spec_hash(),
                ).len() == 0,
            decreases max_actions - actions.len(),
        {
            if env.done() {
                break ;
            }
            let ids: Vec<Action> = env.valid_actions();
            if ids.len() == 0 {
                break ;
            }
            proof {
                assert((actions@.len() + 1) * n == actions@.len() * n + n) by (nonlinear_arith);
                assert((actions@.len() + 1) * n <= (max_actions + 1) * n) by (nonlinear_arith)
                    requires
                        actions@.len() <= max_actions,
                ;
            }
            let evaluate = |e: &E| -> (v: R)
                requires
                    call_requires(depth, (e,)),
                ensures
                    exists|d: R| #[trigger]
                        call_ensures(depth, (e,), d) && v == self.spec_terminal_value(
                            E::spec_done(e.spec_hash()),
                            *reference_depth,
                            d,
                        ),
                {
                    let d: R = depth(e);
                    self.terminal_value(e.done(), reference_depth, &d)
                };
            let ghost before = mcts.tree();
            let ghost here = env.spec_hash();
            let ghost rules = self.rules::<E, G>(oracle, *reference_depth, depth, here);
            let ghost count = batches(self.mcts_steps, EVAL_BATCH);
            proof {
                let strict = rules_of::<E, R, _>(
                    oracle,
                    here,
                    fresh_tuning(),
                    self.c_puct,
                    false,
                    &evaluate,
                );
                assert forall|at: NodeId, value: R| #[trigger]
                    (strict.finishes)(at, value) implies (rules.finishes)(at, value) by {
                    let e = choose|e: &E| #[trigger]
                        call_ensures(evaluate, (e,), value) && e.spec_hash() == at;
                    let d = choose|d: R| #[trigger]
                        call_ensures(depth, (e,), d) && value == self.spec_terminal_value(
                            E::spec_done(e.spec_hash()),
                            *reference_depth,
                            d,
                        );
                    assert(call_ensures(depth, (e,), d));
                }
                lemma_search_weaken::<E, R, C>(
                    client,
                    strict,
                    rules,
                    before,
                    count,
                    EVAL_BATCH as nat,
                );
                assert forall|obs: Seq<TilersObs>| #[trigger]
                    asks::<E, R>(rules, before, count, EVAL_BATCH as nat, obs) implies asked(
                    obs,
                ) by {
                    assert(self.asks_after_plies::<E, G>(
                        *reference_depth,
                        depth,
                        oracle,
                        start,
                        max_actions,
                        actions@,
                        plies,
                        obs,
                    ));
                }
            }
            let root: Node<Action, R> = match mcts.run(
                env,
                client,
                self.mcts_steps,
                self.c_puct.dup(),
                &evaluate,
                false,
            ) {
                Ok(node) => node,
                Err(e) => {
                    proof {
                        lemma_search_fails::<E, R, C>(
                            client,
                            rules,
                            before,
                            count,
                            EVAL_BATCH as nat,
                            asked,
                            e,
                        );
                    }
                    return Err(e);
                },
            };
            proof {
                played = played + n;
                assert forall|id: NodeId| #[trigger] mcts.tree().contains_key(id) implies mcts.tree()[id].load()
                    <= played by {
                    assert(load_at(before, id) <= played - n);
                }
            }
            let action: Action = greedy_action(&ids, &root.edge_visits);
            let ghost ply = Ply { before, searched: mcts.tree() };
            let ghost earlier = actions@;
            proof {
                self.lemma_plies_push::<E, G>(
                    *reference_depth,
                    depth,
                    oracle,
                    start,
                    actions@,
                    plies,
                    action,
                    ply,
                );
                plies = plies.push(ply);
                lemma_line_push::<E>(start, actions@, action);
            }
            actions.push(action);
            assert(actions@.drop_last() =~= earlier);
            env.step(action);
            let ghost searched = mcts.tree();
            mcts.advance_root(action);
            proof {
                if mcts.root_id is None {
                    assert(mcts.tree() =~= searched);
                }
            }
        }
        Ok(actions)
    }

    /// What [`Evaluator::verdict`] gives.
    pub open spec fn spec_verdict(
        &self,
        reference_depth: R,
        done: bool,
        depth: R,
        num_objectives: usize,
        hindsight: Hindsight<R>,
    ) -> Verdict<R> {
        let tau = self.reward_saturation_temperature;
        if done {
            Verdict {
                solution_depth: Some(depth),
                achieved_objectives: num_objectives,
                eval_reward: spec_done_score(reference_depth, depth, tau),
            }
        } else {
            match hindsight {
                Hindsight::Nothing => Verdict {
                    solution_depth: None,
                    achieved_objectives: 0,
                    eval_reward: spec_not_done_score(),
                },
                Hindsight::Unsolved(k) => Verdict {
                    solution_depth: None,
                    achieved_objectives: k,
                    eval_reward: spec_not_done_score(),
                },
                Hindsight::Solved(k, reached) => Verdict {
                    solution_depth: None,
                    achieved_objectives: k,
                    eval_reward: spec_done_score(reached, depth, tau),
                },
            }
        }
    }

    /// Grades an instance that was played: by its depth against the reference if the goal was
    /// reached, and else by its depth against the reference for the goal that was.
    pub fn verdict(
        &self,
        reference_depth: &R,
        done: bool,
        depth: &R,
        num_objectives: usize,
        hindsight: &Hindsight<R>,
    ) -> (r: Verdict<R>)
        ensures
            r == self.spec_verdict(*reference_depth, done, *depth, num_objectives, *hindsight),
    {
        let tau: &R = &self.reward_saturation_temperature;
        if done {
            return Verdict {
                solution_depth: Some(depth.dup()),
                achieved_objectives: num_objectives,
                eval_reward: done_score(reference_depth, depth, tau),
            };
        }
        match hindsight {
            Hindsight::Nothing => Verdict {
                solution_depth: None,
                achieved_objectives: 0,
                eval_reward: not_done_score(),
            },
            Hindsight::Unsolved(k) => Verdict {
                solution_depth: None,
                achieved_objectives: *k,
                eval_reward: not_done_score(),
            },
            Hindsight::Solved(k, reached) => Verdict {
                solution_depth: None,
                achieved_objectives: *k,
                eval_reward: done_score(reached, depth, tau),
            },
        }
    }
}

/// Law: the reward of an instance whose goal was reached is the value that the search backs up
/// for its last state.
pub proof fn law_verdict_is_search_value<R: Scalar>(
    e: &Evaluator<R>,
    reference_depth: R,
    depth: R,
    num_objectives: usize,
    hindsight: Hindsight<R>,
)
    ensures
        e.spec_verdict(reference_depth, true, depth, num_objectives, hindsight).eval_reward
            == e.spec_terminal_value(true, reference_depth, depth),
{
}

/// The actions of a solution as they are stored; `None` for an instance without a reference.
pub fn actions_text(actions: Option<Vec<Action>>) -> (r: String)
    ensures
        r@ == (match actions {
            Some(v) => seq!['['] + comma_list(v@) + seq![']'],
            None => "\"heuristic_unsolvable\""@,
        }),
{
    match actions {
        Some(v) => number_array_text(v),
        None => String::from_str("\"heuristic_unsolvable\""),
    }
}

/// The numbers bound to the query for held-out instances, in order: the highest difficulty if
/// there is one, the number of nodes, and this node.
pub fn holdout_params(max_difficulty_bin: Option<i64>, node_idx: i64, num_nodes: i64) -> (r: Vec<
    i64,
>)
    ensures
        r@ == (match max_difficulty_bin {
            Some(m) => seq![m, num_nodes, node_idx],
            None => seq![num_nodes, node_idx],
        }),
{
    let mut bound: Vec<i64> = Vec::with_capacity(3);
    if let Some(m) = max_difficulty_bin {
        bound.push(m);
    }
    bound.push(num_nodes);
    bound.push(node_idx);
    assert(bound@ =~= (match max_difficulty_bin {
        Some(m) => seq![m, num_nodes, node_idx],
        None => seq![num_nodes, node_idx],
    }));
    bound
}

/// The query for held-out instances: in the order of their difficulty they are dealt out to the
/// nodes in turn, so that every node gets a mix.
pub fn holdout_query(filtered: bool) -> (r: String)
    ensures
        r@ == "WITH ordered AS (SELECT environment_id, json, num_objectives, difficulty_bin, action_count, ROW_NUMBER() OVER (ORDER BY difficulty_bin ASC, environment_id ASC) AS rn FROM environments "@
            + (if filtered {
            "WHERE difficulty_bin <= ?"@
        } else {
            ""@
        })
            + ") SELECT environment_id, json, num_objectives, difficulty_bin, action_count FROM ordered WHERE (rn - 1) % ? = ? ORDER BY difficulty_bin ASC"@,
{
    let filter: &str = if filtered {
        "WHERE difficulty_bin <= ?"
    } else {
        ""
    };
    String::from_str(
        "WITH ordered AS (SELECT environment_id, json, num_objectives, difficulty_bin, action_count, ROW_NUMBER() OVER (ORDER BY difficulty_bin ASC, environment_id ASC) AS rn FROM environments ",
    ).concat(filter).concat(
        ") SELECT environment_id, json, num_objectives, difficulty_bin, action_count FROM ordered WHERE (rn - 1) % ? = ? ORDER BY difficulty_bin ASC",
    )
}

} // verus!
