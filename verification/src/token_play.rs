//! Games on token observations: played by search, completed by a reference solver, and recorded
//! state by state.

use crate::environment::{is_seen, Environment};
use crate::evaluator::{advanced, state_after, Ply};
use crate::flight::load_at;
use crate::inference::{
    alone, can_ask, is_batch, is_failure, largest_batch, oracle_of, InferenceClient,
    InferenceError, Oracle,
};
use crate::inspect::{spec_valid_visits, valid_visits};
use crate::mcts::{lemma_total_take, MCTS};
use crate::moves::visits_for;
use crate::node::{terminal_node, total, Node, NodeId};
use crate::observation::{Action, Observation};
use crate::playthrough::{
    are_samples, draw_action, draw_gammas, is_drawn, luck_of, Chance, Luck,
};
use crate::records::{record_view, Field, FieldView, Record};
use crate::run::{batches, playouts, rules_of};
use crate::scalar::{one, over, spec_at_most, zero, Scalar};
use crate::search::sound;
use crate::selfplay::{
    noise_alpha, noiseless, spec_supervised_visits, supervised_edge_visits, SelfPlay,
};
use crate::trace::{
    asks, is_searched, law_search_asks_open_batches, lemma_search_fails, lemma_search_weaken, Rules,
};
use crate::tree::{fresh_tuning, Tree};
use std::collections::HashMap;
use vstd::prelude::*;

verus! {

/// A recorded state: what is seen of it, its valid actions, and the visits that they get.
pub struct TokenRow {
    pub obs: Observation,
    pub valid_actions: Vec<Action>,
    pub edge_visits: HashMap<Action, usize>,
}

/// How moves are made.
#[derive(Clone, Copy, Debug, PartialEq, Eq, Structural)]
pub struct Style {
    /// Whether all moves have noise, and not only the first three.
    pub always_noisy: bool,
    /// Whether the tree is cut down to what lies below each move.
    pub advances: bool,
}

impl Style {
    /// Whether the move at `i` is made without noise.
    pub open spec fn spec_quiet(&self, i: int) -> bool {
        !self.always_noisy && i > 2
    }
}

/// Why a game could not be played.
#[derive(Clone, Debug, PartialEq, Eq)]
pub enum TokenError {
    /// Inference failed.
    Inference(InferenceError),
    /// No action could be drawn.
    NoMove,
    /// The reference solver did not reach the goal.
    Unsolved,
}

/// Whether a searched state is recorded.
pub open spec fn is_row<E: Environment<Act = Action, Obs = Observation>, R: Scalar>(
    row: TokenRow,
    state: NodeId,
    searched: Tree<Action, R>,
) -> bool {
    &&& is_seen::<E>(state, row.obs)
    &&& row.valid_actions@ == E::spec_actions(state)
    &&& row.edge_visits@ == spec_valid_visits(searched[state])
}

/// The tree that a move leaves.
pub open spec fn left_by<R: Scalar>(
    style: Style,
    state: NodeId,
    searched: Tree<Action, R>,
    action: Action,
) -> Tree<Action, R> {
    if style.advances {
        advanced(state, searched, action)
    } else {
        searched
    }
}

/// The visits of some actions, if their sum can be counted.
fn counted_visits(edge_visits: &Vec<usize>, ids: &[Action]) -> (r: bool)
    ensures
        r == (total(visits_for(edge_visits@, ids@)) <= usize::MAX),
{
    let ghost all = visits_for(edge_visits@, ids@);
    let mut sum: usize = 0;
    let mut i: usize = 0;
    assert(all.take(0) =~= Seq::empty());
    while i < ids.len()
        invariant
            i <= ids@.len(),
            all == visits_for(edge_visits@, ids@),
            sum == total(all.take(i as int)),
        decreases ids.len() - i,
    {
        let slot: usize = ids[i] as usize;
        let v: usize = if slot < edge_visits.len() {
            edge_visits[slot]
        } else {
            0
        };
        proof {
            lemma_total_take(all, i as int);
        }
        match sum.checked_add(v) {
            Some(s) => {
                sum = s;
            },
            None => {
                return false;
            },
        }
        i += 1;
    }
    assert(all.take(i as int) =~= all);
    true
}

impl<R: Scalar, D: Scalar> SelfPlay<R, D> {
    /// What the searches of a game are led by: a reached goal has its fixed value.
    pub open spec fn rules(&self, oracle: Oracle<Action, R>, c_puct: R, root: NodeId) -> Rules<
        Action,
        R,
    > {
        Rules {
            root,
            tuning: fresh_tuning(),
            c_puct,
            forced: false,
            finishes: |id: NodeId, value: R| value == self.terminal_value,
            oracle,
        }
    }

    /// Whether the move of a turn was drawn by the visits of a searched root, mixed with noise unless
    /// it is a quiet one. Visits that cannot be counted give none.
    pub open spec fn is_selected(
        &self,
        luck: Luck<R, D>,
        edge_visits: Seq<usize>,
        ids: Seq<Action>,
        quiet: bool,
        action: Option<Action>,
    ) -> bool {
        if total(visits_for(edge_visits, ids)) > usize::MAX {
            action is None
        } else {
            exists|samples: Seq<D>|
                {
                    &&& samples.len() == (if quiet {
                        0
                    } else {
                        ids.len()
                    })
                    &&& are_samples(
                        luck,
                        over(D::spec_decimal(10, 0), D::spec_count(ids.len() as usize)),
                        samples,
                    )
                    &&& is_drawn(
                        luck,
                        #[trigger] self.spec_move_weights(edge_visits, ids, quiet, samples),
                        ids,
                        action,
                    )
                }
        }
    }

    /// Whether the state after the first `i` actions of a game is searched, on the tree that the
    /// turn before leaves. A game that is over from the start gets its value instead.
    pub open spec fn is_ply_at<E: Environment<Act = Action, Obs = Observation>>(
        &self,
        style: Style,
        c_puct: R,
        oracle: Oracle<Action, R>,
        start: NodeId,
        actions: Seq<Action>,
        plies: Seq<Ply<R>>,
        i: int,
        ply: Ply<R>,
    ) -> bool {
        let here = state_after::<E>(start, actions.take(i));
        &&& i > 0 ==> !E::spec_done(here)
        &&& ply.searched.contains_key(here)
        &&& if E::spec_done(here) {
            &&& ply.searched == ply.before.insert(here, ply.searched[here])
            &&& terminal_node(ply.searched[here], here, self.terminal_value)
        } else {
            is_searched::<E, R>(
                self.rules(oracle, c_puct, here),
                ply.before,
                ply.searched,
                batches(self.mcts_steps, self.batch_size),
                self.batch_size as nat,
            )
        }
        &&& ply.before == (if i == 0 {
            Map::empty()
        } else {
            left_by(
                style,
                state_after::<E>(start, actions.take(i - 1)),
                plies[i - 1].searched,
                actions[i - 1],
            )
        })
    }

    /// Whether the turn at `i` of a game is played: its state is searched, on the tree that the
    /// turn before leaves, and recorded, and a valid action is taken.
    pub open spec fn is_turn_at<E: Environment<Act = Action, Obs = Observation>>(
        &self,
        style: Style,
        c_puct: R,
        oracle: Oracle<Action, R>,
        luck: Luck<R, D>,
        start: NodeId,
        actions: Seq<Action>,
        rows: Seq<TokenRow>,
        plies: Seq<Ply<R>>,
        i: int,
    ) -> bool {
        let here = state_after::<E>(start, actions.take(i));
        &&& E::spec_actions(here).contains(actions[i])
        &&& self.is_ply_at::<E>(style, c_puct, oracle, start, actions, plies, i, plies[i])
        &&& is_row::<E, R>(rows[i], here, plies[i].searched)
        &&& self.is_selected(
            luck,
            plies[i].searched[here].edge_visits,
            E::spec_actions(here),
            style.spec_quiet(i),
            Some(actions[i]),
        )
    }

    /// Whether all turns of a game are played.
    pub open spec fn are_turns<E: Environment<Act = Action, Obs = Observation>>(
        &self,
        style: Style,
        c_puct: R,
        oracle: Oracle<Action, R>,
        luck: Luck<R, D>,
        start: NodeId,
        actions: Seq<Action>,
        rows: Seq<TokenRow>,
        plies: Seq<Ply<R>>,
    ) -> bool {
        &&& rows.len() == actions.len()
        &&& plies.len() == actions.len()
        &&& forall|i: int|
            0 <= i < actions.len() ==> #[trigger] self.is_turn_at::<E>(
                style,
                c_puct,
                oracle,
                luck,
                start,
                actions,
                rows,
                plies,
                i,
            )
    }

    /// Whether a game was played by some searches.
    pub open spec fn is_played<E: Environment<Act = Action, Obs = Observation>>(
        &self,
        style: Style,
        c_puct: R,
        oracle: Oracle<Action, R>,
        luck: Luck<R, D>,
        start: NodeId,
        actions: Seq<Action>,
        rows: Seq<TokenRow>,
    ) -> bool {
        exists|plies: Seq<Ply<R>>| #[trigger]
            self.are_turns::<E>(style, c_puct, oracle, luck, start, actions, rows, plies)
    }

    /// Whether a game was played up to a searched state for which no action was drawn.
    pub open spec fn is_stuck<E: Environment<Act = Action, Obs = Observation>>(
        &self,
        style: Style,
        c_puct: R,
        oracle: Oracle<Action, R>,
        luck: Luck<R, D>,
        start: NodeId,
    ) -> bool {
        exists|actions: Seq<Action>, rows: Seq<TokenRow>, plies: Seq<Ply<R>>, ply: Ply<R>|
            {
                let here = state_after::<E>(start, actions);
                &&& actions.len() < self.max_actions
                &&& #[trigger] self.are_turns::<E>(
                    style,
                    c_puct,
                    oracle,
                    luck,
                    start,
                    actions,
                    rows,
                    plies,
                )
                &&& #[trigger] self.is_ply_at::<E>(
                    style,
                    c_puct,
                    oracle,
                    start,
                    actions,
                    plies,
                    actions.len() as int,
                    ply,
                )
                &&& self.is_selected(
                    luck,
                    ply.searched[here].edge_visits,
                    E::spec_actions(here),
                    style.spec_quiet(actions.len() as int),
                    None,
                )
            }
    }

    /// The tree that some turns leave for the next one.
    pub open spec fn spec_left<E: Environment<Act = Action, Obs = Observation>>(
        style: Style,
        start: NodeId,
        actions: Seq<Action>,
        plies: Seq<Ply<R>>,
    ) -> Tree<Action, R> {
        if actions.len() == 0 {
            Map::empty()
        } else {
            left_by(
                style,
                state_after::<E>(start, actions.drop_last()),
                plies.last().searched,
                actions.last(),
            )
        }
    }

    /// Whether a game asks for a batch after some turns.
    pub open spec fn asks_after_turns<E: Environment<Act = Action, Obs = Observation>>(
        &self,
        style: Style,
        c_puct: R,
        oracle: Oracle<Action, R>,
        luck: Luck<R, D>,
        start: NodeId,
        actions: Seq<Action>,
        rows: Seq<TokenRow>,
        plies: Seq<Ply<R>>,
        obs: Seq<Observation>,
    ) -> bool {
        let here = state_after::<E>(start, actions);
        &&& self.are_turns::<E>(style, c_puct, oracle, luck, start, actions, rows, plies)
        &&& actions.len() < self.max_actions
        &&& !E::spec_done(here)
        &&& asks::<E, R>(
            self.rules(oracle, c_puct, here),
            Self::spec_left::<E>(style, start, actions, plies),
            batches(self.mcts_steps, self.batch_size),
            self.batch_size as nat,
            obs,
        )
    }

    /// The batches that a game asks for: those of the search of each state that it comes to and
    /// that is not finished.
    pub open spec fn asked_in_turns<E: Environment<Act = Action, Obs = Observation>>(
        &self,
        style: Style,
        c_puct: R,
        oracle: Oracle<Action, R>,
        luck: Luck<R, D>,
        start: NodeId,
    ) -> spec_fn(Seq<Observation>) -> bool {
        |obs: Seq<Observation>|
            exists|actions: Seq<Action>, rows: Seq<TokenRow>, plies: Seq<Ply<R>>| #[trigger]
                self.asks_after_turns::<E>(
                    style,
                    c_puct,
                    oracle,
                    luck,
                    start,
                    actions,
                    rows,
                    plies,
                    obs,
                )
    }

    /// Whether a game breaks off in a state after some turns.
    pub open spec fn is_broken_off<E: Environment<Act = Action, Obs = Observation>>(
        &self,
        style: Style,
        c_puct: R,
        oracle: Oracle<Action, R>,
        luck: Luck<R, D>,
        start: NodeId,
        end: NodeId,
    ) -> bool {
        exists|actions: Seq<Action>, rows: Seq<TokenRow>, plies: Seq<Ply<R>>| #[trigger]
            self.are_turns::<E>(style, c_puct, oracle, luck, start, actions, rows, plies)
                && actions.len() < self.max_actions && end == state_after::<E>(start, actions)
    }

    /// Law: a game asks for batches of open states only, each with at least one state and at most
    /// as many as its batch size, or one.
    pub proof fn law_game_asks_open_batches<E: Environment<Act = Action, Obs = Observation>>(
        &self,
        style: Style,
        c_puct: R,
        oracle: Oracle<Action, R>,
        luck: Luck<R, D>,
        start: NodeId,
        obs: Seq<Observation>,
    )
        requires
            self.asked_in_turns::<E>(style, c_puct, oracle, luck, start)(obs),
        ensures
            is_batch::<E>(obs, largest_batch(self.batch_size)),
    {
        let (actions, rows, plies) = choose|
            actions: Seq<Action>,
            rows: Seq<TokenRow>,
            plies: Seq<Ply<R>>,
        | #[trigger]
            self.asks_after_turns::<E>(
                style,
                c_puct,
                oracle,
                luck,
                start,
                actions,
                rows,
                plies,
                obs,
            );
        law_search_asks_open_batches::<E, R>(
            self.rules(oracle, c_puct, state_after::<E>(start, actions)),
            Self::spec_left::<E>(style, start, actions, plies),
            batches(self.mcts_steps, self.batch_size),
            self.batch_size,
            obs,
        );
    }

    /// One more turn.
    proof fn lemma_turns_push<E: Environment<Act = Action, Obs = Observation>>(
        &self,
        style: Style,
        c_puct: R,
        oracle: Oracle<Action, R>,
        luck: Luck<R, D>,
        start: NodeId,
        actions: Seq<Action>,
        rows: Seq<TokenRow>,
        plies: Seq<Ply<R>>,
        action: Action,
        row: TokenRow,
        ply: Ply<R>,
    )
        requires
            self.are_turns::<E>(style, c_puct, oracle, luck, start, actions, rows, plies),
            self.is_turn_at::<E>(
                style,
                c_puct,
                oracle,
                luck,
                start,
                actions.push(action),
                rows.push(row),
                plies.push(ply),
                actions.len() as int,
            ),
        ensures
            self.are_turns::<E>(
                style,
                c_puct,
                oracle,
                luck,
                start,
                actions.push(action),
                rows.push(row),
                plies.push(ply),
            ),
    {
        let a = actions.push(action);
        assert forall|i: int| 0 <= i < a.len() implies #[trigger] self.is_turn_at::<E>(
            style,
            c_puct,
            oracle,
            luck,
            start,
            a,
            rows.push(row),
            plies.push(ply),
            i,
        ) by {
            if i < actions.len() {
                assert(self.is_turn_at::<E>(
                    style,
                    c_puct,
                    oracle,
                    luck,
                    start,
                    actions,
                    rows,
                    plies,
                    i,
                ));
                assert(a.take(i) =~= actions.take(i));
                if i > 0 {
                    assert(a.take(i - 1) =~= actions.take(i - 1));
                }
            }
        }
    }

    /// Draws the move of a turn by the visits of the searched root, mixed with noise unless the
    /// move is a quiet one. `None` where no action is drawn.
    pub fn select_action<H: Chance<R, D>>(
        &self,
        node: &Node<Action, R>,
        ids: &Vec<Action>,
        quiet: bool,
        chance: &mut H,
    ) -> (r: Option<Action>)
        ensures
            self.is_selected(luck_of::<R, D, H>(), node.edge_visits@, ids@, quiet, r),
            r matches Some(a) ==> ids@.contains(a),
            ids@.len() == 0 ==> r is None,
    {
        if !counted_visits(&node.edge_visits, ids.as_slice()) {
            return None;
        }
        let samples: Vec<D> = if quiet {
            Vec::new()
        } else {
            let shape: D = noise_alpha(ids.len());
            draw_gammas::<R, D, H>(chance, &shape, ids.len())
        };
        let ghost drawn = samples@;
        let weights: Vec<D> = self.move_weights(&node.edge_visits, ids.as_slice(), quiet, samples);
        let r: Option<Action> = draw_action::<R, D, H>(chance, &weights, ids);
        assert(is_drawn(
            luck_of::<R, D, H>(),
            self.spec_move_weights(node.edge_visits@, ids@, quiet, drawn),
            ids@,
            r,
        ));
        r
    }

    /// Plays a game by search, until the goal is reached or the limit on actions: every state
    /// is searched and recorded, and its move is drawn. Returns the recorded states and the
    /// actions taken.
    #[verifier::rlimit(40)]
    pub fn play<
        E: Environment<Act = Action, Obs = Observation>,
        C: InferenceClient<E, R> + ?Sized,
        H: Chance<R, D>,
    >(
        &self,
        env: &mut E,
        client: &C,
        c_puct: R,
        style: Style,
        chance: &mut H,
    ) -> (r: Result<(Vec<TokenRow>, Vec<Action>), TokenError>)
        requires
            1 <= self.mcts_steps + self.batch_size <= usize::MAX,
            (self.max_actions + 1) * playouts(self.mcts_steps, self.batch_size) + 2 < usize::MAX,
            can_ask::<E, R, C>(
                client,
                self.asked_in_turns::<E>(
                    style,
                    c_puct,
                    oracle_of::<E, R, C>(client),
                    luck_of::<R, D, H>(),
                    old(env).spec_hash(),
                ),
            ),
        ensures
            self.max_actions == 0 ==> r is Ok,
            r is Ok ==> {
                let start = old(env).spec_hash();
                let end = final(env).spec_hash();
                let actions = r->Ok_0.1@;
                &&& end == state_after::<E>(start, actions)
                &&& actions.len() <= self.max_actions
                &&& actions.len() == self.max_actions || (actions.len() > 0 && E::spec_done(end))
                &&& self.is_played::<E>(
                    style,
                    c_puct,
                    oracle_of::<E, R, C>(client),
                    luck_of::<R, D, H>(),
                    start,
                    actions,
                    r->Ok_0.0@,
                )
            },
            r matches Err(TokenError::Inference(e)) ==> {
                let asked = self.asked_in_turns::<E>(
                    style,
                    c_puct,
                    oracle_of::<E, R, C>(client),
                    luck_of::<R, D, H>(),
                    old(env).spec_hash(),
                );
                is_failure::<E, R, C>(client, asked, alone::<E>(asked), e)
            },
            r is Err ==> !(r->Err_0 is Unsolved),
            r is Err ==> self.is_broken_off::<E>(
                style,
                c_puct,
                oracle_of::<E, R, C>(client),
                luck_of::<R, D, H>(),
                old(env).spec_hash(),
                final(env).spec_hash(),
            ),
            r is Err && r->Err_0 is NoMove ==> self.is_stuck::<E>(
                style,
                c_puct,
                oracle_of::<E, R, C>(client),
                luck_of::<R, D, H>(),
                old(env).spec_hash(),
            ),
    {
        let mut mcts: MCTS<E, R> = MCTS::new(self.batch_size);
        let mut rows: Vec<TokenRow> = Vec::new();
        let mut actions: Vec<Action> = Vec::new();
        let ghost start = env.spec_hash();
        let ghost n = playouts(self.mcts_steps, self.batch_size);
        let ghost mut played: nat = 0;
        let ghost oracle = oracle_of::<E, R, C>(client);
        let ghost luck = luck_of::<R, D, H>();
        let ghost mut plies: Seq<Ply<R>> = Seq::empty();
        let ghost asked = self.asked_in_turns::<E>(style, c_puct, oracle, luck, start);
        let mut open: bool = true;
        assert(mcts.tree() =~= Map::empty());
        assert(actions@.len() * n == 0) by (nonlinear_arith)
            requires
                actions@.len() == 0,
        ;
        while open && actions.len() < self.max_actions
            invariant
                1 <= self.mcts_steps + self.batch_size <= usize::MAX,
                n == playouts(self.mcts_steps, self.batch_size),
                (self.max_actions + 1) * n + 2 < usize::MAX,
                actions@.len() <= self.max_actions,
                start == old(env).spec_hash(),
                env.spec_hash() == state_after::<E>(start, actions@),
                !open ==> actions@.len() > 0 && E::spec_done(env.spec_hash()),
                open && actions@.len() > 0 ==> !E::spec_done(env.spec_hash()),
                played == actions@.len() * n,
                mcts.wf(),
                mcts.batch_size == self.batch_size,
                mcts.tuning() == fresh_tuning::<Action, R>(),
                oracle == oracle_of::<E, R, C>(client),
                luck == luck_of::<R, D, H>(),
                asked == self.asked_in_turns::<E>(style, c_puct, oracle, luck, start),
                can_ask::<E, R, C>(client, asked),
                self.are_turns::<E>(style, c_puct, oracle, luck, start, actions@, rows@, plies),
                open ==> mcts.tree() == Self::spec_left::<E>(style, start, actions@, plies),
                sound::<E, R>(mcts.tree()),
                forall|id: NodeId| #[trigger]
                    mcts.tree().contains_key(id) ==> mcts.tree()[id].load() <= played,
            decreases self.max_actions - actions.len(), (if open {
                1int
            } else {
                0
            }),
        {
            proof {
                assert((actions@.len() + 1) * n == actions@.len() * n + n) by (nonlinear_arith);
                assert((actions@.len() + 1) * n <= (self.max_actions + 1) * n)
                    by (nonlinear_arith)
                    requires
                        actions@.len() <= self.max_actions,
                ;
            }
            let goal: &R = &self.terminal_value;
            let evaluate = |e: &E| -> (v: R)
                ensures
                    v == *goal,
                {
                    goal.dup()
                };
            let ghost before = mcts.tree();
            let ghost here = env.spec_hash();
            let ghost rules = self.rules(oracle, c_puct, here);
            let ghost count = batches(self.mcts_steps, self.batch_size);
            proof {
                let strict = rules_of::<E, R, _>(
                    oracle,
                    here,
                    fresh_tuning(),
                    c_puct,
                    false,
                    &evaluate,
                );
                assert forall|at: NodeId, value: R| #[trigger]
                    (strict.finishes)(at, value) implies (rules.finishes)(at, value) by {}
                lemma_search_weaken::<E, R, C>(
                    client,
                    strict,
                    rules,
                    before,
                    count,
                    self.batch_size as nat,
                );
                if !E::spec_done(here) {
                    assert forall|obs: Seq<Observation>| #[trigger]
                        asks::<E, R>(
                            rules,
                            before,
                            count,
                            self.batch_size as nat,
                            obs,
                        ) implies asked(obs) by {
                        assert(self.asks_after_turns::<E>(
                            style,
                            c_puct,
                            oracle,
                            luck,
                            start,
                            actions@,
                            rows@,
                            plies,
                            obs,
                        ));
                    }
                }
            }
            let root: Node<Action, R> = match mcts.run(
                env,
                client,
                self.mcts_steps,
                c_puct.dup(),
                &evaluate,
                false,
            ) {
                Ok(node) => node,
                Err(e) => {
                    proof {
                        lemma_search_fails::<E, R, C>(
                            client,
                            rules,
                            before,
                            count,
                            self.batch_size as nat,
                            asked,
                            e,
                        );
                    }
                    return Err(TokenError::Inference(e));
                },
            };
            let ghost ply = Ply { before, searched: mcts.tree() };
            proof {
                played = played + n;
                assert forall|id: NodeId| #[trigger] mcts.tree().contains_key(id) implies mcts.tree()[id].load()
                    <= played by {
                    assert(load_at(before, id) <= played - n);
                }
            }
            let ids: Vec<Action> = env.valid_actions();
            let row: TokenRow = TokenRow {
                obs: env.observation(),
                valid_actions: env.valid_actions(),
                edge_visits: valid_visits(&root),
            };
            assert(call_ensures(E::observation, (&*env,), row.obs));
            assert(is_seen::<E>(here, row.obs));
            let quiet: bool = !style.always_noisy && noiseless(actions.len());
            let action: Action = match self.select_action(&root, &ids, quiet, chance) {
                Some(a) => a,
                None => {
                    proof {
                        assert(actions@.take(actions@.len() as int) =~= actions@);
                        if actions@.len() > 0 {
                            assert(actions@.take(actions@.len() - 1) =~= actions@.drop_last());
                        }
                    }
                    assert(self.is_ply_at::<E>(
                        style,
                        c_puct,
                        oracle,
                        start,
                        actions@,
                        plies,
                        actions@.len() as int,
                        ply,
                    ));
                    assert(ids@ == E::spec_actions(state_after::<E>(start, actions@)));
                    assert(self.is_selected(
                        luck,
                        ply.searched[here].edge_visits,
                        E::spec_actions(state_after::<E>(start, actions@)),
                        style.spec_quiet(actions@.len() as int),
                        None,
                    ));
                    return Err(TokenError::NoMove);
                },
            };
            let ghost earlier = actions@;
            let ghost earlier_rows = rows@;
            env.step(action);
            rows.push(row);
            actions.push(action);
            proof {
                assert(actions@.drop_last() =~= earlier);
                assert(actions@.take(earlier.len() as int) =~= earlier);
                if earlier.len() > 0 {
                    assert(actions@.take(earlier.len() - 1) =~= earlier.drop_last());
                }
                self.lemma_turns_push::<E>(
                    style,
                    c_puct,
                    oracle,
                    luck,
                    start,
                    earlier,
                    earlier_rows,
                    plies,
                    action,
                    row,
                    ply,
                );
                plies = plies.push(ply);
            }
            if env.done() {
                open = false;
            } else if style.advances {
                let ghost searched = mcts.tree();
                mcts.advance_root(action);
                proof {
                    if mcts.root_id is None {
                        assert(mcts.tree() =~= searched);
                    }
                }
            }
        }
        assert(self.is_played::<E>(style, c_puct, oracle, luck, start, actions@, rows@));
        Ok((rows, actions))
    }
}

/// A game that was played to its goal.
pub struct TokenGame<E> {
    /// The game at its end.
    pub env: E,
    /// The recorded states, the last one among them.
    pub rows: Vec<TokenRow>,
    pub actions: Vec<Action>,
}

/// The weight on the action of the reference solver in a recorded state.
pub open spec fn spec_reference_weight<R: Scalar>() -> R {
    R::spec_decimal(7, -1)
}

/// Whether a state of the reference solution is recorded.
pub open spec fn is_supervised<E: Environment<Act = Action, Obs = Observation>, R: Scalar>(
    row: TokenRow,
    state: NodeId,
    action: Action,
) -> bool {
    &&& is_seen::<E>(state, row.obs)
    &&& row.valid_actions@ == E::spec_actions(state)
    &&& row.edge_visits@ == spec_supervised_visits(
        action,
        E::spec_actions(state),
        spec_reference_weight::<R>(),
    )
}

/// Whether some actions are a plan of a solver for a state.
pub open spec fn is_plan<E: Environment<Act = Action>, G: Fn(&E) -> Vec<Action>>(
    solve: &G,
    state: NodeId,
    actions: Seq<Action>,
) -> bool {
    exists|e: &E, plan: Vec<Action>| #[trigger]
        call_ensures(solve, (e,), plan) && e.spec_hash() == state && plan@ == actions
}

impl<R: Scalar, D: Scalar> SelfPlay<R, D> {
    /// Whether the first `k` actions of a game were played by search, and all others, if the
    /// goal was not reached by then, follow the reference solver.
    pub open spec fn is_completed<
        E: Environment<Act = Action, Obs = Observation>,
        G: Fn(&E) -> Vec<Action>,
    >(
        &self,
        c_puct: R,
        oracle: Oracle<Action, R>,
        luck: Luck<R, D>,
        solve: &G,
        start: NodeId,
        actions: Seq<Action>,
        rows: Seq<TokenRow>,
        k: int,
    ) -> bool {
        let middle = state_after::<E>(start, actions.take(k));
        &&& 0 <= k <= actions.len()
        &&& k <= self.max_actions
        &&& self.is_played::<E>(
            Style { always_noisy: false, advances: true },
            c_puct,
            oracle,
            luck,
            start,
            actions.take(k),
            rows.take(k),
        )
        &&& k == self.max_actions || (k > 0 && E::spec_done(middle))
        &&& if E::spec_done(middle) {
            actions.len() == k
        } else {
            is_plan::<E, G>(solve, middle, actions.skip(k))
        }
        &&& forall|i: int|
            k <= i < actions.len() ==> is_supervised::<E, R>(
                #[trigger] rows[i],
                state_after::<E>(start, actions.take(i)),
                actions[i],
            )
    }

    /// Whether a game was gathered: played by search, completed by the reference solver, and
    /// recorded in all its states, the goal without actions.
    pub open spec fn is_gathered<
        E: Environment<Act = Action, Obs = Observation>,
        G: Fn(&E) -> Vec<Action>,
    >(
        &self,
        c_puct: R,
        oracle: Oracle<Action, R>,
        luck: Luck<R, D>,
        solve: &G,
        start: NodeId,
        game: TokenGame<E>,
    ) -> bool {
        let end = game.env.spec_hash();
        let last = game.rows@.last();
        &&& exists|k: int| #[trigger]
            self.is_completed::<E, G>(
                c_puct,
                oracle,
                luck,
                solve,
                start,
                game.actions@,
                game.rows@,
                k,
            )
        &&& end == state_after::<E>(start, game.actions@)
        &&& E::spec_done(end)
        &&& game.rows@.len() == game.actions@.len() + 1
        &&& is_seen::<E>(end, last.obs)
        &&& last.valid_actions@.len() == 0
        &&& last.edge_visits@ == Map::<Action, usize>::empty()
    }

    /// Whether a game was played by search, and left in a state that the reference solver did not
    /// bring to the goal.
    pub open spec fn is_unsolved<
        E: Environment<Act = Action, Obs = Observation>,
        G: Fn(&E) -> Vec<Action>,
    >(&self, c_puct: R, oracle: Oracle<Action, R>, luck: Luck<R, D>, solve: &G, start: NodeId) -> bool {
        exists|actions: Seq<Action>, rows: Seq<TokenRow>, plan: Seq<Action>|
            {
                &&& #[trigger] self.is_played::<E>(
                    Style { always_noisy: false, advances: true },
                    c_puct,
                    oracle,
                    luck,
                    start,
                    actions,
                    rows,
                )
                &&& #[trigger] is_plan::<E, G>(solve, state_after::<E>(start, actions), plan)
                &&& !E::spec_done(state_after::<E>(start, actions + plan))
            }
    }

    /// Plays a game by search, completes it with the reference solution where it falls short,
    /// and records all of its states. `solve` gives the actions of the reference solution.
    #[verifier::rlimit(40)]
    pub fn gather<
        E: Environment<Act = Action, Obs = Observation>,
        C: InferenceClient<E, R> + ?Sized,
        G: Fn(&E) -> Vec<Action>,
        H: Chance<R, D>,
    >(
        &self,
        env: E,
        client: &C,
        c_puct: R,
        solve: &G,
        chance: &mut H,
    ) -> (r: Result<TokenGame<E>, TokenError>)
        requires
            1 <= self.mcts_steps + self.batch_size <= usize::MAX,
            (self.max_actions + 1) * playouts(self.mcts_steps, self.batch_size) + 2 < usize::MAX,
            forall|e: &E| call_requires(solve, (e,)),
            spec_at_most(zero(), spec_reference_weight::<R>()),
            spec_at_most(spec_reference_weight::<R>(), one()),
            can_ask::<E, R, C>(
                client,
                self.asked_in_turns::<E>(
                    Style { always_noisy: false, advances: true },
                    c_puct,
                    oracle_of::<E, R, C>(client),
                    luck_of::<R, D, H>(),
                    env.spec_hash(),
                ),
            ),
        ensures
            self.max_actions == 0 ==> !(r matches Err(TokenError::Inference(_))),
            r matches Err(TokenError::Inference(e)) ==> {
                let asked = self.asked_in_turns::<E>(
                    Style { always_noisy: false, advances: true },
                    c_puct,
                    oracle_of::<E, R, C>(client),
                    luck_of::<R, D, H>(),
                    env.spec_hash(),
                );
                is_failure::<E, R, C>(client, asked, alone::<E>(asked), e)
            },
            r is Err && r->Err_0 is NoMove ==> self.is_stuck::<E>(
                Style { always_noisy: false, advances: true },
                c_puct,
                oracle_of::<E, R, C>(client),
                luck_of::<R, D, H>(),
                env.spec_hash(),
            ),
            r is Err && r->Err_0 is Unsolved ==> self.is_unsolved::<E, G>(
                c_puct,
                oracle_of::<E, R, C>(client),
                luck_of::<R, D, H>(),
                solve,
                env.spec_hash(),
            ),
            r matches Ok(game) ==> self.is_gathered::<E, G>(
                c_puct,
                oracle_of::<E, R, C>(client),
                luck_of::<R, D, H>(),
                solve,
                env.spec_hash(),
                game,
            ),
    {
        let ghost start = env.spec_hash();
        let ghost oracle = oracle_of::<E, R, C>(client);
        let ghost luck = luck_of::<R, D, H>();
        let ghost c = c_puct;
        let mut env: E = env;
        let style: Style = Style { always_noisy: false, advances: true };
        let (mut rows, mut actions): (Vec<TokenRow>, Vec<Action>) = match self.play(
            &mut env,
            client,
            c_puct,
            style,
            chance,
        ) {
            Ok(played) => played,
            Err(e) => {
                return Err(e);
            },
        };
        let ghost k = actions@.len() as int;
        let ghost first = actions@;
        let ghost first_rows = rows@;
        let ghost middle = env.spec_hash();
        assert(self.is_played::<E>(style, c, oracle, luck, start, first, first_rows));
        if !env.done() {
            let plan: Vec<Action> = solve(&env);
            assert(is_plan::<E, G>(solve, middle, plan@));
            let weight: R = R::decimal(7, -1);
            let mut j: usize = 0;
            assert(first + plan@.take(0) =~= first);
            while j < plan.len()
                invariant
                    j <= plan@.len(),
                    k == first.len(),
                    first_rows.len() == k,
                    weight == spec_reference_weight::<R>(),
                    spec_at_most(zero(), spec_reference_weight::<R>()),
                    spec_at_most(spec_reference_weight::<R>(), one()),
                    actions@ == first + plan@.take(j as int),
                    rows@.len() == k + j,
                    rows@.take(k) == first_rows,
                    env.spec_hash() == state_after::<E>(start, actions@),
                    forall|i: int|
                        k <= i < k + j ==> is_supervised::<E, R>(
                            #[trigger] rows@[i],
                            state_after::<E>(start, actions@.take(i)),
                            actions@[i],
                        ),
                decreases plan@.len() - j,
            {
                let action: Action = plan[j];
                let ghost before = actions@;
                let ghost before_rows = rows@;
                let ghost here = env.spec_hash();
                let ids: Vec<Action> = env.valid_actions();
                let row: TokenRow = TokenRow {
                    obs: env.observation(),
                    edge_visits: supervised_edge_visits(action, &ids, &weight),
                    valid_actions: ids,
                };
                assert(call_ensures(E::observation, (&env,), row.obs));
                assert(is_seen::<E>(here, row.obs));
                assert(is_supervised::<E, R>(row, here, action));
                env.step(action);
                rows.push(row);
                actions.push(action);
                j += 1;
                proof {
                    assert(actions@ =~= first + plan@.take(j as int));
                    assert(rows@.take(k) =~= before_rows.take(k));
                    assert(actions@.drop_last() =~= before);
                    assert forall|i: int| k <= i < k + j implies is_supervised::<E, R>(
                        #[trigger] rows@[i],
                        state_after::<E>(start, actions@.take(i)),
                        actions@[i],
                    ) by {
                        if i < k + j - 1 {
                            assert(rows@[i] == before_rows[i]);
                            assert(actions@.take(i) =~= before.take(i));
                        } else {
                            assert(actions@.take(i) =~= before);
                        }
                    }
                }
            }
            assert(plan@.take(j as int) =~= plan@);
            assert(actions@.skip(k) =~= plan@);
        }
        if !env.done() {
            return Err(TokenError::Unsolved);
        }
        let last: TokenRow = TokenRow {
            obs: env.observation(),
            valid_actions: Vec::new(),
            edge_visits: HashMap::new(),
        };
        assert(call_ensures(E::observation, (&env,), last.obs));
        assert(is_seen::<E>(env.spec_hash(), last.obs));
        let ghost before_rows = rows@;
        rows.push(last);
        proof {
            assert(actions@.take(k) =~= first);
            assert(rows@.take(k) =~= first_rows);
            assert(rows@.last().edge_visits@ =~= Map::<Action, usize>::empty());
            assert forall|i: int| k <= i < actions@.len() implies is_supervised::<E, R>(
                #[trigger] rows@[i],
                state_after::<E>(start, actions@.take(i)),
                actions@[i],
            ) by {
                assert(rows@[i] == before_rows[i]);
            }
            assert(self.is_completed::<E, G>(c, oracle, luck, solve, start, actions@, rows@, k));
        }
        let game: TokenGame<E> = TokenGame { env, rows, actions };
        assert(self.is_gathered::<E, G>(c, oracle, luck, solve, start, game)) by {
            assert(self.is_completed::<E, G>(
                c,
                oracle,
                luck,
                solve,
                start,
                game.actions@,
                game.rows@,
                k,
            ));
        }
        Ok(game)
    }
}

/// What the record of a state holds, with the number of ancillas where it is given.
pub open spec fn spec_token_fields<R: Scalar>(
    row: &TokenRow,
    height: usize,
    width: usize,
    num_ancillas: Option<usize>,
    reward: R,
) -> Seq<(Seq<char>, FieldView<R>)> {
    let size = seq![
        ("height"@, FieldView::Count(height)),
        ("width"@, FieldView::Count(width)),
    ];
    let ancillas = match num_ancillas {
        Some(n) => seq![("num_ancillas"@, FieldView::Count(n))],
        None => Seq::empty(),
    };
    size + ancillas + seq![
        ("placement"@, FieldView::Ids(row.obs.placement@)),
        ("objectives_0"@, FieldView::Ids(row.obs.objectives_0@)),
        ("objectives_1"@, FieldView::Ids(row.obs.objectives_1@)),
        ("valid_actions"@, FieldView::Ids(row.valid_actions@)),
        ("edge_visits"@, FieldView::Visits(row.edge_visits@)),
        ("reward"@, FieldView::Number(reward)),
    ]
}

/// The record of a state.
pub fn token_record<'a, R: Scalar>(
    row: &'a TokenRow,
    height: usize,
    width: usize,
    num_ancillas: Option<usize>,
    reward: R,
) -> (r: Record<'a, R>)
    ensures
        record_view(r@) == spec_token_fields(row, height, width, num_ancillas, reward),
{
    let mut r: Record<'a, R> = Vec::with_capacity(9);
    r.push(("height", Field::Count(height)));
    r.push(("width", Field::Count(width)));
    if let Some(n) = num_ancillas {
        r.push(("num_ancillas", Field::Count(n)));
    }
    r.push(("placement", Field::Ids(&row.obs.placement)));
    r.push(("objectives_0", Field::Ids(&row.obs.objectives_0)));
    r.push(("objectives_1", Field::Ids(&row.obs.objectives_1)));
    r.push(("valid_actions", Field::Ids(&row.valid_actions)));
    r.push(("edge_visits", Field::Visits(&row.edge_visits)));
    r.push(("reward", Field::Number(reward)));
    assert(record_view(r@) =~= spec_token_fields(row, height, width, num_ancillas, reward));
    r
}

/// The records of the states of a game with their scores, as far as both go.
pub fn game_records<'a, R: Scalar>(
    rows: &'a Vec<TokenRow>,
    height: usize,
    width: usize,
    num_ancillas: usize,
    scores: &Vec<R>,
) -> (r: Vec<Record<'a, R>>)
    ensures
        r@.len() == (if rows@.len() <= scores@.len() {
            rows@.len()
        } else {
            scores@.len()
        }),
        forall|i: int|
            0 <= i < r@.len() ==> record_view((#[trigger] r@[i])@) == spec_token_fields(
                &rows@[i],
                height,
                width,
                Some(num_ancillas),
                scores@[i],
            ),
{
    let mut out: Vec<Record<'a, R>> = Vec::new();
    let mut i: usize = 0;
    while i < rows.len() && i < scores.len()
        invariant
            i <= rows@.len(),
            i <= scores@.len(),
            out@.len() == i,
            forall|k: int|
                0 <= k < i ==> record_view((#[trigger] out@[k])@) == spec_token_fields(
                    &rows@[k],
                    height,
                    width,
                    Some(num_ancillas),
                    scores@[k],
                ),
        decreases rows@.len() - i,
    {
        out.push(token_record(&rows[i], height, width, Some(num_ancillas), scores[i].dup()));
        i += 1;
    }
    out
}

/// The record of a state with the reward of the whole game.
pub fn outcome_record<'a, R: Scalar>(row: &'a TokenRow, reward: R) -> (r: Record<'a, R>)
    ensures
        record_view(r@) == seq![
            ("tokens"@, FieldView::Ids(row.obs.placement@)),
            ("edge_visits"@, FieldView::Visits(row.edge_visits@)),
            ("reward"@, FieldView::Number(reward)),
        ],
{
    let mut r: Record<'a, R> = Vec::with_capacity(3);
    r.push(("tokens", Field::Ids(&row.obs.placement)));
    r.push(("edge_visits", Field::Visits(&row.edge_visits)));
    r.push(("reward", Field::Number(reward)));
    assert(record_view(r@) =~= seq![
        ("tokens"@, FieldView::Ids(row.obs.placement@)),
        ("edge_visits"@, FieldView::Visits(row.edge_visits@)),
        ("reward"@, FieldView::Number(reward)),
    ]);
    r
}

} // verus!
