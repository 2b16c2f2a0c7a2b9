//! A whole search: batches of playouts with one inference call each.

use crate::environment::{is_seen, Act, Environment};
use crate::flight::{
    grown, in_flight, lemma_grown_trans, lemma_step_back, lemma_step_expand, lemma_step_select,
    lemma_step_skip, load_at, losses_at, nodes_wf, path_in, visits_at, Path,
};
use crate::inference::{
    are_seen, can_ask, is_answer, is_failure, lemma_failure_widens, oracle_of, shortest, shows,
    InferenceClient, InferenceError, Oracle,
};
use crate::mcts::{copy_map, new_node, MCTS};
use crate::node::{lemma_total_bounds, terminal_node, Node, NodeId, NodeView};
use crate::scalar::Scalar;
use crate::search::{
    hits, fits_state, lemma_chosen_valid, lemma_new_node_sound, lemma_new_node_wf, linked,
    path_end, sound, with_losses,
};
use crate::trace::{
    are_answers, are_steps, are_waves, asked_by, asked_first, asks, asks_after, is_cut_short,
    is_expanded, is_rooted, is_searched, is_settled, is_step, is_wave, lemma_steps_push,
    lemma_waves_push, path_ends, selected, Rules, Step, Wave,
};
use crate::tree::{quiet, spec_normalize_prior, Tree, Tuning};
use std::collections::HashMap;
use vstd::prelude::*;

verus! {

/// A leaf that waits for its priors and value.
pub(crate) struct PendingInference<E: Environment> {
    pub(crate) path: Vec<(NodeId, E::Act)>,
    pub(crate) parent_id: NodeId,
    pub(crate) action: E::Act,
    pub(crate) env: E,
}

impl<E: Environment> PendingInference<E> {
    /// The leaf is the state that its path ends in.
    pub(crate) open spec fn wf(&self) -> bool {
        &&& self.path@.len() > 0
        &&& self.parent_id == self.path@.last().0
        &&& self.action == self.path@.last().1
        &&& self.env.spec_hash() == E::spec_next(self.parent_id, self.action)
    }
}

/// The paths of the leaves that wait, from the one at `from` on.
spec fn paths<E: Environment>(pending: Seq<PendingInference<E>>, from: int) -> Seq<Path<E::Act>> {
    Seq::new((pending.len() - from) as nat, |i: int| pending[from + i].path@)
}

/// The number of batches of a run.
pub open spec fn batches(num_steps: usize, batch_size: usize) -> nat {
    ((num_steps + batch_size - 1) / (if batch_size == 0 {
        1
    } else {
        batch_size as int
    })) as nat
}

/// The number of playouts of a run: the steps rounded up to whole batches.
pub open spec fn playouts(num_steps: usize, batch_size: usize) -> nat {
    batches(num_steps, batch_size) * batch_size as nat
}

/// A simple path goes through a node at most once.
proof fn lemma_hits_simple<A>(path: Seq<(NodeId, A)>, id: NodeId)
    requires
        forall|i: int, j: int|
            0 <= i < j < path.len() ==> (#[trigger] path[i]).0 != (#[trigger] path[j]).0,
    ensures
        hits(path, id) <= 1,
        hits(path, id) == 1 ==> exists|i: int| 0 <= i < path.len() && (#[trigger] path[i]).0 == id,
    decreases path.len(),
{
    if path.len() > 0 {
        let init = path.drop_last();
        assert forall|i: int, j: int| 0 <= i < j < init.len() implies (#[trigger] init[i]).0 != (
        #[trigger] init[j]).0 by {
            assert(path[i].0 != path[j].0);
        }
        lemma_hits_simple(init, id);
        if hits(init, id) == 1 {
            let i = choose|i: int| 0 <= i < init.len() && (#[trigger] init[i]).0 == id;
            assert(path[i].0 == id);
            assert(path[i].0 != path[path.len() - 1].0);
        } else if path.last().0 == id {
            assert(path[path.len() - 1].0 == id);
        }
    }
}

/// Whether an evaluator may give a value to the state of some environment.
pub open spec fn finishes<E: Environment, R: Scalar, F: Fn(&E) -> R>(
    terminal_evaluator: &F,
    id: NodeId,
    value: R,
) -> bool {
    exists|e: &E| #[trigger] call_ensures(terminal_evaluator, (e,), value) && e.spec_hash() == id
}

/// What a run is led by.
pub open spec fn rules_of<E: Environment, R: Scalar, F: Fn(&E) -> R>(
    oracle: Oracle<E::Act, R>,
    root: NodeId,
    tuning: Tuning<E::Act, R>,
    c_puct: R,
    forced: bool,
    terminal_evaluator: &F,
) -> Rules<E::Act, R> {
    Rules {
        root,
        tuning,
        c_puct,
        forced,
        finishes: |id: NodeId, value: R| finishes::<E, R, F>(terminal_evaluator, id, value),
        oracle,
    }
}

/// The loads during a run stay below the limit.
pub(crate) proof fn lemma_flight_loads<E: Environment, R: Scalar>(
    base: Tree<E::Act, R>,
    tree: Tree<E::Act, R>,
    root: NodeId,
    waiting: Seq<Path<E::Act>>,
    done: nat,
    started: nat,
    limit: int,
)
    requires
        in_flight::<E, R>(base, tree, root, waiting, done, started),
        forall|id: NodeId| #[trigger] base.contains_key(id) ==> base[id].load() + started < limit,
        started < limit,
    ensures
        forall|id: NodeId| #[trigger] tree.contains_key(id) ==> tree[id].load() < limit,
{
    assert forall|id: NodeId| #[trigger] tree.contains_key(id) implies tree[id].load() < limit by {
        if base.contains_key(id) {
        }
    }
}

impl<E: Environment, R: Scalar> MCTS<E, R> {
    /// Puts the result of a playout into the tree and backs it up.
    pub(crate) fn settle(
        &mut self,
        root_id: NodeId,
        leaf: &PendingInference<E>,
        repeat: bool,
        priors: HashMap<E::Act, R>,
        value: R,
        Ghost(base): Ghost<Tree<E::Act, R>>,
        Ghost(waiting): Ghost<Seq<Path<E::Act>>>,
        Ghost(done): Ghost<nat>,
        Ghost(started): Ghost<nat>,
        Ghost(j): Ghost<int>,
    )
        requires
            old(self).wf(),
            leaf.wf(),
            in_flight::<E, R>(base, old(self).tree(), root_id, waiting, done, started),
            0 <= j < waiting.len(),
            waiting[j] == leaf.path@,
            forall|id: NodeId| #[trigger]
                base.contains_key(id) ==> base[id].load() + started + 1 < usize::MAX,
            started + 1 < usize::MAX,
        ensures
            final(self).wf(),
            final(self).settings_of(old(self)),
            in_flight::<E, R>(
                base,
                final(self).tree(),
                root_id,
                waiting.remove(j),
                done + 1,
                started,
            ),
            is_settled::<E, R>(
                old(self).tree(),
                final(self).tree(),
                root_id,
                leaf.path@,
                repeat,
                priors@,
                value,
            ),
    {
        let env: E = leaf.env.clone();
        proof {
            E::clone_law(leaf.env, env);
        }
        let ghost t = self.tree();
        let ghost leaf_id = env.spec_hash();
        let ghost last = leaf.path@[leaf.path@.len() - 1];
        assert(path_in(t, root_id, waiting[j]));
        assert(t.contains_key(last.0) && t[last.0].valid_actions.contains(last.1));
        let ghost np = spec_normalize_prior(priors@, E::spec_actions(leaf_id));
        let ghost given = priors@;
        let ghost given_value = value;
        self.expand(leaf.parent_id, leaf.action, env, priors, value);
        let ghost middle = if t.contains_key(leaf_id) {
            t
        } else {
            t.insert(
                leaf_id,
                choose|v: NodeView<E::Act, R>| #[trigger]
                    new_node::<E, R>(v, leaf_id, np, value) && v.wf() && v.load() == 0
                        && self.tree() == linked(
                        t.insert(leaf_id, v),
                        leaf.parent_id,
                        leaf.action,
                        leaf_id,
                    ),
            )
        };
        proof {
            if !t.contains_key(leaf_id) {
                lemma_new_node_wf::<E, R>(middle[leaf_id], leaf_id, np, value);
                lemma_new_node_sound::<E, R>(middle[leaf_id], leaf_id, given, value);
                assert(middle =~= t.insert(leaf_id, middle[leaf_id]));
            }
            lemma_step_expand::<E, R>(
                base,
                t,
                root_id,
                waiting,
                done,
                started,
                middle,
                leaf.parent_id,
                leaf.action,
                leaf_id,
            );
            lemma_flight_loads::<E, R>(
                base,
                self.tree(),
                root_id,
                waiting,
                done,
                started,
                usize::MAX - 1,
            );
            assert(path_in(self.tree(), root_id, waiting[j]));
            assert forall|id: NodeId| #[trigger] self.tree().contains_key(id) implies self.tree()[id].load()
                + hits(leaf.path@, id) < usize::MAX by {
                lemma_hits_simple(leaf.path@, id);
            }
            lemma_step_back::<E, R>(
                base,
                self.tree(),
                root_id,
                waiting,
                done,
                started,
                j,
                repeat,
            );
        }
        let ghost expanded = self.tree();
        proof {
            assert(leaf_id == path_end::<E>(root_id, leaf.path@));
            assert(is_expanded::<E, R>(
                t,
                expanded,
                leaf.path@.last().0,
                leaf.path@.last().1,
                path_end::<E>(root_id, leaf.path@),
                given,
                given_value,
            ));
        }
        self.backpropagate(&leaf.path, repeat);
    }

    /// One playout. A leaf that needs an inference is handed back; a terminal or repeated one
    /// is backed up at once.
    fn playout<F: Fn(&E) -> R>(
        &mut self,
        root_id: NodeId,
        env: &E,
        c_puct: R,
        terminal_evaluator: &F,
        forced_playouts: bool,
        Ghost(oracle): Ghost<Oracle<E::Act, R>>,
        Ghost(base): Ghost<Tree<E::Act, R>>,
        Ghost(waiting): Ghost<Seq<Path<E::Act>>>,
        Ghost(done): Ghost<nat>,
        Ghost(started): Ghost<nat>,
    ) -> (r: (Option<PendingInference<E>>, Ghost<nat>, Ghost<Step<E::Act, R>>))
        requires
            old(self).wf(),
            env.spec_hash() == root_id,
            !E::spec_done(root_id),
            in_flight::<E, R>(base, old(self).tree(), root_id, waiting, done, started),
            forall|id: NodeId| #[trigger]
                base.contains_key(id) ==> base[id].load() + started + 2 < usize::MAX,
            started + 2 < usize::MAX,
            forall|e: &E| call_requires(terminal_evaluator, (e,)),
        ensures
            final(self).wf(),
            final(self).settings_of(old(self)),
            match r.0 {
                Some(leaf) => leaf.wf() && r.1@ == done && in_flight::<E, R>(
                    base,
                    final(self).tree(),
                    root_id,
                    waiting.push(leaf.path@),
                    done,
                    started + 1,
                ),
                None => in_flight::<E, R>(
                    base,
                    final(self).tree(),
                    root_id,
                    waiting,
                    r.1@,
                    started + 1,
                ),
            },
            is_step::<E, R>(
                rules_of::<E, R, F>(
                    oracle,
                    root_id,
                    old(self).tuning(),
                    c_puct,
                    forced_playouts,
                    terminal_evaluator,
                ),
                old(self).tree(),
                r.2@,
                final(self).tree(),
            ),
            match r.0 {
                Some(leaf) => r.2@ == Step::<E::Act, R>::Select(leaf.path@),
                None => !(r.2@ is Select),
            },
    {
        let ghost t = self.tree();
        let ghost tn = self.tuning();
        proof {
            lemma_flight_loads::<E, R>(
                base,
                t,
                root_id,
                waiting,
                done,
                started,
                usize::MAX - 2,
            );
            assert(base.contains_key(root_id) && t.contains_key(root_id));
            lemma_chosen_valid(t, tn, root_id, c_puct, true, forced_playouts);
        }
        let ghost cp = c_puct;
        let (path, parent, action, final_env, repeat) = self.select_leaf(
            root_id,
            env,
            c_puct,
            forced_playouts,
        );
        let (parent_id, action): (NodeId, E::Act) = match (parent, action) {
            (Some(p), Some(a)) => (p, a),
            _ => {
                proof {
                    assert(with_losses(t, path@) == t);
                    lemma_step_skip::<E, R>(base, t, root_id, waiting, done, started);
                }
                assert(path@ =~= Seq::empty());
                return (None, Ghost(done), Ghost(Step::Skip));
            },
        };
        let ghost w = waiting.push(path@);
        proof {
            assert(path_in(t, root_id, path@)) by {
                assert forall|i: int| 0 <= i < path@.len() implies t.contains_key(
                    (#[trigger] path@[i]).0,
                ) && t[path@[i].0].valid_actions.contains(path@[i].1) by {}
            }
            lemma_step_select::<E, R>(base, t, root_id, waiting, done, started, path@);
        }
        let leaf: PendingInference<E> = PendingInference {
            path,
            parent_id,
            action,
            env: final_env,
        };
        if repeat {
            proof {
                lemma_flight_loads::<E, R>(
                    base,
                    self.tree(),
                    root_id,
                    w,
                    done,
                    started + 1,
                    usize::MAX - 1,
                );
                assert(w[waiting.len() as int] == leaf.path@);
                assert(path_in(self.tree(), root_id, w[waiting.len() as int]));
                assert forall|id: NodeId| #[trigger] self.tree().contains_key(id) implies self.tree()[id].load()
                    + hits(leaf.path@, id) < usize::MAX by {
                    lemma_hits_simple(leaf.path@, id);
                }
                lemma_step_back::<E, R>(
                    base,
                    self.tree(),
                    root_id,
                    w,
                    done,
                    started + 1,
                    waiting.len() as int,
                    true,
                );
                assert(w.remove(waiting.len() as int) =~= waiting);
            }
            self.backpropagate(&leaf.path, true);
            return (None, Ghost(done + 1), Ghost(Step::Repeat(leaf.path@)));
        }
        if leaf.env.done() {
            let value: R = terminal_evaluator(&leaf.env);
            let ghost given = value;
            let none: HashMap<E::Act, R> = HashMap::new();
            assert(none@ =~= Map::<E::Act, R>::empty());
            assert(finishes::<E, R, F>(terminal_evaluator, leaf.env.spec_hash(), given));
            self.settle(
                root_id,
                &leaf,
                false,
                none,
                value,
                Ghost(base),
                Ghost(w),
                Ghost(done),
                Ghost(started + 1),
                Ghost(waiting.len() as int),
            );
            assert(w.remove(waiting.len() as int) =~= waiting);
            return (None, Ghost(done + 1), Ghost(Step::Finish(leaf.path@, given)));
        }
        let ghost step = Step::<E::Act, R>::Select(leaf.path@);
        (Some(leaf), Ghost(done), Ghost(step))
    }

    /// Begins a batch of playouts. Returns the leaves that need an inference, and what is seen of
    /// them.
    fn begin_batch<F: Fn(&E) -> R>(
        &mut self,
        env: &E,
        c_puct: &R,
        terminal_evaluator: &F,
        forced_playouts: bool,
        Ghost(oracle): Ghost<Oracle<E::Act, R>>,
        Ghost(base): Ghost<Tree<E::Act, R>>,
        Ghost(lost): Ghost<Seq<Path<E::Act>>>,
        Ghost(done): Ghost<nat>,
        Ghost(started): Ghost<nat>,
    ) -> (r: (Vec<PendingInference<E>>, Vec<E::Obs>, Ghost<nat>, Ghost<Seq<Step<E::Act, R>>>))
        requires
            old(self).wf(),
            !E::spec_done(env.spec_hash()),
            in_flight::<E, R>(base, old(self).tree(), env.spec_hash(), lost, done, started),
            forall|id: NodeId| #[trigger]
                base.contains_key(id) ==> base[id].load() + started + old(self).batch_size + 2
                    < usize::MAX,
            started + old(self).batch_size + 2 < usize::MAX,
            forall|e: &E| call_requires(terminal_evaluator, (e,)),
        ensures
            final(self).wf(),
            final(self).settings_of(old(self)),
            in_flight::<E, R>(
                base,
                final(self).tree(),
                env.spec_hash(),
                lost + paths(r.0@, 0),
                r.2@,
                started + old(self).batch_size as nat,
            ),
            are_steps::<E, R>(
                rules_of::<E, R, F>(
                    oracle,
                    env.spec_hash(),
                    old(self).tuning(),
                    *c_puct,
                    forced_playouts,
                    terminal_evaluator,
                ),
                old(self).tree(),
                r.3@,
                final(self).tree(),
            ),
            r.3@.len() == old(self).batch_size,
            selected(r.3@) == paths(r.0@, 0),
            are_seen::<E>(path_ends::<E>(env.spec_hash(), selected(r.3@)), r.1@),
            forall|p: int| 0 <= p < r.0@.len() ==> (#[trigger] r.0@[p]).wf(),
    {
        let root_hash: NodeId = self.get_hash(env);
        let batch_size: usize = self.batch_size;
        let ghost start = self.tree();
        let ghost tuning = self.tuning();
        let ghost rules = rules_of::<E, R, F>(
            oracle,
            root_hash,
            tuning,
            *c_puct,
            forced_playouts,
            terminal_evaluator,
        );
        let mut leaf_batch: Vec<E::Obs> = Vec::with_capacity(batch_size);
        let mut pending: Vec<PendingInference<E>> = Vec::with_capacity(batch_size);
        let ghost mut steps: Seq<Step<E::Act, R>> = Seq::empty();
        let ghost mut done = done;
        proof {
            assert(lost + paths(pending@, 0) =~= lost);
            assert(paths(pending@, 0) =~= selected(steps));
        }
        let mut i: usize = 0;
        while i < batch_size
            invariant
                i <= batch_size,
                batch_size == old(self).batch_size,
                start == old(self).tree(),
                tuning == old(self).tuning(),
                env.spec_hash() == root_hash,
                !E::spec_done(root_hash),
                started + batch_size + 2 < usize::MAX,
                forall|id: NodeId| #[trigger]
                    base.contains_key(id) ==> base[id].load() + started + batch_size + 2
                        < usize::MAX,
                self.wf(),
                self.settings_of(old(self)),
                in_flight::<E, R>(
                    base,
                    self.tree(),
                    root_hash,
                    lost + paths(pending@, 0),
                    done,
                    started + i as nat,
                ),
                rules == rules_of::<E, R, F>(
                    oracle,
                    root_hash,
                    tuning,
                    *c_puct,
                    forced_playouts,
                    terminal_evaluator,
                ),
                are_steps::<E, R>(rules, start, steps, self.tree()),
                steps.len() == i,
                selected(steps) == paths(pending@, 0),
                leaf_batch@.len() == pending@.len(),
                forall|p: int| 0 <= p < pending@.len() ==> (#[trigger] pending@[p]).wf(),
                forall|p: int|
                    0 <= p < pending@.len() ==> is_seen::<E>(
                        (#[trigger] pending@[p]).env.spec_hash(),
                        leaf_batch@[p],
                    ),
                forall|e: &E| call_requires(terminal_evaluator, (e,)),
            decreases batch_size - i,
        {
            let ghost before = pending@;
            let ghost tree = self.tree();
            let (leaf, Ghost(d), Ghost(step)) = self.playout(
                root_hash,
                env,
                c_puct.dup(),
                terminal_evaluator,
                forced_playouts,
                Ghost(oracle),
                Ghost(base),
                Ghost(lost + paths(pending@, 0)),
                Ghost(done),
                Ghost(started + i as nat),
            );
            proof {
                done = d;
                lemma_steps_push::<E, R>(rules, start, steps, tree, step, self.tree());
                steps = steps.push(step);
            }
            if let Some(p) = leaf {
                let obs: E::Obs = p.env.observation();
                assert(call_ensures(E::observation, (&p.env,), obs));
                assert(is_seen::<E>(p.env.spec_hash(), obs));
                leaf_batch.push(obs);
                pending.push(p);
                proof {
                    assert(paths(pending@, 0) =~= paths(before, 0).push(p.path@));
                    assert(lost + paths(pending@, 0) =~= (lost + paths(before, 0)).push(p.path@));
                }
            }
            i += 1;
        }
        proof {
            let ends = path_ends::<E>(root_hash, selected(steps));
            assert forall|p: int| 0 <= p < ends.len() implies is_seen::<E>(
                ends[p],
                #[trigger] leaf_batch@[p],
            ) by {
                assert(pending@[p].wf());
                assert(selected(steps)[p] == pending@[p].path@);
            }
        }
        (pending, leaf_batch, Ghost(done), Ghost(steps))
    }

    /// Takes the answers for the leaves of a batch, as far as there are some. Returns the paths
    /// that wait on and the answers that were taken.
    fn settle_batch(
        &mut self,
        root_hash: NodeId,
        pending: &Vec<PendingInference<E>>,
        prior_batch: &Vec<HashMap<E::Act, R>>,
        value_batch: &Vec<R>,
        Ghost(base): Ghost<Tree<E::Act, R>>,
        Ghost(lost): Ghost<Seq<Path<E::Act>>>,
        Ghost(done): Ghost<nat>,
        Ghost(started): Ghost<nat>,
    ) -> (r: (Ghost<Seq<Path<E::Act>>>, Ghost<Seq<(Map<E::Act, R>, R)>>))
        requires
            old(self).wf(),
            in_flight::<E, R>(
                base,
                old(self).tree(),
                root_hash,
                lost + paths(pending@, 0),
                done,
                started,
            ),
            forall|id: NodeId| #[trigger]
                base.contains_key(id) ==> base[id].load() + started + 2 < usize::MAX,
            started + 2 < usize::MAX,
            forall|p: int| 0 <= p < pending@.len() ==> (#[trigger] pending@[p]).wf(),
        ensures
            final(self).wf(),
            final(self).settings_of(old(self)),
            in_flight::<E, R>(
                base,
                final(self).tree(),
                root_hash,
                r.0@,
                done + r.1@.len(),
                started,
            ),
            r.1@.len() == shortest(pending@.len(), prior_batch@.len(), value_batch@.len()),
            r.1@.len() == pending@.len() ==> r.0@ == lost,
            forall|p: int|
                0 <= p < r.1@.len() ==> #[trigger] r.1@[p] == (prior_batch@[p]@, value_batch@[p]),
            are_answers::<E, R>(
                root_hash,
                old(self).tree(),
                paths(pending@, 0),
                r.1@,
                final(self).tree(),
            ),
    {
        let ghost start = self.tree();
        let ghost chosen = paths(pending@, 0);
        let ghost mut answers: Seq<(Map<E::Act, R>, R)> = Seq::empty();
        let mut n: usize = pending.len();
        if prior_batch.len() < n {
            n = prior_batch.len();
        }
        if value_batch.len() < n {
            n = value_batch.len();
        }
        let mut j: usize = 0;
        while j < n
            invariant
                j <= n,
                n <= pending@.len(),
                n <= prior_batch@.len(),
                n <= value_batch@.len(),
                started + 2 < usize::MAX,
                forall|id: NodeId| #[trigger]
                    base.contains_key(id) ==> base[id].load() + started + 2 < usize::MAX,
                self.wf(),
                self.settings_of(old(self)),
                in_flight::<E, R>(
                    base,
                    self.tree(),
                    root_hash,
                    lost + paths(pending@, j as int),
                    done + j as nat,
                    started,
                ),
                are_answers::<E, R>(root_hash, start, chosen, answers, self.tree()),
                answers.len() == j,
                forall|p: int|
                    0 <= p < j ==> #[trigger] answers[p] == (prior_batch@[p]@, value_batch@[p]),
                chosen == paths(pending@, 0),
                forall|p: int| 0 <= p < pending@.len() ==> (#[trigger] pending@[p]).wf(),
            decreases n - j,
        {
            let ghost w = lost + paths(pending@, j as int);
            assert(w[lost.len() as int] == pending@[j as int].path@);
            let ghost tree = self.tree();
            let ghost answer = (prior_batch@[j as int]@, value_batch@[j as int]);
            assert(chosen[j as int] == pending@[j as int].path@);
            self.settle(
                root_hash,
                &pending[j],
                false,
                copy_map(&prior_batch[j]),
                value_batch[j].dup(),
                Ghost(base),
                Ghost(w),
                Ghost(done + j as nat),
                Ghost(started),
                Ghost(lost.len() as int),
            );
            proof {
                let more = answers.push(answer);
                assert(more.drop_last() =~= answers);
                assert(is_settled::<E, R>(
                    tree,
                    self.tree(),
                    root_hash,
                    chosen[more.len() - 1],
                    false,
                    more.last().0,
                    more.last().1,
                ));
                answers = more;
                assert(w.remove(lost.len() as int) =~= lost + paths(pending@, (j + 1) as int));
            }
            j += 1;
        }
        assert(n == pending@.len() ==> lost + paths(pending@, n as int) =~= lost);
        (Ghost(lost + paths(pending@, n as int)), Ghost(answers))
    }

    /// Run MCTS for a given number of steps from the current environment state.
    ///
    /// The state itself is not changed; all playouts run on clones. The steps are rounded up to
    /// whole batches. With `forced_playouts` the root's edges are forced to a minimum of
    /// visits, for searches whose visits become a training target.
    ///
    /// The noise on the root priors serves this run alone: it is gone after it, however the run
    /// ends. The client is asked once for the root, where it has no node yet, and then once for
    /// each batch of `batch_size` playouts, for the states that they select; for a finished game it
    /// is not asked. A root whose state has actions gets one visit per playout, where the client
    /// answers every observation.
    ///
    /// Returns a copy of the root, or the error of the inference client.
    pub fn run<C: InferenceClient<E, R> + ?Sized, F: Fn(&E) -> R>(
        &mut self,
        env: &E,
        client: &C,
        num_steps: usize,
        c_puct: R,
        terminal_evaluator: &F,
        forced_playouts: bool,
    ) -> (r: Result<Node<E::Act, R>, InferenceError>)
        requires
            old(self).wf(),
            sound::<E, R>(old(self).tree()),
            1 <= num_steps + old(self).batch_size <= usize::MAX,
            playouts(num_steps, old(self).batch_size) + 2 < usize::MAX,
            forall|id: NodeId| #[trigger]
                old(self).tree().contains_key(id) ==> old(self).tree()[id].load() + playouts(
                    num_steps,
                    old(self).batch_size,
                ) + 2 < usize::MAX,
            forall|e: &E| call_requires(terminal_evaluator, (e,)),
            !E::spec_done(env.spec_hash()) ==> can_ask::<E, R, C>(
                client,
                asked_by::<E, R>(
                    rules_of::<E, R, F>(
                        oracle_of::<E, R, C>(client),
                        env.spec_hash(),
                        old(self).tuning(),
                        c_puct,
                        forced_playouts,
                        terminal_evaluator,
                    ),
                    old(self).tree(),
                    batches(num_steps, old(self).batch_size),
                    old(self).batch_size as nat,
                ),
            ),
        ensures
            final(self).wf(),
            sound::<E, R>(final(self).tree()),
            final(self).root_id == Some(env.spec_hash()),
            final(self).batch_size == old(self).batch_size,
            final(self).tuning() == quiet(old(self).tuning()),
            r matches Err(e) ==> is_failure::<E, R, C>(
                client,
                asked_by::<E, R>(
                    rules_of::<E, R, F>(
                        oracle_of::<E, R, C>(client),
                        env.spec_hash(),
                        old(self).tuning(),
                        c_puct,
                        forced_playouts,
                        terminal_evaluator,
                    ),
                    old(self).tree(),
                    batches(num_steps, old(self).batch_size),
                    old(self).batch_size as nat,
                ),
                asked_first::<E, R>(old(self).tree(), env.spec_hash()),
                e,
            ),
            r is Err ==> is_cut_short::<E, R>(
                rules_of::<E, R, F>(
                    oracle_of::<E, R, C>(client),
                    env.spec_hash(),
                    old(self).tuning(),
                    c_puct,
                    forced_playouts,
                    terminal_evaluator,
                ),
                old(self).tree(),
                final(self).tree(),
                batches(num_steps, old(self).batch_size),
                old(self).batch_size as nat,
            ),
            grown(old(self).tree(), final(self).tree()),
            forall|id: NodeId| #[trigger]
                final(self).tree().contains_key(id) ==> final(self).tree()[id].load() <= load_at(
                    old(self).tree(),
                    id,
                ) + playouts(num_steps, old(self).batch_size),
            E::spec_done(env.spec_hash()) ==> r is Ok,
            old(self).tree().contains_key(env.spec_hash()) && playouts(
                num_steps,
                old(self).batch_size,
            ) == 0 ==> r is Ok,
            r is Ok ==> {
                let root = env.spec_hash();
                let old_tree = old(self).tree();
                let tree = final(self).tree();
                &&& tree.contains_key(root)
                &&& r->Ok_0@ == tree[root]
                &&& E::spec_done(root) && old_tree.contains_key(root) ==> tree == old_tree
                &&& E::spec_done(root) && !old_tree.contains_key(root) ==> tree
                    == old_tree.insert(root, tree[root]) && terminal_node(
                    tree[root],
                    root,
                    tree[root].value,
                ) && call_ensures(terminal_evaluator, (env,), tree[root].value)
                &&& !E::spec_done(root) ==> {
                    let n = playouts(num_steps, old(self).batch_size);
                    &&& is_searched::<E, R>(
                        rules_of::<E, R, F>(
                            oracle_of::<E, R, C>(client),
                            root,
                            old(self).tuning(),
                            c_puct,
                            forced_playouts,
                            terminal_evaluator,
                        ),
                        old_tree,
                        tree,
                        batches(num_steps, old(self).batch_size),
                        old(self).batch_size as nat,
                    )
                    &&& visits_at(tree, root) <= visits_at(old_tree, root) + n
                    &&& client.answers_all() && tree[root].valid_actions.len() > 0 ==> visits_at(
                        tree,
                        root,
                    ) == visits_at(old_tree, root) + n
                    &&& client.answers_all() && E::spec_actions(root).len() > 0 ==> visits_at(
                        tree,
                        root,
                    ) == visits_at(old_tree, root) + n
                    &&& client.answers_all() ==> forall|id: NodeId, k: int|
                        #![trigger tree[id].virtual_losses[k]]
                        tree.contains_key(id) && 0 <= k < tree[id].num_actions
                            ==> tree[id].virtual_losses[k] == losses_at(old_tree, id, k)
                }
            },
    {
        let ghost t0 = self.tree();
        let ghost tuning0 = self.tuning();
        let root_hash: NodeId = self.get_hash(env);
        self.root_id = Some(root_hash);
        assert(self.tree() =~= t0);
        let ghost oracle = oracle_of::<E, R, C>(client);
        let ghost rules = rules_of::<E, R, F>(
            oracle,
            root_hash,
            tuning0,
            c_puct,
            forced_playouts,
            terminal_evaluator,
        );
        let ghost count = batches(num_steps, self.batch_size);
        let ghost size = self.batch_size as nat;
        let ghost asked = asked_by::<E, R>(rules, t0, count, size);
        proof {
            lemma_asks_root::<E, R>(rules, t0, count, size);
        }
        if let Err(e) = self.ensure_root(env, client, terminal_evaluator) {
            proof {
                let alone = shows::<E>(seq![root_hash]);
                let first = asked_first::<E, R>(t0, root_hash);
                lemma_failure_widens::<E, R, C>(client, alone, alone, asked, first, e);
                reveal(is_cut_short);
            }
            self.clear_noise();
            return Err(e);
        }
        let ghost base = self.tree();
        proof {
            lemma_root_added::<E, R>(t0, base, root_hash);
        }
        if env.done() {
            self.clear_noise();
            return Ok(self.copy_of(root_hash));
        }
        let batch_size: usize = self.batch_size;
        let divisor: usize = if batch_size == 0 {
            1
        } else {
            batch_size
        };
        let num_batches: usize = (num_steps + batch_size - 1) / divisor;
        let ghost all = playouts(num_steps, batch_size);
        assert(num_batches == batches(num_steps, batch_size));
        let ghost mut lost: Seq<Path<E::Act>> = Seq::empty();
        let ghost mut done: nat = 0;
        let ghost mut waves: Seq<Wave<E::Act, R>> = Seq::empty();
        let mut b: usize = 0;
        assert(0 * batch_size == 0);
        while b < num_batches
            invariant
                b <= num_batches,
                env.spec_hash() == root_hash,
                !E::spec_done(root_hash),
                batch_size == old(self).batch_size,
                all == num_batches * batch_size,
                all + 2 < usize::MAX,
                forall|id: NodeId| #[trigger]
                    base.contains_key(id) ==> base[id].load() + all + 2 < usize::MAX,
                grown(t0, base),
                forall|id: NodeId| #[trigger] load_at(base, id) == load_at(t0, id),
                t0 == old(self).tree(),
                tuning0 == old(self).tuning(),
                self.wf(),
                self.tuning() == tuning0,
                self.root_id == Some(root_hash),
                self.batch_size == batch_size,
                in_flight::<E, R>(
                    base,
                    self.tree(),
                    root_hash,
                    lost,
                    done,
                    (b * batch_size) as nat,
                ),
                rules == rules_of::<E, R, F>(
                    oracle,
                    root_hash,
                    tuning0,
                    c_puct,
                    forced_playouts,
                    terminal_evaluator,
                ),
                are_waves::<E, R>(rules, base, waves, size, self.tree()),
                waves.len() == b,
                is_rooted::<E, R>(oracle, t0, base, root_hash),
                size == batch_size,
                count == num_batches,
                asked == asked_by::<E, R>(rules, t0, count, size),
                can_ask::<E, R, C>(client, asked),
                oracle == oracle_of::<E, R, C>(client),
                client.answers_all() ==> lost.len() == 0,
                forall|e: &E| call_requires(terminal_evaluator, (e,)),
                b > 0 && batch_size > 0 ==> all > 0,
                num_batches == batches(num_steps, batch_size),
            decreases num_batches - b,
        {
            let ghost start = self.tree();
            let ghost begun = ((b + 1) * batch_size) as nat;
            proof {
                assert((b + 1) * batch_size <= num_batches * batch_size) by (nonlinear_arith)
                    requires
                        b + 1 <= num_batches,
                ;
                assert((b + 1) * batch_size == b * batch_size + batch_size) by (nonlinear_arith);
            }
            let (pending, leaf_batch, Ghost(d), Ghost(steps)) = self.begin_batch(
                env,
                &c_puct,
                terminal_evaluator,
                forced_playouts,
                Ghost(oracle),
                Ghost(base),
                Ghost(lost),
                Ghost(done),
                Ghost((b * batch_size) as nat),
            );
            let ghost begun_tree = self.tree();
            let ghost chosen = selected(steps);
            let ghost mut answers: Seq<(Map<E::Act, R>, R)> = Seq::empty();
            if leaf_batch.len() > 0 {
                let batch: &[E::Obs] = leaf_batch.as_slice();
                proof {
                    reveal(asks);
                    assert(asks_after::<E, R>(
                        rules,
                        t0,
                        size,
                        base,
                        waves,
                        start,
                        steps,
                        begun_tree,
                        batch@,
                    ));
                    assert(asked(batch@));
                    assert(client.admits(batch@));
                }
                let (prior_batch, value_batch) = match self.blocking_infer(batch, client) {
                    Ok(reply) => reply,
                    Err(e) => {
                        proof {
                            reveal(is_cut_short);
                            lemma_grown_trans(t0, base, self.tree());
                            assert forall|id: NodeId| #[trigger]
                                self.tree().contains_key(id) implies self.tree()[id].load()
                                <= load_at(t0, id) + all by {
                                assert(load_at(base, id) == load_at(t0, id));
                            }
                        }
                        self.clear_noise();
                        return Err(e);
                    },
                };
                let (Ghost(w), Ghost(all_answers)) = self.settle_batch(
                    root_hash,
                    &pending,
                    &prior_batch,
                    &value_batch,
                    Ghost(base),
                    Ghost(lost),
                    Ghost(d),
                    Ghost(begun),
                );
                proof {
                    lost = w;
                    answers = all_answers;
                    assert(is_answer::<E, R, C>(
                        client,
                        batch,
                        prior_batch,
                        value_batch,
                        path_ends::<E>(root_hash, chosen),
                        answers,
                    ));
                }
            } else {
                assert(lost + paths(pending@, 0) =~= lost);
            }
            proof {
                done = d + answers.len();
                let wave = Wave::<E::Act, R> { steps, answers };
                assert(are_steps::<E, R>(rules, start, wave.steps, begun_tree));
                assert(is_wave::<E, R>(rules, start, wave, self.tree()));
                lemma_waves_push::<E, R>(rules, base, waves, size, start, wave, self.tree());
                waves = waves.push(wave);
            }
            b += 1;
        }
        let ghost last = self.tree();
        self.clear_noise();
        proof {
            assert(is_rooted::<E, R>(oracle, t0, base, root_hash));
            reveal(is_searched);
            lemma_grown_trans(t0, base, last);
            assert(base.contains_key(root_hash) && last.contains_key(root_hash));
        }
        Ok(self.copy_of(root_hash))
    }

    /// Takes the noise off the root priors.
    fn clear_noise(&mut self)
        ensures
            final(self).tree() == old(self).tree(),
            old(self).wf() ==> final(self).wf(),
            final(self).root_id == old(self).root_id,
            final(self).batch_size == old(self).batch_size,
            final(self).tuning() == quiet(old(self).tuning()),
    {
        self.root_noise = None;
        self.root_noise_epsilon = R::decimal(0, 0);
        assert(self.tree() =~= old(self).tree());
    }

    /// A copy of a node.
    pub(crate) fn copy_of(&self, id: NodeId) -> (r: Node<E::Act, R>)
        requires
            self.tree().contains_key(id),
        ensures
            r@ == self.tree()[id],
    {
        self.get_node_immut(id).unwrap().clone()
    }

    /// Makes the root node, where it does not exist: for a finished game with the value of the
    /// evaluator, else with the priors and the value of the network.
    fn ensure_root<C: InferenceClient<E, R> + ?Sized, F: Fn(&E) -> R>(
        &mut self,
        env: &E,
        client: &C,
        terminal_evaluator: &F,
    ) -> (r: Result<(), InferenceError>)
        requires
            old(self).wf(),
            forall|e: &E| call_requires(terminal_evaluator, (e,)),
            !E::spec_done(env.spec_hash()) && !old(self).tree().contains_key(env.spec_hash())
                ==> can_ask::<E, R, C>(client, shows::<E>(seq![env.spec_hash()])),
        ensures
            final(self).wf(),
            final(self).settings_of(old(self)),
            E::spec_done(env.spec_hash()) || old(self).tree().contains_key(env.spec_hash())
                ==> r is Ok,
            r is Err ==> final(self).tree() == old(self).tree(),
            r is Err ==> !old(self).tree().contains_key(env.spec_hash()),
            r matches Err(e) ==> is_failure::<E, R, C>(
                client,
                shows::<E>(seq![env.spec_hash()]),
                shows::<E>(seq![env.spec_hash()]),
                e,
            ),
            r is Ok ==> {
                let root = env.spec_hash();
                let tree = final(self).tree();
                &&& !E::spec_done(root) ==> is_rooted::<E, R>(
                    oracle_of::<E, R, C>(client),
                    old(self).tree(),
                    tree,
                    root,
                )
                &&& old(self).tree().contains_key(root) ==> tree == old(self).tree()
                &&& !old(self).tree().contains_key(root) ==> {
                    &&& tree == old(self).tree().insert(root, tree[root])
                    &&& tree[root].wf()
                    &&& tree[root].id == root
                    &&& tree[root].load() == 0
                    &&& tree[root].tidy()
                    &&& fits_state::<E, R>(root, tree[root])
                    &&& forall|i: int|
                        0 <= i < tree[root].valid_actions.len() ==> tree[root].child(
                            #[trigger] tree[root].valid_actions[i],
                        ) is None
                    &&& E::spec_done(root) ==> terminal_node(
                        tree[root],
                        root,
                        tree[root].value,
                    ) && call_ensures(
                        terminal_evaluator,
                        (env,),
                        tree[root].value,
                    )
                }
            },
    {
        let root: NodeId = self.get_hash(env);
        if self.node_exists(root) {
            return Ok(());
        }
        let (priors, value): (HashMap<E::Act, R>, R) = if env.done() {
            (HashMap::new(), terminal_evaluator(env))
        } else {
            match self.infer_root(env, client) {
                Err(e) => {
                    return Err(e);
                },
                Ok(reply) => reply,
            }
        };
        self.add_root(env, priors, value);
        Ok(())
    }

    /// The prior and the value that the network has for a state.
    pub(crate) fn infer_root<C: InferenceClient<E, R> + ?Sized>(
        &mut self,
        env: &E,
        client: &C,
    ) -> (r: Result<(HashMap<E::Act, R>, R), InferenceError>)
        requires
            can_ask::<E, R, C>(client, shows::<E>(seq![env.spec_hash()])),
        ensures
            *final(self) == *old(self),
            r matches Ok((prior, value)) ==> (oracle_of::<E, R, C>(client).answers)(
                seq![env.spec_hash()],
                seq![(prior@, value)],
            ),
            r matches Err(e) ==> is_failure::<E, R, C>(
                client,
                shows::<E>(seq![env.spec_hash()]),
                shows::<E>(seq![env.spec_hash()]),
                e,
            ),
    {
        let obs: Vec<E::Obs> = vec![env.observation()];
        assert(call_ensures(E::observation, (env,), obs@[0]));
        assert(is_seen::<E>(env.spec_hash(), obs@[0]));
        let batch: &[E::Obs] = obs.as_slice();
        let ghost root = seq![env.spec_hash()];
        assert(are_seen::<E>(root, batch@));
        assert(shows::<E>(root)(batch@));
        assert(client.admits(batch@));
        match self.blocking_infer(batch, client) {
            Err(e) => Err(e),
            Ok((mut p, mut v)) => {
                if p.len() == 0 || v.len() == 0 {
                    return Err(InferenceError::Empty);
                }
                assert(is_answer::<E, R, C>(
                    client,
                    batch,
                    p,
                    v,
                    root,
                    seq![(p@[0]@, v@[0])],
                ));
                Ok((p.swap_remove(0), v.swap_remove(0)))
            },
        }
    }

    /// Makes the node of a state that has none, with a prior and a value.
    pub(crate) fn add_root(&mut self, env: &E, priors: HashMap<E::Act, R>, value: R)
        requires
            old(self).wf(),
            !old(self).tree().contains_key(env.spec_hash()),
        ensures
            final(self).wf(),
            final(self).settings_of(old(self)),
            ({
                let root = env.spec_hash();
                let tree = final(self).tree();
                &&& new_node::<E, R>(
                    tree[root],
                    root,
                    spec_normalize_prior(priors@, E::spec_actions(root)),
                    value,
                )
                &&& tree == old(self).tree().insert(root, tree[root])
                &&& tree[root].wf()
                &&& tree[root].id == root
                &&& tree[root].load() == 0
                &&& tree[root].tidy()
                &&& fits_state::<E, R>(root, tree[root])
                &&& forall|i: int|
                    0 <= i < tree[root].valid_actions.len() ==> tree[root].child(
                        #[trigger] tree[root].valid_actions[i],
                    ) is None
                &&& E::spec_done(root) ==> tree[root].terminal_state && tree[root].value == value
            }),
    {
        let ghost root = env.spec_hash();
        let ghost before = *self;
        let ghost actions = E::spec_actions(root);
        let ghost raw = priors@;
        let ghost given = value;
        let priors: HashMap<E::Act, R> = self.normalize_prior(priors, &env.valid_actions());
        let ghost np = priors@;
        proof {
            E::slots_law(root);
        }
        assert forall|a: E::Act| #[trigger] np.contains_key(a) implies actions.contains(a)
            && a.spec_index() < E::spec_num_actions(root) by {
            let i = actions.index_of(a);
            assert(actions[i] == a);
        }
        self.create_node(env, priors, value);
        proof {
            let leaf = self.nodes@.last()@;
            lemma_new_node_wf::<E, R>(leaf, root, np, given);
            lemma_new_node_sound::<E, R>(leaf, root, raw, given);
            assert(self.tree()[root] == leaf);
            assert(new_node::<E, R>(
                self.tree()[root],
                root,
                spec_normalize_prior(raw, actions),
                given,
            ));
            assert forall|i: int| 0 <= i < self.nodes@.len() implies (#[trigger] self.nodes@[i])@.wf() by {
                if i < before.nodes@.len() {
                    assert(self.nodes@.drop_last()[i] == before.nodes@[i]);
                    assert(before.nodes@[i]@.wf());
                }
            }
        }
    }
}

/// A search asks for the root alone where it has no node yet.
proof fn lemma_asks_root<E: Environment, R: Scalar>(
    rules: Rules<E::Act, R>,
    before: Tree<E::Act, R>,
    count: nat,
    batch: nat,
)
    ensures
        !before.contains_key(rules.root) ==> forall|obs: Seq<E::Obs>| #[trigger]
            shows::<E>(seq![rules.root])(obs) ==> asked_by::<E, R>(rules, before, count, batch)(
                obs,
            ),
{
    reveal(asks);
}

/// A root that was added starts a run with nothing in flight.
pub(crate) proof fn lemma_root_added<E: Environment, R: Scalar>(
    old_tree: Tree<E::Act, R>,
    tree: Tree<E::Act, R>,
    root: NodeId,
)
    requires
        nodes_wf(old_tree),
        sound::<E, R>(old_tree),
        old_tree.contains_key(root) ==> tree == old_tree,
        !old_tree.contains_key(root) ==> {
            &&& tree == old_tree.insert(root, tree[root])
            &&& tree[root].wf()
            &&& tree[root].id == root
            &&& tree[root].load() == 0
            &&& tree[root].tidy()
            &&& fits_state::<E, R>(root, tree[root])
            &&& forall|i: int|
                0 <= i < tree[root].valid_actions.len() ==> tree[root].child(
                    #[trigger] tree[root].valid_actions[i],
                ) is None
        },
    ensures
        grown(old_tree, tree),
        sound::<E, R>(tree),
        in_flight::<E, R>(tree, tree, root, Seq::empty(), 0, 0),
        visits_at(tree, root) == visits_at(old_tree, root),
        forall|id: NodeId| #[trigger] load_at(tree, id) == load_at(old_tree, id),
        forall|id: NodeId, k: int|
            #![trigger losses_at(tree, id, k)]
            tree.contains_key(id) && 0 <= k < tree[id].num_actions ==> losses_at(tree, id, k)
                == losses_at(old_tree, id, k),
{
    assert forall|id: NodeId, i: int|
        #![trigger tree[id].valid_actions[i]]
        tree.contains_key(id) && 0 <= i < tree[id].valid_actions.len() implies (match tree[id].child(
        tree[id].valid_actions[i],
    ) {
        Some(c) => c == E::spec_next(id, tree[id].valid_actions[i]),
        None => true,
    }) by {
        if old_tree.contains_key(id) {
            assert(old_tree[id].valid_actions[i] == tree[id].valid_actions[i]);
        }
    }
    assert forall|id: NodeId, k: int|
        #![trigger losses_at(tree, id, k)]
        tree.contains_key(id) && 0 <= k < tree[id].num_actions implies losses_at(tree, id, k)
        == losses_at(old_tree, id, k) by {
        if !old_tree.contains_key(id) {
            lemma_total_bounds(tree[id].virtual_losses, k);
        }
    }
}

} // verus!
