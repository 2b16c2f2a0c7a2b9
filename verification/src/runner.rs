//! The rules of a search on many threads: search workers send leaves, an inference worker
//! collects them in batches, and a coordinator puts the results into the tree.

use crate::environment::{Act, Environment};
use crate::inference::shortest;
use crate::mcts::MCTS;
use crate::node::NodeId;
use crate::scalar::Scalar;
use crate::search::{backpropagated, hits};
use crate::trace::is_expanded;
use crate::tree::Tree;
use std::collections::HashMap;
use vstd::prelude::*;

verus! {

/// What a worker gets from its channel.
pub enum Incoming<M> {
    /// An item.
    Item(M),
    /// Nothing came for a while.
    Timeout,
    /// Nothing can come any more.
    Disconnected,
}

/// What an inference worker does next.
pub struct WorkerStep<M> {
    /// Leaves to infer now, in the order they came; may be none.
    pub batch: Vec<M>,
    /// Whether the worker is done.
    pub exit: bool,
}

/// What an event makes of the leaves that wait: those to infer now, those that wait on, and
/// whether the worker is done.
pub open spec fn after_event<M>(
    pending: Seq<M>,
    batch_size: usize,
    event: Incoming<M>,
    stop: bool,
) -> (Seq<M>, Seq<M>, bool) {
    match event {
        Incoming::Item(m) => if pending.len() + 1 >= batch_size {
            (pending.push(m), Seq::empty(), false)
        } else {
            (Seq::empty(), pending.push(m), false)
        },
        Incoming::Timeout => (pending, Seq::empty(), stop),
        Incoming::Disconnected => (pending, Seq::empty(), true),
    }
}

/// The leaves that came with some events.
pub open spec fn received<M>(events: Seq<Incoming<M>>) -> Seq<M>
    decreases events.len(),
{
    if events.len() == 0 {
        Seq::empty()
    } else {
        match events.last() {
            Incoming::Item(m) => received(events.drop_last()).push(m),
            _ => received(events.drop_last()),
        }
    }
}

/// What was inferred and what waits after some events, from nothing.
pub open spec fn worked<M>(events: Seq<Incoming<M>>, batch_size: usize) -> (Seq<M>, Seq<M>)
    decreases events.len(),
{
    if events.len() == 0 {
        (Seq::empty(), Seq::empty())
    } else {
        let (inferred, pending) = worked(events.drop_last(), batch_size);
        let (batch, rest, _) = after_event(pending, batch_size, events.last(), false);
        (inferred + batch, rest)
    }
}

/// Law: the inference worker loses no leaf and keeps their order: what was inferred and what
/// still waits is, in order, what came.
pub proof fn law_no_leaf_lost<M>(events: Seq<Incoming<M>>, batch_size: usize)
    ensures
        worked(events, batch_size).0 + worked(events, batch_size).1 == received(events),
        batch_size > 0 ==> worked(events, batch_size).1.len() < batch_size,
        batch_size == 0 ==> worked(events, batch_size).1.len() == 0,
    decreases events.len(),
{
    if events.len() > 0 {
        law_no_leaf_lost(events.drop_last(), batch_size);
        let (inferred, pending) = worked(events.drop_last(), batch_size);
        let (batch, rest, _) = after_event(pending, batch_size, events.last(), false);
        match events.last() {
            Incoming::Item(m) => {
                assert((inferred + batch) + rest =~= (inferred + pending).push(m));
            },
            _ => {
                assert((inferred + batch) + rest =~= inferred + pending);
            },
        }
    } else {
        assert(worked(events, batch_size).0 + worked(events, batch_size).1 =~= received(events));
    }
}

/// The leaves that wait for an inference.
pub struct LeafBatch<M> {
    pub batch_size: usize,
    pub pending: Vec<M>,
}

impl<M> LeafBatch<M> {
    /// No leaf waits.
    pub fn new(batch_size: usize) -> (r: Self)
        ensures
            r.batch_size == batch_size,
            r.pending@ == Seq::<M>::empty(),
    {
        LeafBatch { batch_size, pending: Vec::new() }
    }

    /// Whether the worker waits for the next event: until it is told to stop, and then while
    /// leaves wait.
    pub fn goes_on(&self, stop: bool) -> (r: bool)
        ensures
            r == (!stop || self.pending@.len() > 0),
    {
        !stop || self.pending.len() > 0
    }

    /// Takes an event. A full batch is inferred at once, a partial one when nothing comes for a
    /// while or nothing can come any more.
    pub fn accept(&mut self, event: Incoming<M>, stop: bool) -> (r: WorkerStep<M>)
        requires
            old(self).pending@.len() < usize::MAX,
        ensures
            ({
                let (batch, rest, exit) = after_event(
                    old(self).pending@,
                    old(self).batch_size,
                    event,
                    stop,
                );
                &&& r.batch@ == batch
                &&& final(self).pending@ == rest
                &&& r.exit == exit
            }),
            final(self).batch_size == old(self).batch_size,
    {
        match event {
            Incoming::Item(m) => {
                self.pending.push(m);
                if self.pending.len() >= self.batch_size {
                    WorkerStep { batch: self.take(), exit: false }
                } else {
                    let none: Vec<M> = Vec::new();
                    assert(none@ =~= Seq::<M>::empty());
                    WorkerStep { batch: none, exit: false }
                }
            },
            Incoming::Timeout => WorkerStep { batch: self.take(), exit: stop },
            Incoming::Disconnected => WorkerStep { batch: self.take(), exit: true },
        }
    }

    /// Takes all leaves that wait.
    fn take(&mut self) -> (r: Vec<M>)
        ensures
            r@ == old(self).pending@,
            final(self).pending@ == Seq::<M>::empty(),
            final(self).batch_size == old(self).batch_size,
    {
        let mut out: Vec<M> = Vec::new();
        std::mem::swap(&mut out, &mut self.pending);
        assert(self.pending@ =~= Seq::<M>::empty());
        out
    }
}

/// A leaf with its prior and value.
pub struct InferenceResult<M, A, R> {
    pub meta: M,
    pub priors: HashMap<A, R>,
    pub value: R,
}

/// Whether some results are the leaves with their priors and values, in order.
pub open spec fn are_paired<M, A, R>(
    results: Seq<InferenceResult<M, A, R>>,
    metas: Seq<M>,
    priors: Seq<HashMap<A, R>>,
    values: Seq<R>,
) -> bool {
    forall|i: int|
        0 <= i < results.len() ==> (#[trigger] results[i]).meta == metas[i] && results[i].priors
            == priors[i] && results[i].value == values[i]
}

/// Pairs leaves with their priors and values, as far as all three go.
pub fn pair_results<M, A, R>(
    metas: Vec<M>,
    priors: Vec<HashMap<A, R>>,
    values: Vec<R>,
) -> (r: Vec<InferenceResult<M, A, R>>)
    ensures
        r@.len() == shortest(metas@.len(), priors@.len(), values@.len()),
        are_paired(r@, metas@, priors@, values@),
{
    let ghost (ms, ps, vs) = (metas@, priors@, values@);
    let mut metas: Vec<M> = metas;
    let mut priors: Vec<HashMap<A, R>> = priors;
    let mut values: Vec<R> = values;
    let mut n: usize = metas.len();
    if priors.len() < n {
        n = priors.len();
    }
    if values.len() < n {
        n = values.len();
    }
    metas.truncate(n);
    priors.truncate(n);
    values.truncate(n);
    let mut back: Vec<InferenceResult<M, A, R>> = Vec::with_capacity(n);
    let mut i: usize = n;
    while i > 0
        invariant
            i <= n,
            metas@ == ms.take(i as int),
            priors@ == ps.take(i as int),
            values@ == vs.take(i as int),
            n <= ms.len(),
            n <= ps.len(),
            n <= vs.len(),
            back@.len() == n - i,
            forall|k: int|
                0 <= k < n - i ==> (#[trigger] back@[k]).meta == ms[n - 1 - k] && back@[k].priors
                    == ps[n - 1 - k] && back@[k].value == vs[n - 1 - k],
        decreases i,
    {
        let meta: M = metas.pop().unwrap();
        let prior: HashMap<A, R> = priors.pop().unwrap();
        let value: R = values.pop().unwrap();
        back.push(InferenceResult { meta, priors: prior, value });
        i -= 1;
        assert(ms.take(i + 1).drop_last() =~= ms.take(i as int));
        assert(ps.take(i + 1).drop_last() =~= ps.take(i as int));
        assert(vs.take(i + 1).drop_last() =~= vs.take(i as int));
    }
    let ghost all = back@;
    let mut out: Vec<InferenceResult<M, A, R>> = Vec::with_capacity(n);
    let mut j: usize = 0;
    while j < n
        invariant
            j <= n,
            all.len() == n,
            back@ == all.take(n - j),
            out@.len() == j,
            forall|k: int| 0 <= k < j ==> #[trigger] out@[k] == all[n - 1 - k],
        decreases n - j,
    {
        out.push(back.pop().unwrap());
        j += 1;
        assert(all.take(n - j + 1).drop_last() =~= all.take(n - j));
    }
    assert forall|k: int| 0 <= k < out@.len() implies (#[trigger] out@[k]).meta == ms[k]
        && out@[k].priors == ps[k] && out@[k].value == vs[k] by {
        assert(out@[k] == all[n - 1 - k]);
    }
    out
}

/// What the coordinator does with an event.
#[derive(Clone, Copy, Debug, PartialEq, Eq, Structural)]
pub enum CoordinatorStep {
    /// Put the result into the tree, and count a step.
    Apply,
    /// Wait on.
    Wait,
    /// Leave.
    Exit,
    /// Leave, and tell everyone to stop.
    Shutdown,
}

/// What the coordinator does with an event.
pub fn coordinate<M>(event: &Incoming<M>, stop: bool) -> (r: CoordinatorStep)
    ensures
        r == (match *event {
            Incoming::Item(_) => CoordinatorStep::Apply,
            Incoming::Timeout => if stop {
                CoordinatorStep::Exit
            } else {
                CoordinatorStep::Wait
            },
            Incoming::Disconnected => CoordinatorStep::Shutdown,
        }),
{
    match event {
        Incoming::Item(_) => CoordinatorStep::Apply,
        Incoming::Timeout => if stop {
            CoordinatorStep::Exit
        } else {
            CoordinatorStep::Wait
        },
        Incoming::Disconnected => CoordinatorStep::Shutdown,
    }
}

/// The settings of a search on many threads.
#[derive(Clone, Copy, Debug, PartialEq, Eq, Structural)]
pub struct MCTSRunner {
    pub num_search_threads: usize,
    pub inference_batch_size: usize,
    pub max_queue_size: usize,
}

impl MCTSRunner {
    /// The settings of a search on many threads.
    pub fn new(
        num_search_threads: usize,
        inference_batch_size: usize,
        max_queue_size: usize,
    ) -> (r: Self)
        ensures
            r == (MCTSRunner { num_search_threads, inference_batch_size, max_queue_size }),
    {
        MCTSRunner { num_search_threads, inference_batch_size, max_queue_size }
    }

    /// Whether the search still runs: until enough steps were made, or it was stopped.
    pub fn keeps_running(&self, steps_done: usize, num_steps: usize, stop: bool) -> (r: bool)
        ensures
            r == (steps_done < num_steps && !stop),
    {
        steps_done < num_steps && !stop
    }
}

/// A leaf that a search worker found.
pub struct LeafMeta<E: Environment> {
    pub parent: NodeId,
    pub action: E::Act,
    pub env: E,
    pub path: Vec<(NodeId, E::Act)>,
    pub repeat: bool,
    pub obs: E::Obs,
}

/// The leaf of a playout, by what selecting it gave; `None` for a playout that took no action.
pub fn leaf_meta<E: Environment>(
    path: Vec<(NodeId, E::Act)>,
    parent: Option<NodeId>,
    action: Option<E::Act>,
    env: E,
    repeat: bool,
) -> (r: Option<LeafMeta<E>>)
    ensures
        r is Some <==> parent is Some && action is Some,
        r is Some ==> r->0.parent == parent->0 && r->0.action == action->0 && r->0.env == env
            && r->0.path == path && r->0.repeat == repeat && call_ensures(
            E::observation,
            (&env,),
            r->0.obs,
        ),
{
    match (parent, action) {
        (Some(p), Some(a)) => {
            let obs: E::Obs = env.observation();
            Some(LeafMeta { parent: p, action: a, env, path, repeat, obs })
        },
        _ => None,
    }
}

impl<E: Environment, R: Scalar> MCTS<E, R> {
    /// Puts an inferred leaf into the tree and backs it up.
    pub fn apply_result(&mut self, leaf: LeafMeta<E>, priors: HashMap<E::Act, R>, value: R)
        requires
            old(self).wf(),
            leaf.path@.len() < usize::MAX,
            forall|id: NodeId| #[trigger]
                old(self).tree().contains_key(id) ==> old(self).tree()[id].load()
                    + leaf.path@.len() < usize::MAX,
        ensures
            final(self).wf(),
            final(self).settings_of(old(self)),
            exists|expanded: Tree<E::Act, R>| #[trigger]
                is_expanded::<E, R>(
                    old(self).tree(),
                    expanded,
                    leaf.parent,
                    leaf.action,
                    leaf.env.spec_hash(),
                    priors@,
                    value,
                ) && final(self).tree() == backpropagated(expanded, leaf.path@, leaf.repeat),
    {
        let ghost before = self.tree();
        let ghost id = leaf.env.spec_hash();
        let LeafMeta { parent, action, env, path, repeat, obs: _ } = leaf;
        self.expand(parent, action, env, priors, value);
        let ghost expanded = self.tree();
        proof {
            assert(is_expanded::<E, R>(before, expanded, parent, action, id, priors@, value));
            assert forall|k: NodeId| #[trigger] expanded.contains_key(k) implies expanded[k].load()
                + hits(path@, k) < usize::MAX by {
                lemma_hits_bound(path@, k);
                if before.contains_key(k) {
                    assert(expanded[k].load() == before[k].load());
                } else {
                    assert(k == id);
                    assert(expanded[k].load() == 0);
                }
            }
        }
        self.backpropagate(&path, repeat);
    }
}

/// A path goes through a node at most once per step.
proof fn lemma_hits_bound<A>(path: Seq<(NodeId, A)>, id: NodeId)
    ensures
        hits(path, id) <= path.len(),
    decreases path.len(),
{
    if path.len() > 0 {
        lemma_hits_bound(path.drop_last(), id);
    }
}

} // verus!
