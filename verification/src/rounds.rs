//! A search in rounds: every leaf of a round is shown to the network, terminal or not, and then
//! the answers are backed up in their order.

use crate::environment::{is_seen, Environment};
use crate::flight::{
    grown, in_flight, lemma_grown_trans, lemma_step_select, lemma_step_skip, load_at,
    losses_at, path_in, visits_at, Path,
};
use crate::inference::{
    are_seen, can_ask, is_answer, is_failure, lemma_failure_widens, oracle_of, shortest, shows,
    InferenceClient, InferenceError, Oracle,
};
use crate::mcts::{copy_map, MCTS};
use crate::node::{Node, NodeId};
use crate::run::{lemma_flight_loads, lemma_root_added, PendingInference};
use crate::scalar::Scalar;
use crate::search::{
    is_playout, lemma_chosen_valid, loads_below, path_end, playout_repeats, playout_stops, sound,
    with_losses,
};
use crate::trace::{asked_first, is_rooted, is_settled};
use crate::tree::{Tree, Tuning};
use std::collections::HashMap;
use vstd::prelude::*;

verus! {

/// What a search in rounds is led by.
#[verifier::reject_recursive_types(A)]
#[verifier::reject_recursive_types(R)]
pub ghost struct Lead<A, R> {
    pub root: NodeId,
    pub tuning: Tuning<A, R>,
    pub c_puct: R,
}

/// A playout of a round. Its path is empty where the root has no action.
#[verifier::reject_recursive_types(A)]
pub ghost struct Pick<A> {
    pub path: Seq<(NodeId, A)>,
    pub repeat: bool,
}

/// A round: its playouts, and the answers for the first of them.
#[verifier::reject_recursive_types(A)]
pub ghost struct Round<A, R> {
    pub picks: Seq<Pick<A>>,
    pub replies: Seq<(Map<A, R>, R)>,
}

/// Whether a playout leads from a tree to another, which holds its virtual losses.
pub open spec fn is_pick<E: Environment, R: Scalar>(
    lead: Lead<E::Act, R>,
    before: Tree<E::Act, R>,
    pick: Pick<E::Act>,
    after: Tree<E::Act, R>,
) -> bool {
    &&& is_playout::<E, R>(before, lead.tuning, lead.c_puct, false, lead.root, pick.path)
    &&& playout_stops::<E, R>(before, lead.tuning, lead.c_puct, false, lead.root, pick.path)
    &&& pick.path.len() > 0 ==> pick.repeat == playout_repeats::<E, R>(
        before,
        lead.root,
        pick.path,
    )
    &&& after == with_losses(before, pick.path)
}

/// Whether playouts lead, one after another, from a tree to another.
pub open spec fn are_picks<E: Environment, R: Scalar>(
    lead: Lead<E::Act, R>,
    before: Tree<E::Act, R>,
    picks: Seq<Pick<E::Act>>,
    after: Tree<E::Act, R>,
) -> bool
    decreases picks.len(),
{
    if picks.len() == 0 {
        after == before
    } else {
        exists|mid: Tree<E::Act, R>|
            are_picks::<E, R>(lead, before, picks.drop_last(), mid) && #[trigger] is_pick::<E, R>(
                lead,
                mid,
                picks.last(),
                after,
            )
    }
}

/// Whether an answer leads from a tree to another: the leaf is put into the tree, and its path
/// is backed up. An empty path changes nothing.
pub open spec fn is_reply<E: Environment, R: Scalar>(
    root: NodeId,
    before: Tree<E::Act, R>,
    pick: Pick<E::Act>,
    reply: (Map<E::Act, R>, R),
    after: Tree<E::Act, R>,
) -> bool {
    if pick.path.len() == 0 {
        after == before
    } else {
        is_settled::<E, R>(before, after, root, pick.path, pick.repeat, reply.0, reply.1)
    }
}

/// Whether the answers for the first playouts lead, in their order, from a tree to another.
pub open spec fn are_replies<E: Environment, R: Scalar>(
    root: NodeId,
    before: Tree<E::Act, R>,
    picks: Seq<Pick<E::Act>>,
    replies: Seq<(Map<E::Act, R>, R)>,
    after: Tree<E::Act, R>,
) -> bool
    decreases replies.len(),
{
    if replies.len() == 0 {
        after == before
    } else {
        exists|mid: Tree<E::Act, R>|
            are_replies::<E, R>(root, before, picks, replies.drop_last(), mid)
                && #[trigger] is_reply::<E, R>(
                root,
                mid,
                picks[replies.len() - 1],
                replies.last(),
                after,
            )
    }
}

/// Whether a round leads from a tree to another.
pub open spec fn is_round<E: Environment, R: Scalar>(
    lead: Lead<E::Act, R>,
    before: Tree<E::Act, R>,
    round: Round<E::Act, R>,
    after: Tree<E::Act, R>,
) -> bool {
    &&& round.replies.len() <= round.picks.len()
    &&& exists|mid: Tree<E::Act, R>| #[trigger]
        are_picks::<E, R>(lead, before, round.picks, mid) && are_replies::<E, R>(
            lead.root,
            mid,
            round.picks,
            round.replies,
            after,
        )
}

/// The states that the playouts of a round end in.
pub open spec fn pick_ends<E: Environment>(root: NodeId, picks: Seq<Pick<E::Act>>) -> Seq<NodeId> {
    Seq::new(picks.len(), |i: int| path_end::<E>(root, picks[i].path))
}

/// Whether a round has `batch` playouts, and the states that they end in are answered by one call
/// of an oracle, the first of them or all. Nothing is asked where there are no playouts.
pub open spec fn is_whole<E: Environment, R: Scalar>(
    oracle: Oracle<E::Act, R>,
    root: NodeId,
    round: Round<E::Act, R>,
    batch: nat,
) -> bool {
    &&& round.picks.len() == batch
    &&& oracle.complete ==> round.replies.len() == batch
    &&& batch > 0 ==> (oracle.answers)(pick_ends::<E>(root, round.picks), round.replies)
}

/// Whether rounds of `batch` playouts each lead, one after another, from a tree to another.
pub open spec fn are_rounds<E: Environment, R: Scalar>(
    oracle: Oracle<E::Act, R>,
    lead: Lead<E::Act, R>,
    before: Tree<E::Act, R>,
    rounds: Seq<Round<E::Act, R>>,
    batch: nat,
    after: Tree<E::Act, R>,
) -> bool
    decreases rounds.len(),
{
    if rounds.len() == 0 {
        after == before
    } else {
        &&& exists|mid: Tree<E::Act, R>|
            are_rounds::<E, R>(oracle, lead, before, rounds.drop_last(), batch, mid)
                && #[trigger] is_round::<E, R>(lead, mid, rounds.last(), after)
        &&& is_whole::<E, R>(oracle, lead.root, rounds.last(), batch)
    }
}

/// Whether a tree comes from another by `count` rounds of `batch` playouts from a root, which is
/// made ready first.
pub open spec fn is_run_in_rounds<E: Environment, R: Scalar>(
    oracle: Oracle<E::Act, R>,
    lead: Lead<E::Act, R>,
    before: Tree<E::Act, R>,
    after: Tree<E::Act, R>,
    count: nat,
    batch: nat,
) -> bool {
    exists|first: Tree<E::Act, R>, rounds: Seq<Round<E::Act, R>>|
        is_rooted::<E, R>(oracle, before, first, lead.root) && #[trigger] are_rounds::<E, R>(
            oracle,
            lead,
            first,
            rounds,
            batch,
            after,
        ) && rounds.len() == count
}

/// Whether a search in rounds shows a batch at some point: after the rounds `rounds`, the states
/// that the next `batch` playouts end in.
pub open spec fn shows_after<E: Environment, R: Scalar>(
    oracle: Oracle<E::Act, R>,
    lead: Lead<E::Act, R>,
    before: Tree<E::Act, R>,
    batch: nat,
    first: Tree<E::Act, R>,
    rounds: Seq<Round<E::Act, R>>,
    mid: Tree<E::Act, R>,
    picks: Seq<Pick<E::Act>>,
    tree: Tree<E::Act, R>,
    obs: Seq<E::Obs>,
) -> bool {
    &&& is_rooted::<E, R>(oracle, before, first, lead.root)
    &&& are_rounds::<E, R>(oracle, lead, first, rounds, batch, mid)
    &&& are_picks::<E, R>(lead, mid, picks, tree)
    &&& picks.len() == batch
    &&& batch > 0
    &&& are_seen::<E>(pick_ends::<E>(lead.root, picks), obs)
}

/// The batches that a search of `count` rounds asks for: the root alone, where it has no node yet,
/// and for each round the states that its playouts end in.
pub open spec fn asked_in_rounds<E: Environment, R: Scalar>(
    oracle: Oracle<E::Act, R>,
    lead: Lead<E::Act, R>,
    before: Tree<E::Act, R>,
    count: nat,
    batch: nat,
) -> spec_fn(Seq<E::Obs>) -> bool {
    |obs: Seq<E::Obs>|
        {
            ||| asked_first::<E, R>(before, lead.root)(obs)
            ||| exists|
                first: Tree<E::Act, R>,
                rounds: Seq<Round<E::Act, R>>,
                mid: Tree<E::Act, R>,
                picks: Seq<Pick<E::Act>>,
                tree: Tree<E::Act, R>,
            | #[trigger]
                shows_after::<E, R>(
                    oracle,
                    lead,
                    before,
                    batch,
                    first,
                    rounds,
                    mid,
                    picks,
                    tree,
                    obs,
                ) && rounds.len() < count
        }
}

/// Whether a tree comes from another by a search in rounds that ends at a batch which is not
/// answered: the root has no node and gets none, or some of the `count` rounds are made, and the
/// playouts of the next one get nothing.
pub open spec fn is_cut_in_rounds<E: Environment, R: Scalar>(
    oracle: Oracle<E::Act, R>,
    lead: Lead<E::Act, R>,
    before: Tree<E::Act, R>,
    after: Tree<E::Act, R>,
    count: nat,
    batch: nat,
) -> bool {
    ||| !before.contains_key(lead.root) && after == before
    ||| exists|
        first: Tree<E::Act, R>,
        rounds: Seq<Round<E::Act, R>>,
        mid: Tree<E::Act, R>,
        picks: Seq<Pick<E::Act>>,
        obs: Seq<E::Obs>,
    | #[trigger]
        shows_after::<E, R>(oracle, lead, before, batch, first, rounds, mid, picks, after, obs)
            && rounds.len() < count
}

/// Law: a search in rounds asks for the root alone, where it has no node yet, and else for batches
/// that show one state for each playout of a round.
pub proof fn law_rounds_ask_whole_batches<E: Environment, R: Scalar>(
    oracle: Oracle<E::Act, R>,
    lead: Lead<E::Act, R>,
    before: Tree<E::Act, R>,
    count: nat,
    batch: nat,
    obs: Seq<E::Obs>,
)
    requires
        asked_in_rounds::<E, R>(oracle, lead, before, count, batch)(obs),
    ensures
        !before.contains_key(lead.root) && are_seen::<E>(seq![lead.root], obs) || count > 0
            && obs.len() == batch,
{
}

/// The number of rounds of a search: the steps rounded down to whole batches.
pub open spec fn rounds_of(num_steps: usize, batch_size: usize) -> nat {
    (num_steps / (if batch_size == 0 {
        1
    } else {
        batch_size
    })) as nat
}

/// The number of rounds of a search from a root: none, where the game is over.
pub open spec fn rounds_from<E: Environment>(
    root: NodeId,
    num_steps: usize,
    batch_size: usize,
) -> nat {
    if E::spec_done(root) {
        0
    } else {
        rounds_of(num_steps, batch_size)
    }
}

/// A playout that was selected.
struct Selected<E: Environment> {
    leaf: Option<PendingInference<E>>,
    repeat: bool,
}

impl<E: Environment> Selected<E> {
    spec fn wf(&self) -> bool {
        self.leaf matches Some(leaf) ==> leaf.wf()
    }

    spec fn pick(&self) -> Pick<E::Act> {
        Pick {
            path: match self.leaf {
                Some(leaf) => leaf.path@,
                None => Seq::empty(),
            },
            repeat: self.repeat,
        }
    }

    /// The path that waits, if there is one.
    spec fn held(&self) -> Seq<Path<E::Act>> {
        match self.leaf {
            Some(leaf) => seq![leaf.path@],
            None => Seq::empty(),
        }
    }
}

/// The playouts of a round.
spec fn picks_of<E: Environment>(selected: Seq<Selected<E>>) -> Seq<Pick<E::Act>> {
    Seq::new(selected.len(), |i: int| selected[i].pick())
}

/// The paths that wait, from the playout at `from` on.
spec fn held<E: Environment>(selected: Seq<Selected<E>>, from: int) -> Seq<Path<E::Act>>
    decreases selected.len() - from,
{
    if from < 0 || from >= selected.len() {
        Seq::empty()
    } else {
        selected[from].held() + held(selected, from + 1)
    }
}

/// One more playout waits after all others.
proof fn lemma_held_push<E: Environment>(selected: Seq<Selected<E>>, s: Selected<E>, from: int)
    requires
        0 <= from <= selected.len(),
    ensures
        held(selected.push(s), from) == held(selected, from) + s.held(),
    decreases selected.len() - from,
{
    let more = selected.push(s);
    if from == selected.len() {
        assert(more[from] == s);
        assert(held(more, from + 1) =~= Seq::empty());
        assert(held(more, from) =~= held(selected, from) + s.held());
    } else {
        lemma_held_push(selected, s, from + 1);
        assert(more[from] == selected[from]);
        assert(held(more, from) =~= held(selected, from) + s.held());
    }
}

/// The state of a run that started from the tree `base`, with room for `limit` playouts.
#[verifier::opaque]
spec fn flying<E: Environment, R: Scalar>(
    base: Tree<E::Act, R>,
    tree: Tree<E::Act, R>,
    root: NodeId,
    waiting: Seq<Path<E::Act>>,
    done: nat,
    started: nat,
    limit: nat,
) -> bool {
    &&& in_flight::<E, R>(base, tree, root, waiting, done, started)
    &&& limit + 2 < usize::MAX
    &&& forall|id: NodeId| #[trigger]
        base.contains_key(id) ==> base[id].load() + limit + 2 < usize::MAX
}

/// What holds in a run.
proof fn lemma_flying<E: Environment, R: Scalar>(
    base: Tree<E::Act, R>,
    tree: Tree<E::Act, R>,
    root: NodeId,
    waiting: Seq<Path<E::Act>>,
    done: nat,
    started: nat,
    limit: nat,
)
    requires
        flying::<E, R>(base, tree, root, waiting, done, started, limit),
        started <= limit,
    ensures
        sound::<E, R>(tree),
        loads_below(tree, usize::MAX as int),
        tree.contains_key(root),
        grown(base, tree),
        forall|id: NodeId| #[trigger]
            tree.contains_key(id) ==> tree[id].load() <= load_at(base, id) + limit,
{
    reveal(flying);
    lemma_flight_loads::<E, R>(base, tree, root, waiting, done, started, usize::MAX as int);
}

/// A selected playout waits.
proof fn lemma_flying_select<E: Environment, R: Scalar>(
    lead: Lead<E::Act, R>,
    base: Tree<E::Act, R>,
    tree: Tree<E::Act, R>,
    waiting: Seq<Path<E::Act>>,
    done: nat,
    started: nat,
    limit: nat,
    path: Path<E::Act>,
)
    requires
        flying::<E, R>(base, tree, lead.root, waiting, done, started, limit),
        started < limit,
        path.len() > 0,
        is_playout::<E, R>(tree, lead.tuning, lead.c_puct, false, lead.root, path),
    ensures
        flying::<E, R>(
            base,
            with_losses(tree, path),
            lead.root,
            waiting + seq![path],
            done,
            started + 1,
            limit,
        ),
{
    lemma_flying::<E, R>(base, tree, lead.root, waiting, done, started, limit);
    reveal(flying);
    assert(path_in(tree, lead.root, path)) by {
        assert forall|i: int| 0 <= i < path.len() implies tree.contains_key((#[trigger] path[i]).0)
            && tree[path[i].0].valid_actions.contains(path[i].1) by {}
    }
    lemma_step_select::<E, R>(base, tree, lead.root, waiting, done, started, path);
    assert(waiting.push(path) =~= waiting + seq![path]);
}

/// A playout that finds no action at the root changes nothing.
proof fn lemma_flying_skip<E: Environment, R: Scalar>(
    lead: Lead<E::Act, R>,
    base: Tree<E::Act, R>,
    tree: Tree<E::Act, R>,
    waiting: Seq<Path<E::Act>>,
    done: nat,
    started: nat,
    limit: nat,
)
    requires
        flying::<E, R>(base, tree, lead.root, waiting, done, started, limit),
        started < limit,
        !E::spec_done(lead.root),
        playout_stops::<E, R>(tree, lead.tuning, lead.c_puct, false, lead.root, Seq::empty()),
    ensures
        flying::<E, R>(base, tree, lead.root, waiting, done, started + 1, limit),
{
    lemma_flying::<E, R>(base, tree, lead.root, waiting, done, started, limit);
    reveal(flying);
    lemma_chosen_valid(tree, lead.tuning, lead.root, lead.c_puct, true, false);
    lemma_step_skip::<E, R>(base, tree, lead.root, waiting, done, started);
}

impl<E: Environment, R: Scalar> MCTS<E, R> {
    /// One playout, and what is seen at its end.
    fn pick(
        &mut self,
        root_id: NodeId,
        env: &E,
        c_puct: R,
        Ghost(base): Ghost<Tree<E::Act, R>>,
        Ghost(waiting): Ghost<Seq<Path<E::Act>>>,
        Ghost(done): Ghost<nat>,
        Ghost(started): Ghost<nat>,
        Ghost(limit): Ghost<nat>,
    ) -> (r: (Selected<E>, E::Obs))
        requires
            old(self).wf(),
            env.spec_hash() == root_id,
            !E::spec_done(root_id),
            flying::<E, R>(base, old(self).tree(), root_id, waiting, done, started, limit),
            started < limit,
        ensures
            final(self).wf(),
            final(self).settings_of(old(self)),
            r.0.wf(),
            is_seen::<E>(path_end::<E>(root_id, r.0.pick().path), r.1),
            is_pick::<E, R>(
                Lead { root: root_id, tuning: old(self).tuning(), c_puct },
                old(self).tree(),
                r.0.pick(),
                final(self).tree(),
            ),
            flying::<E, R>(
                base,
                final(self).tree(),
                root_id,
                waiting + r.0.held(),
                done,
                started + 1,
                limit,
            ),
    {
        let ghost t = self.tree();
        let ghost lead = Lead::<E::Act, R> { root: root_id, tuning: self.tuning(), c_puct };
        proof {
            lemma_flying::<E, R>(base, t, root_id, waiting, done, started, limit);
        }
        let (path, parent, action, env, repeat) = self.select_leaf(root_id, env, c_puct, false);
        let obs: E::Obs = env.observation();
        assert(call_ensures(E::observation, (&env,), obs));
        assert(is_seen::<E>(env.spec_hash(), obs));
        match (parent, action) {
            (Some(parent_id), Some(action)) => {
                proof {
                    lemma_flying_select::<E, R>(
                        lead,
                        base,
                        t,
                        waiting,
                        done,
                        started,
                        limit,
                        path@,
                    );
                }
                let leaf: PendingInference<E> = PendingInference { path, parent_id, action, env };
                let s: Selected<E> = Selected { leaf: Some(leaf), repeat };
                (s, obs)
            },
            _ => {
                let s: Selected<E> = Selected { leaf: None, repeat };
                proof {
                    assert(path@ =~= Seq::empty());
                    assert(with_losses(t, path@) == t);
                    lemma_flying_skip::<E, R>(lead, base, t, waiting, done, started, limit);
                    assert(waiting + s.held() =~= waiting);
                }
                (s, obs)
            },
        }
    }

    /// Takes the answer for a playout.
    fn answer(
        &mut self,
        root_id: NodeId,
        s: &Selected<E>,
        priors: HashMap<E::Act, R>,
        value: R,
        Ghost(base): Ghost<Tree<E::Act, R>>,
        Ghost(lost): Ghost<Seq<Path<E::Act>>>,
        Ghost(rest): Ghost<Seq<Path<E::Act>>>,
        Ghost(done): Ghost<nat>,
        Ghost(started): Ghost<nat>,
        Ghost(limit): Ghost<nat>,
    ) -> (r: Ghost<nat>)
        requires
            old(self).wf(),
            s.wf(),
            flying::<E, R>(
                base,
                old(self).tree(),
                root_id,
                lost + (s.held() + rest),
                done,
                started,
                limit,
            ),
            started <= limit,
        ensures
            final(self).wf(),
            final(self).settings_of(old(self)),
            is_reply::<E, R>(
                root_id,
                old(self).tree(),
                s.pick(),
                (priors@, value),
                final(self).tree(),
            ),
            flying::<E, R>(base, final(self).tree(), root_id, lost + rest, r@, started, limit),
    {
        reveal(flying);
        let ghost w = lost + (s.held() + rest);
        match &s.leaf {
            Some(leaf) => {
                assert(w[lost.len() as int] == leaf.path@);
                assert(w.remove(lost.len() as int) =~= lost + rest);
                self.settle(
                    root_id,
                    leaf,
                    s.repeat,
                    priors,
                    value,
                    Ghost(base),
                    Ghost(w),
                    Ghost(done),
                    Ghost(started),
                    Ghost(lost.len() as int),
                );
                Ghost(done + 1)
            },
            None => {
                assert(w =~= lost + rest);
                Ghost(done)
            },
        }
    }

    /// The playouts of a round, and what is seen at their ends.
    fn pick_all(
        &mut self,
        root_id: NodeId,
        env: &E,
        c_puct: &R,
        Ghost(base): Ghost<Tree<E::Act, R>>,
        Ghost(lost): Ghost<Seq<Path<E::Act>>>,
        Ghost(done): Ghost<nat>,
        Ghost(started): Ghost<nat>,
        Ghost(limit): Ghost<nat>,
    ) -> (r: (Vec<Selected<E>>, Vec<E::Obs>))
        requires
            old(self).wf(),
            env.spec_hash() == root_id,
            !E::spec_done(root_id),
            flying::<E, R>(base, old(self).tree(), root_id, lost, done, started, limit),
            started + old(self).batch_size <= limit,
        ensures
            final(self).wf(),
            final(self).settings_of(old(self)),
            r.0@.len() == old(self).batch_size,
            r.1@.len() == old(self).batch_size,
            forall|p: int| 0 <= p < r.0@.len() ==> (#[trigger] r.0@[p]).wf(),
            forall|p: int|
                0 <= p < r.0@.len() ==> is_seen::<E>(
                    path_end::<E>(root_id, (#[trigger] r.0@[p]).pick().path),
                    r.1@[p],
                ),
            are_picks::<E, R>(
                Lead { root: root_id, tuning: old(self).tuning(), c_puct: *c_puct },
                old(self).tree(),
                picks_of(r.0@),
                final(self).tree(),
            ),
            flying::<E, R>(
                base,
                final(self).tree(),
                root_id,
                lost + held(r.0@, 0),
                done,
                started + old(self).batch_size as nat,
                limit,
            ),
    {
        let batch_size: usize = self.batch_size;
        let ghost before = self.tree();
        let ghost lead = Lead::<E::Act, R> {
            root: root_id,
            tuning: self.tuning(),
            c_puct: *c_puct,
        };
        let mut seen: Vec<E::Obs> = Vec::with_capacity(batch_size);
        let mut selected: Vec<Selected<E>> = Vec::with_capacity(batch_size);
        let mut i: usize = 0;
        proof {
            assert(lost + held(selected@, 0) =~= lost);
            assert(picks_of(selected@) =~= Seq::empty());
        }
        while i < batch_size
            invariant
                i <= batch_size,
                batch_size == old(self).batch_size,
                started + batch_size <= limit,
                env.spec_hash() == root_id,
                !E::spec_done(root_id),
                self.wf(),
                self.settings_of(old(self)),
                before == old(self).tree(),
                lead == (Lead::<E::Act, R> {
                    root: root_id,
                    tuning: old(self).tuning(),
                    c_puct: *c_puct,
                }),
                flying::<E, R>(
                    base,
                    self.tree(),
                    root_id,
                    lost + held(selected@, 0),
                    done,
                    started + i as nat,
                    limit,
                ),
                are_picks::<E, R>(lead, before, picks_of(selected@), self.tree()),
                selected@.len() == i,
                seen@.len() == i,
                forall|p: int| 0 <= p < selected@.len() ==> (#[trigger] selected@[p]).wf(),
                forall|p: int|
                    0 <= p < selected@.len() ==> is_seen::<E>(
                        path_end::<E>(root_id, (#[trigger] selected@[p]).pick().path),
                        seen@[p],
                    ),
            decreases batch_size - i,
        {
            let ghost earlier = selected@;
            let ghost mid = self.tree();
            let (s, obs) = self.pick(
                root_id,
                env,
                c_puct.dup(),
                Ghost(base),
                Ghost(lost + held(selected@, 0)),
                Ghost(done),
                Ghost(started + i as nat),
                Ghost(limit),
            );
            proof {
                lemma_held_push(earlier, s, 0);
                assert(lost + held(earlier, 0) + s.held() =~= lost + held(earlier.push(s), 0));
                let picks = picks_of(earlier.push(s));
                assert(picks.drop_last() =~= picks_of(earlier));
                assert(picks.last() == s.pick());
                assert(is_pick::<E, R>(lead, mid, picks.last(), self.tree()));
            }
            seen.push(obs);
            selected.push(s);
            i += 1;
        }
        (selected, seen)
    }

    /// Takes the answers for the playouts of a round, as far as there are some.
    fn answer_all(
        &mut self,
        root_id: NodeId,
        selected: &Vec<Selected<E>>,
        priors: &Vec<HashMap<E::Act, R>>,
        values: &Vec<R>,
        Ghost(base): Ghost<Tree<E::Act, R>>,
        Ghost(lost): Ghost<Seq<Path<E::Act>>>,
        Ghost(done): Ghost<nat>,
        Ghost(started): Ghost<nat>,
        Ghost(limit): Ghost<nat>,
    ) -> (r: (Ghost<nat>, Ghost<Seq<Path<E::Act>>>, Ghost<Seq<(Map<E::Act, R>, R)>>))
        requires
            old(self).wf(),
            forall|p: int| 0 <= p < selected@.len() ==> (#[trigger] selected@[p]).wf(),
            flying::<E, R>(
                base,
                old(self).tree(),
                root_id,
                lost + held(selected@, 0),
                done,
                started,
                limit,
            ),
            started <= limit,
        ensures
            final(self).wf(),
            final(self).settings_of(old(self)),
            r.2@.len() == shortest(selected@.len(), priors@.len(), values@.len()),
            r.2@.len() == selected@.len() ==> r.1@ == lost,
            forall|j: int|
                0 <= j < r.2@.len() ==> (#[trigger] r.2@[j]) == (priors@[j]@, values@[j]),
            are_replies::<E, R>(
                root_id,
                old(self).tree(),
                picks_of(selected@),
                r.2@,
                final(self).tree(),
            ),
            flying::<E, R>(base, final(self).tree(), root_id, r.1@, r.0@, started, limit),
    {
        let ghost picked = self.tree();
        let ghost picks = picks_of(selected@);
        let ghost mut replies: Seq<(Map<E::Act, R>, R)> = Seq::empty();
        let ghost mut settled: nat = done;
        let mut n: usize = selected.len();
        if priors.len() < n {
            n = priors.len();
        }
        if values.len() < n {
            n = values.len();
        }
        let mut j: usize = 0;
        while j < n
            invariant
                j <= n,
                n <= selected@.len(),
                n <= priors@.len(),
                n <= values@.len(),
                started <= limit,
                self.wf(),
                self.settings_of(old(self)),
                flying::<E, R>(
                    base,
                    self.tree(),
                    root_id,
                    lost + held(selected@, j as int),
                    settled,
                    started,
                    limit,
                ),
                picks == picks_of(selected@),
                replies.len() == j,
                forall|k: int| 0 <= k < j ==> (#[trigger] replies[k]) == (priors@[k]@, values@[k]),
                are_replies::<E, R>(root_id, picked, picks, replies, self.tree()),
                forall|p: int| 0 <= p < selected@.len() ==> (#[trigger] selected@[p]).wf(),
            decreases n - j,
        {
            let ghost mid = self.tree();
            let ghost reply = (priors@[j as int]@, values@[j as int]);
            assert(selected@[j as int].wf());
            let Ghost(d) = self.answer(
                root_id,
                &selected[j],
                copy_map(&priors[j]),
                values[j].dup(),
                Ghost(base),
                Ghost(lost),
                Ghost(held(selected@, (j + 1) as int)),
                Ghost(settled),
                Ghost(started),
                Ghost(limit),
            );
            proof {
                let more = replies.push(reply);
                assert(more.drop_last() =~= replies);
                assert(picks[more.len() - 1] == selected@[j as int].pick());
                assert(is_reply::<E, R>(
                    root_id,
                    mid,
                    picks[more.len() - 1],
                    more.last(),
                    self.tree(),
                ));
                replies = more;
                settled = d;
            }
            j += 1;
        }
        assert(j == selected@.len() ==> lost + held(selected@, j as int) =~= lost);
        (Ghost(settled), Ghost(lost + held(selected@, j as int)), Ghost(replies))
    }

    /// Runs a search in rounds from the current environment state.
    ///
    /// The steps are rounded down to whole batches. Every leaf is shown to the network, and its
    /// answer is taken as it is, also for a finished game.
    ///
    /// Returns a copy of the root, or the error of the inference client.
    pub fn run_rounds<C: InferenceClient<E, R> + ?Sized>(
        &mut self,
        env: &E,
        client: &C,
        num_steps: usize,
        c_puct: R,
    ) -> (r: Result<Node<E::Act, R>, InferenceError>)
        requires
            old(self).wf(),
            sound::<E, R>(old(self).tree()),
            num_steps + 2 < usize::MAX,
            forall|id: NodeId| #[trigger]
                old(self).tree().contains_key(id) ==> old(self).tree()[id].load() + num_steps + 2
                    < usize::MAX,
            can_ask::<E, R, C>(
                client,
                asked_in_rounds::<E, R>(
                    oracle_of::<E, R, C>(client),
                    Lead { root: env.spec_hash(), tuning: old(self).tuning(), c_puct },
                    old(self).tree(),
                    rounds_from::<E>(env.spec_hash(), num_steps, old(self).batch_size),
                    old(self).batch_size as nat,
                ),
            ),
        ensures
            final(self).wf(),
            final(self).settings_of(old(self)),
            sound::<E, R>(final(self).tree()),
            grown(old(self).tree(), final(self).tree()),
            forall|id: NodeId| #[trigger]
                final(self).tree().contains_key(id) ==> final(self).tree()[id].load() <= load_at(
                    old(self).tree(),
                    id,
                ) + num_steps,
            old(self).tree().contains_key(env.spec_hash()) && (E::spec_done(env.spec_hash())
                || rounds_of(num_steps, old(self).batch_size) == 0 || old(self).batch_size == 0)
                ==> r is Ok,
            r matches Err(e) ==> is_failure::<E, R, C>(
                client,
                asked_in_rounds::<E, R>(
                    oracle_of::<E, R, C>(client),
                    Lead { root: env.spec_hash(), tuning: old(self).tuning(), c_puct },
                    old(self).tree(),
                    rounds_from::<E>(env.spec_hash(), num_steps, old(self).batch_size),
                    old(self).batch_size as nat,
                ),
                asked_first::<E, R>(old(self).tree(), env.spec_hash()),
                e,
            ),
            r is Err ==> is_cut_in_rounds::<E, R>(
                oracle_of::<E, R, C>(client),
                Lead { root: env.spec_hash(), tuning: old(self).tuning(), c_puct },
                old(self).tree(),
                final(self).tree(),
                rounds_from::<E>(env.spec_hash(), num_steps, old(self).batch_size),
                old(self).batch_size as nat,
            ),
            r is Ok ==> {
                let root = env.spec_hash();
                let tree = final(self).tree();
                let old_tree = old(self).tree();
                let count = rounds_from::<E>(root, num_steps, old(self).batch_size);
                let batch = old(self).batch_size as nat;
                &&& tree.contains_key(root)
                &&& r->Ok_0@ == tree[root]
                &&& is_run_in_rounds::<E, R>(
                    oracle_of::<E, R, C>(client),
                    Lead { root, tuning: old(self).tuning(), c_puct },
                    old_tree,
                    tree,
                    count,
                    batch,
                )
                &&& !E::spec_done(root) ==> {
                    &&& client.answers_all() && tree[root].valid_actions.len() > 0 ==> visits_at(
                        tree,
                        root,
                    ) == visits_at(old_tree, root) + count * batch
                    &&& client.answers_all() && E::spec_actions(root).len() > 0 ==> visits_at(
                        tree,
                        root,
                    ) == visits_at(old_tree, root) + count * batch
                    &&& client.answers_all() ==> forall|id: NodeId, k: int|
                        #![trigger tree[id].virtual_losses[k]]
                        tree.contains_key(id) && 0 <= k < tree[id].num_actions
                            ==> tree[id].virtual_losses[k] == losses_at(old_tree, id, k)
                }
            },
    {
        let ghost t0 = self.tree();
        let root_hash: NodeId = self.get_hash(env);
        let ghost lead = Lead::<E::Act, R> { root: root_hash, tuning: self.tuning(), c_puct };
        let ghost oracle = oracle_of::<E, R, C>(client);
        let ghost count = rounds_from::<E>(root_hash, num_steps, self.batch_size);
        let ghost size = self.batch_size as nat;
        let ghost asked = asked_in_rounds::<E, R>(oracle, lead, t0, count, size);
        if !self.node_exists(root_hash) {
            match self.infer_root(env, client) {
                Err(e) => {
                    proof {
                        let alone = shows::<E>(seq![root_hash]);
                        let first = asked_first::<E, R>(t0, root_hash);
                        lemma_failure_widens::<E, R, C>(client, alone, alone, asked, first, e);
                    }
                    return Err(e);
                },
                Ok((priors, value)) => {
                    self.add_root(env, priors, value);
                },
            }
        }
        let ghost base = self.tree();
        proof {
            lemma_root_added::<E, R>(t0, base, root_hash);
        }
        if env.done() {
            assert(are_rounds::<E, R>(oracle, lead, base, Seq::empty(), size, base));
            return Ok(self.copy_of(root_hash));
        }
        let batch_size: usize = self.batch_size;
        let divisor: usize = if batch_size == 0 {
            1
        } else {
            batch_size
        };
        let num_batches: usize = num_steps / divisor;
        let ghost all = (num_batches * batch_size) as nat;
        proof {
            assert(all <= num_steps) by (nonlinear_arith)
                requires
                    all == num_batches * batch_size,
                    num_batches == num_steps / divisor,
                    divisor > 0,
                    batch_size <= divisor,
            ;
            assert(0 * batch_size == 0);
        }
        let ghost mut lost: Seq<Path<E::Act>> = Seq::empty();
        let ghost mut done: nat = 0;
        let ghost mut rounds: Seq<Round<E::Act, R>> = Seq::empty();
        assert(flying::<E, R>(base, base, root_hash, lost, done, 0, num_steps as nat)) by {
            reveal(flying);
            assert forall|id: NodeId| #[trigger] base.contains_key(id) implies base[id].load()
                + num_steps + 2 < usize::MAX by {
                assert(load_at(base, id) == load_at(t0, id));
            }
        }
        let mut b: usize = 0;
        while b < num_batches
            invariant
                b <= num_batches,
                env.spec_hash() == root_hash,
                !E::spec_done(root_hash),
                all == num_batches * batch_size,
                all <= num_steps,
                self.wf(),
                self.settings_of(old(self)),
                batch_size == old(self).batch_size,
                grown(t0, base),
                t0 == old(self).tree(),
                forall|id: NodeId| #[trigger] load_at(base, id) == load_at(t0, id),
                lead == (Lead::<E::Act, R> {
                    root: root_hash,
                    tuning: old(self).tuning(),
                    c_puct,
                }),
                flying::<E, R>(
                    base,
                    self.tree(),
                    root_hash,
                    lost,
                    done,
                    (b * batch_size) as nat,
                    num_steps as nat,
                ),
                are_rounds::<E, R>(oracle, lead, base, rounds, size, self.tree()),
                rounds.len() == b,
                is_rooted::<E, R>(oracle, t0, base, root_hash),
                size == batch_size,
                count == num_batches,
                asked == asked_in_rounds::<E, R>(oracle, lead, t0, count, size),
                can_ask::<E, R, C>(client, asked),
                client.answers_all() ==> lost.len() == 0,
                oracle == oracle_of::<E, R, C>(client),
                num_batches == rounds_of(num_steps, batch_size),
            decreases num_batches - b,
        {
            let ghost before = self.tree();
            let ghost begun = (b * batch_size + batch_size) as nat;
            proof {
                assert((b + 1) * batch_size <= num_batches * batch_size) by (nonlinear_arith)
                    requires
                        b + 1 <= num_batches,
                ;
                assert((b + 1) * batch_size == b * batch_size + batch_size) by (nonlinear_arith);
            }
            let (selected, leaf_batch) = self.pick_all(
                root_hash,
                env,
                &c_puct,
                Ghost(base),
                Ghost(lost),
                Ghost(done),
                Ghost((b * batch_size) as nat),
                Ghost(num_steps as nat),
            );
            let ghost picked = self.tree();
            let ghost picks = picks_of(selected@);
            let ghost mut replies: Seq<(Map<E::Act, R>, R)> = Seq::empty();
            if leaf_batch.len() > 0 {
                let batch: &[E::Obs] = leaf_batch.as_slice();
                proof {
                    let ends = pick_ends::<E>(root_hash, picks);
                    assert forall|p: int| 0 <= p < ends.len() implies is_seen::<E>(
                        ends[p],
                        #[trigger] batch@[p],
                    ) by {
                        assert(picks[p] == selected@[p].pick());
                    }
                    assert(are_seen::<E>(ends, batch@));
                    assert(shows_after::<E, R>(
                        oracle,
                        lead,
                        t0,
                        size,
                        base,
                        rounds,
                        before,
                        picks,
                        picked,
                        batch@,
                    ));
                    assert(asked(batch@));
                    assert(client.admits(batch@));
                }
                let (prior_batch, value_batch) = match self.blocking_infer(batch, client) {
                    Ok(reply) => reply,
                    Err(e) => {
                        proof {
                            lemma_landed::<E, R>(
                                t0,
                                base,
                                self.tree(),
                                root_hash,
                                lost + held(selected@, 0),
                                done,
                                begun,
                                num_steps as nat,
                            );
                        }
                        return Err(e);
                    },
                };
                let (Ghost(d), Ghost(w), Ghost(all_replies)) = self.answer_all(
                    root_hash,
                    &selected,
                    &prior_batch,
                    &value_batch,
                    Ghost(base),
                    Ghost(lost),
                    Ghost(done),
                    Ghost(begun),
                    Ghost(num_steps as nat),
                );
                proof {
                    done = d;
                    lost = w;
                    replies = all_replies;
                    assert(is_answer::<E, R, C>(
                        client,
                        batch,
                        prior_batch,
                        value_batch,
                        pick_ends::<E>(root_hash, picks),
                        replies,
                    ));
                }
            } else {
                assert(lost + held(selected@, 0) =~= lost);
            }
            proof {
                let round = Round::<E::Act, R> { picks, replies };
                assert(are_picks::<E, R>(lead, before, round.picks, picked));
                let more = rounds.push(round);
                assert(more.drop_last() =~= rounds);
                assert(is_round::<E, R>(lead, before, more.last(), self.tree()));
                rounds = more;
            }
            b += 1;
        }
        proof {
            lemma_landed::<E, R>(
                t0,
                base,
                self.tree(),
                root_hash,
                lost,
                done,
                (num_batches * batch_size) as nat,
                num_steps as nat,
            );
            assert(is_rooted::<E, R>(oracle, t0, base, root_hash));
            if client.answers_all() {
                assert(lost =~= Seq::empty());
                lemma_all_landed::<E, R>(
                    t0,
                    base,
                    self.tree(),
                    root_hash,
                    done,
                    (num_batches * batch_size) as nat,
                    num_steps as nat,
                );
            }
        }
        Ok(self.copy_of(root_hash))
    }
}

/// A run, seen from the tree before its root was added.
proof fn lemma_landed<E: Environment, R: Scalar>(
    old_tree: Tree<E::Act, R>,
    base: Tree<E::Act, R>,
    tree: Tree<E::Act, R>,
    root: NodeId,
    waiting: Seq<Path<E::Act>>,
    done: nat,
    started: nat,
    limit: nat,
)
    requires
        flying::<E, R>(base, tree, root, waiting, done, started, limit),
        grown(old_tree, base),
        forall|id: NodeId| #[trigger] load_at(base, id) == load_at(old_tree, id),
        started <= limit,
    ensures
        sound::<E, R>(tree),
        grown(old_tree, tree),
        tree.contains_key(root),
        forall|id: NodeId| #[trigger]
            tree.contains_key(id) ==> tree[id].load() <= load_at(old_tree, id) + limit,
{
    lemma_flying::<E, R>(base, tree, root, waiting, done, started, limit);
    lemma_grown_trans(old_tree, base, tree);
    assert forall|id: NodeId| #[trigger] tree.contains_key(id) implies tree[id].load() <= load_at(
        old_tree,
        id,
    ) + limit by {
        assert(load_at(base, id) == load_at(old_tree, id));
    }
}

/// A run in which nothing waits any more has counted all its playouts, and left no loss behind.
proof fn lemma_all_landed<E: Environment, R: Scalar>(
    old_tree: Tree<E::Act, R>,
    base: Tree<E::Act, R>,
    tree: Tree<E::Act, R>,
    root: NodeId,
    done: nat,
    started: nat,
    limit: nat,
)
    requires
        flying::<E, R>(base, tree, root, Seq::empty(), done, started, limit),
        visits_at(base, root) == visits_at(old_tree, root),
        forall|id: NodeId, k: int|
            #![trigger losses_at(base, id, k)]
            base.contains_key(id) && 0 <= k < base[id].num_actions ==> losses_at(base, id, k)
                == losses_at(old_tree, id, k),
        grown(old_tree, base),
    ensures
        tree[root].valid_actions.len() > 0 ==> visits_at(tree, root) == visits_at(old_tree, root)
            + started,
        forall|id: NodeId, k: int|
            #![trigger tree[id].virtual_losses[k]]
            tree.contains_key(id) && 0 <= k < tree[id].num_actions ==> tree[id].virtual_losses[k]
                == losses_at(old_tree, id, k),
{
    reveal(flying);
    assert(base.contains_key(root));
    assert forall|id: NodeId, k: int|
        #![trigger tree[id].virtual_losses[k]]
        tree.contains_key(id) && 0 <= k < tree[id].num_actions implies tree[id].virtual_losses[k]
        == losses_at(old_tree, id, k) by {
        assert(tree[id].virtual_losses[k] == losses_at(base, id, k));
        if base.contains_key(id) {
            assert(losses_at(base, id, k) == losses_at(old_tree, id, k));
        }
    }
}

} // verus!
