//! The policy training target of a finished search: the root's visit distribution without the
//! visits that were forced.

use crate::environment::{slots_ok, Act, Environment};
use crate::mcts::MCTS;
use crate::node::{
    lemma_most_visited, lemma_total_update, most_visited, total, Node, NodeId, NodeView,
};
use crate::scalar::{minus, one, over, root, times, zero, Binary, Scalar, Unary};
use crate::tree::{edge_value, forced_visits, scores_of, Tree, Tuning};
use std::collections::HashMap;
use vstd::prelude::*;

verus! {

/// The sum of the counts in the slots of the first `k` actions.
pub open spec fn slot_sum<A: Act>(actions: Seq<A>, counts: Seq<usize>, k: nat) -> nat
    decreases k,
{
    if k == 0 {
        0
    } else {
        slot_sum(actions, counts, (k - 1) as nat) + counts[actions[k - 1].spec_index() as int] as nat
    }
}

proof fn lemma_slot_sum_frame<A: Act>(actions: Seq<A>, s: Seq<usize>, t: Seq<usize>, k: nat)
    requires
        k <= actions.len(),
        forall|i: int|
            0 <= i < k ==> s[(#[trigger] actions[i]).spec_index() as int]
                == t[actions[i].spec_index() as int],
    ensures
        slot_sum(actions, s, k) == slot_sum(actions, t, k),
    decreases k,
{
    if k > 0 {
        lemma_slot_sum_frame(actions, s, t, (k - 1) as nat);
    }
}

/// Actions with slots of their own do not count anything twice.
pub proof fn lemma_slot_sum_bound<A: Act>(actions: Seq<A>, counts: Seq<usize>, n: usize, k: nat)
    requires
        k <= actions.len(),
        slots_ok(actions, n),
        actions.no_duplicates(),
        counts.len() == n,
    ensures
        slot_sum(actions, counts, k) <= total(counts),
    decreases k,
{
    if k > 0 {
        let i = actions[k - 1].spec_index() as int;
        let t = counts.update(i, 0);
        assert forall|j: int| 0 <= j < k - 1 implies counts[(
        #[trigger] actions[j]).spec_index() as int] == t[actions[j].spec_index() as int] by {
            assert(actions[j] != actions[k - 1]);
        }
        lemma_slot_sum_frame(actions, counts, t, (k - 1) as nat);
        lemma_slot_sum_bound(actions, t, n, (k - 1) as nat);
        lemma_total_update(counts, i, 0);
    }
}

/// The most visited child of a node.
pub open spec fn best_child<A: Act, R: Scalar>(node: NodeView<A, R>) -> A {
    node.valid_actions[most_visited(
        node.valid_actions,
        node.edge_visits,
        node.valid_actions.len(),
    )->0]
}

/// The most visits that can be taken from an edge while its score stays below that of the best
/// child: none where its value alone is not below.
pub open spec fn spare_visits<A: Act, R: Scalar>(
    tree: Tree<A, R>,
    node: NodeView<A, R>,
    tuning: Tuning<A, R>,
    c_puct: R,
    action: A,
) -> usize {
    let i = action.spec_index() as int;
    let best_score = scores_of(tree, node, tuning, c_puct, true, false)[best_child(
        node,
    ).spec_index() as int];
    let gap = minus(best_score, edge_value(tree, node, action, node.value));
    if R::spec_less(gap, zero()) || R::spec_same(gap, zero()) {
        0
    } else {
        let boundary = minus(
            over(
                times(
                    times(c_puct, node.prior_probs[i]),
                    root(R::spec_count(total(node.edge_visits) as usize)),
                ),
                gap,
            ),
            one(),
        );
        R::spec_to_count(
            R::spec_binary(
                Binary::Max,
                R::spec_unary(Unary::Floor, minus(R::spec_count(node.edge_visits[i]), boundary)),
                zero(),
            ),
        )
    }
}

/// The visits of an edge that are left after pruning. The best child keeps all of its own; of
/// another edge the forced visits are taken off, as far as they can be spared.
pub open spec fn pruned_visits<A: Act, R: Scalar>(
    tree: Tree<A, R>,
    node: NodeView<A, R>,
    tuning: Tuning<A, R>,
    c_puct: R,
    action: A,
) -> usize {
    let i = action.spec_index() as int;
    let v = node.edge_visits[i];
    if action == best_child(node) || R::spec_same(node.prior_probs[i], zero()) {
        v
    } else {
        let forced = R::spec_to_count(
            R::spec_unary(
                Unary::Floor,
                forced_visits(tuning.k_forced, node.prior_probs[i], total(node.edge_visits)),
            ),
        );
        let spare = spare_visits(tree, node, tuning, c_puct, action);
        let cut = if forced <= spare {
            forced
        } else {
            spare
        };
        if cut <= v {
            (v - cut) as usize
        } else {
            0
        }
    }
}

/// Whether an edge is left in the target: more than one visit remains.
pub open spec fn is_kept<A: Act, R: Scalar>(
    tree: Tree<A, R>,
    node: NodeView<A, R>,
    tuning: Tuning<A, R>,
    c_puct: R,
    action: A,
) -> bool {
    pruned_visits(tree, node, tuning, c_puct, action) > 1
}

/// The visits left of the edges that are kept, among the first `k` valid actions.
pub open spec fn kept_total<A: Act, R: Scalar>(
    tree: Tree<A, R>,
    node: NodeView<A, R>,
    tuning: Tuning<A, R>,
    c_puct: R,
    k: nat,
) -> nat
    decreases k,
{
    if k == 0 {
        0
    } else {
        let a = node.valid_actions[k - 1];
        kept_total(tree, node, tuning, c_puct, (k - 1) as nat) + (if is_kept(
            tree,
            node,
            tuning,
            c_puct,
            a,
        ) {
            pruned_visits(tree, node, tuning, c_puct, a) as nat
        } else {
            0
        })
    }
}

/// The policy target of a node that was visited.
pub open spec fn target_of<A: Act, R: Scalar>(
    tree: Tree<A, R>,
    node: NodeView<A, R>,
    tuning: Tuning<A, R>,
    c_puct: R,
) -> Map<A, R> {
    let n = kept_total(tree, node, tuning, c_puct, node.valid_actions.len());
    if n == 0 {
        Map::empty().insert(best_child(node), one())
    } else {
        Map::new(
            |a: A| node.valid_actions.contains(a) && is_kept(tree, node, tuning, c_puct, a),
            |a: A|
                over(
                    R::spec_count(pruned_visits(tree, node, tuning, c_puct, a)),
                    R::spec_count(n as usize),
                ),
        )
    }
}

/// The policy target of a search.
pub open spec fn spec_policy_target<A: Act, R: Scalar>(
    tree: Tree<A, R>,
    root_id: Option<NodeId>,
    tuning: Tuning<A, R>,
    c_puct: R,
) -> Option<Map<A, R>> {
    match root_id {
        Some(id) if tree.contains_key(id) && total(tree[id].edge_visits) > 0
            && tree[id].valid_actions.len() > 0 => Some(target_of(tree, tree[id], tuning, c_puct)),
        _ => None,
    }
}

/// What is left of an edge is no more than it had.
proof fn lemma_pruned_bound<A: Act, R: Scalar>(
    tree: Tree<A, R>,
    node: NodeView<A, R>,
    tuning: Tuning<A, R>,
    c_puct: R,
    k: nat,
)
    requires
        k <= node.valid_actions.len(),
    ensures
        kept_total(tree, node, tuning, c_puct, k) <= slot_sum(
            node.valid_actions,
            node.edge_visits,
            k,
        ),
    decreases k,
{
    if k > 0 {
        lemma_pruned_bound(tree, node, tuning, c_puct, (k - 1) as nat);
    }
}

impl<E: Environment, R: Scalar> MCTS<E, R> {
    /// The visits of one edge that are left after pruning.
    fn prune_edge(
        &self,
        node: &Node<E::Act, R>,
        n_total: usize,
        is_best: bool,
        best_score: &R,
        action: E::Act,
        c_puct: &R,
    ) -> (r: usize)
        requires
            node@.sized(),
            action.spec_index() < node.num_actions,
            n_total == total(node.edge_visits@),
            is_best == (action == best_child(node@)),
            *best_score == scores_of(
                self.tree(),
                node@,
                self.tuning(),
                *c_puct,
                true,
                false,
            )[best_child(node@).spec_index() as int],
        ensures
            r == pruned_visits(self.tree(), node@, self.tuning(), *c_puct, action),
    {
        let idx: usize = action.to_action_index();
        let visits: usize = node.edge_visits[idx];
        let prior: &R = &node.prior_probs[idx];
        if is_best || R::same(prior, &R::decimal(0, 0)) {
            return visits;
        }
        let kp: R = R::binary(Binary::Times, &self.k_forced, prior);
        let n_forced: R = R::unary(
            Unary::Sqrt,
            &R::binary(Binary::Times, &kp, &R::count(n_total)),
        );
        let forced: usize = R::to_count(&R::unary(Unary::Floor, &n_forced));
        if forced == 0 {
            return visits;
        }
        let q: R = self.value_of_edge(node, idx, &node.value);
        assert(q == edge_value(self.tree(), node@, action, node.value));
        let gap: R = R::binary(Binary::Minus, best_score, &q);
        let zero: R = R::decimal(0, 0);
        let spare: usize = if R::less(&gap, &zero) || R::same(&gap, &zero) {
            0
        } else {
            let cp: R = R::binary(Binary::Times, c_puct, prior);
            let cps: R = R::binary(
                Binary::Times,
                &cp,
                &R::unary(Unary::Sqrt, &R::count(n_total)),
            );
            let boundary: R = R::binary(
                Binary::Minus,
                &R::binary(Binary::Over, &cps, &gap),
                &R::decimal(1, 0),
            );
            let room: R = R::unary(
                Unary::Floor,
                &R::binary(Binary::Minus, &R::count(visits), &boundary),
            );
            R::to_count(&R::binary(Binary::Max, &room, &zero))
        };
        let cut: usize = if forced <= spare {
            forced
        } else {
            spare
        };
        visits.saturating_sub(cut)
    }

    /// Compute the policy training target from the root's visit distribution, with
    /// forced-playout visits subtracted.
    ///
    /// 1. Find the child with the most visits.
    /// 2. From every other child take off the forced visits, as far as its score without them
    ///    stays below that of the best child.
    /// 3. Remove the children that are left with at most one visit.
    /// 4. Normalize the remaining visits; if nothing remains, the best child has all.
    ///
    /// Returns `None` if the root does not exist or has received no visits.
    pub fn policy_target(&self, c_puct: R) -> (r: Option<HashMap<E::Act, R>>)
        requires
            self.root_id is Some && self.tree().contains_key(self.root_id->0)
                ==> self.tree()[self.root_id->0].wf() && self.tree()[self.root_id->0].load()
                <= usize::MAX,
        ensures
            match spec_policy_target(self.tree(), self.root_id, self.tuning(), c_puct) {
                Some(m) => r is Some && r->0@ == m,
                None => r is None,
            },
    {
        broadcast use vstd::std_specs::hash::group_hash_axioms;

        proof {
            E::Act::key_model();
        }
        let root_id: NodeId = match self.root_id {
            Some(id) => id,
            None => {
                return None;
            },
        };
        let node: &Node<E::Act, R> = match self.get_node_immut(root_id) {
            Some(n) => n,
            None => {
                return None;
            },
        };
        let ghost nv = node@;
        let ghost t = self.tree();
        let ghost tn = self.tuning();
        let n_total: usize = Self::total_visits(node);
        if n_total == 0 {
            return None;
        }
        let n: usize = node.valid_actions.len();
        if n == 0 {
            return None;
        }
        let scores: Vec<R> = self.puct_scores(root_id, c_puct.dup(), true, false);
        let mut best: usize = 0;
        let mut i: usize = 1;
        assert(most_visited(nv.valid_actions, nv.edge_visits, 0) is None);
        while i < n
            invariant
                1 <= i <= n,
                n == nv.valid_actions.len(),
                nv == node@,
                nv.wf(),
                0 <= best < i,
                most_visited(nv.valid_actions, nv.edge_visits, i as nat) == Some(best as int),
            decreases n - i,
        {
            let bv: usize = node.edge_visits[node.valid_actions[best].to_action_index()];
            let v: usize = node.edge_visits[node.valid_actions[i].to_action_index()];
            if bv < v {
                best = i;
            }
            i += 1;
        }
        let best_action: E::Act = node.valid_actions[best];
        let best_score: &R = &scores[best_action.to_action_index()];
        let mut left: Vec<usize> = Vec::with_capacity(n);
        let mut sum: usize = 0;
        let mut j: usize = 0;
        while j < n
            invariant
                j <= n,
                n == nv.valid_actions.len(),
                nv == node@,
                nv.wf(),
                nv.load() <= usize::MAX,
                t == self.tree(),
                tn == self.tuning(),
                best < n,
                best_child(nv) == nv.valid_actions[best as int],
                n_total == total(nv.edge_visits),
                *best_score == scores_of(t, nv, tn, c_puct, true, false)[best_child(
                    nv,
                ).spec_index() as int],
                left@.len() == j,
                forall|k: int|
                    0 <= k < j ==> #[trigger] left@[k] == pruned_visits(
                        t,
                        nv,
                        tn,
                        c_puct,
                        nv.valid_actions[k],
                    ),
                sum == kept_total(t, nv, tn, c_puct, j as nat),
            decreases n - j,
        {
            let a: E::Act = node.valid_actions[j];
            let v: usize = self.prune_edge(node, n_total, j == best, best_score, a, &c_puct);
            proof {
                lemma_pruned_bound(t, nv, tn, c_puct, (j + 1) as nat);
                lemma_slot_sum_bound(nv.valid_actions, nv.edge_visits, nv.num_actions, (j + 1) as nat);
            }
            left.push(v);
            if v > 1 {
                sum += v;
            }
            j += 1;
        }
        let mut target: HashMap<E::Act, R> = HashMap::new();
        if sum == 0 {
            target.insert(best_action, R::decimal(1, 0));
            return Some(target);
        }
        let whole: R = R::count(sum);
        let mut k: usize = 0;
        while k < n
            invariant
                k <= n,
                n == nv.valid_actions.len(),
                nv == node@,
                left@.len() == n,
                forall|i: int|
                    0 <= i < n ==> #[trigger] left@[i] == pruned_visits(
                        t,
                        nv,
                        tn,
                        c_puct,
                        nv.valid_actions[i],
                    ),
                vstd::std_specs::hash::obeys_key_model::<E::Act>(),
                whole == R::spec_count(sum),
                forall|a: E::Act| #[trigger]
                    target@.contains_key(a) <==> nv.valid_actions.take(k as int).contains(a)
                        && is_kept(t, nv, tn, c_puct, a),
                forall|a: E::Act| #[trigger]
                    target@.contains_key(a) ==> target@[a] == over(
                        R::spec_count(pruned_visits(t, nv, tn, c_puct, a)),
                        whole,
                    ),
            decreases n - k,
        {
            let v: usize = left[k];
            if v > 1 {
                target.insert(
                    node.valid_actions[k],
                    R::binary(Binary::Over, &R::count(v), &whole),
                );
            }
            proof {
                crate::mcts::lemma_take_contains(nv.valid_actions, k as int);
            }
            k += 1;
        }
        assert(nv.valid_actions.take(k as int) =~= nv.valid_actions);
        assert(target@ =~= target_of(t, nv, tn, c_puct));
        Some(target)
    }
}

/// Law: a policy target names only valid actions that were visited.
pub proof fn law_target_was_visited<A: Act, R: Scalar>(
    tree: Tree<A, R>,
    root_id: NodeId,
    tuning: Tuning<A, R>,
    c_puct: R,
    action: A,
)
    requires
        tree.contains_key(root_id),
        tree[root_id].wf(),
        spec_policy_target(tree, Some(root_id), tuning, c_puct) matches Some(m) && m.contains_key(
            action,
        ),
        exists|i: int|
            0 <= i < tree[root_id].valid_actions.len() && tree[root_id].edge_visits[(
            #[trigger] tree[root_id].valid_actions[i]).spec_index() as int] > 0,
    ensures
        tree[root_id].valid_actions.contains(action),
        tree[root_id].edge_visits[action.spec_index() as int] > 0,
{
    let node = tree[root_id];
    lemma_most_visited(node.valid_actions, node.edge_visits, node.valid_actions.len());
}

/// Law: a policy target is a distribution: the visits it counts for its actions add up to the
/// number that it divides them by, or it gives everything to the best child.
pub proof fn law_target_is_distribution<A: Act, R: Scalar>(
    tree: Tree<A, R>,
    node: NodeView<A, R>,
    tuning: Tuning<A, R>,
    c_puct: R,
)
    requires
        node.wf(),
        node.valid_actions.len() > 0,
    ensures
        ({
            let n = kept_total(tree, node, tuning, c_puct, node.valid_actions.len());
            let m = target_of(tree, node, tuning, c_puct);
            if n == 0 {
                m == Map::<A, R>::empty().insert(best_child(node), one::<R>())
            } else {
                forall|a: A| #[trigger]
                    m.contains_key(a) ==> m[a] == over(
                        R::spec_count(pruned_visits(tree, node, tuning, c_puct, a)),
                        R::spec_count(n as usize),
                    )
            }
        }),
        kept_total(tree, node, tuning, c_puct, node.valid_actions.len()) <= total(node.edge_visits),
{
    lemma_pruned_bound(tree, node, tuning, c_puct, node.valid_actions.len());
    lemma_slot_sum_bound(
        node.valid_actions,
        node.edge_visits,
        node.num_actions,
        node.valid_actions.len(),
    );
}

} // verus!
