//! What pruning leaves of the visits of a root, and what the policy target makes of it.

use crate::environment::Act;
use crate::node::{lemma_most_visited, NodeId, NodeView};
use crate::policy::{best_child, kept_total, pruned_visits, spec_policy_target};
use crate::puct_laws::lemma_total_folds;
use crate::scalar::{minus, over, plus, times, Binary, Scalar, Unary};
use crate::tree::{scores_of, Tree, Tuning};
use vstd::prelude::*;

verus! {

/// Whether the valid action at `m` is the first of those with the most visits.
pub open spec fn is_first_most_visited<A: Act, R: Scalar>(node: NodeView<A, R>, m: int) -> bool {
    &&& 0 <= m < node.valid_actions.len()
    &&& forall|i: int|
        0 <= i < node.valid_actions.len() ==> node.edge_visits[(
        #[trigger] node.valid_actions[i]).spec_index() as int]
            <= node.edge_visits[node.valid_actions[m].spec_index() as int]
    &&& forall|i: int|
        0 <= i < m ==> node.edge_visits[(#[trigger] node.valid_actions[i]).spec_index() as int]
            < node.edge_visits[node.valid_actions[m].spec_index() as int]
}

/// The best child is the first of those with the most visits.
proof fn lemma_best_child<A: Act, R: Scalar>(node: NodeView<A, R>, m: int)
    requires
        is_first_most_visited(node, m),
    ensures
        best_child(node) == node.valid_actions[m],
{
    let n = node.valid_actions.len();
    lemma_most_visited(node.valid_actions, node.edge_visits, n);
    let b = crate::node::most_visited(node.valid_actions, node.edge_visits, n)->0;
    let x = node.valid_actions[b];
    let y = node.valid_actions[m];
    if b < m {
        assert(node.edge_visits[x.spec_index() as int] < node.edge_visits[y.spec_index() as int]);
    }
    if m < b {
        assert(node.edge_visits[y.spec_index() as int] < node.edge_visits[x.spec_index() as int]);
    }
}

/// Law: pruning leaves the most visited child, the first of several, all its visits.
pub proof fn law_best_child_is_not_pruned<A: Act, R: Scalar>(
    tree: Tree<A, R>,
    node: NodeView<A, R>,
    tuning: Tuning<A, R>,
    c_puct: R,
    m: int,
)
    requires
        is_first_most_visited(node, m),
    ensures
        pruned_visits(tree, node, tuning, c_puct, node.valid_actions[m])
            == node.edge_visits[node.valid_actions[m].spec_index() as int],
{
    lemma_best_child(node, m);
}

/// Law: pruning takes off an edge no more visits than were forced on it, which is
/// `floor(sqrt(k_forced * prior * visits of the root))`, and adds none. It takes off none where the
/// value of the edge alone is not below the score of the most visited child, and none of an edge
/// without prior.
pub proof fn law_pruning_is_bounded<A: Act, R: Scalar>(
    tree: Tree<A, R>,
    node: NodeView<A, R>,
    tuning: Tuning<A, R>,
    c_puct: R,
    m: int,
    a: A,
)
    requires
        node.wf(),
        node.valid_actions.contains(a),
        is_first_most_visited(node, m),
    ensures
        ({
            let i = a.spec_index() as int;
            let prior = node.prior_probs[i];
            let visits = node.edge_visits.fold_left(0int, |sum: int, x: usize| sum + x);
            let forced = R::spec_to_count(
                R::spec_unary(
                    Unary::Floor,
                    R::spec_unary(
                        Unary::Sqrt,
                        times(times(tuning.k_forced, prior), R::spec_count(visits as usize)),
                    ),
                ),
            );
            let value = plus(
                if node.children[i] is Some && tree.contains_key(node.children[i]->0) {
                    tree[node.children[i]->0].value
                } else {
                    node.value
                },
                node.edge_penalties[i],
            );
            let best = scores_of(
                tree,
                node,
                tuning,
                c_puct,
                true,
                false,
            )[node.valid_actions[m].spec_index() as int];
            let gap = minus(best, value);
            let left = pruned_visits(tree, node, tuning, c_puct, a);
            &&& left <= node.edge_visits[i]
            &&& left + forced >= node.edge_visits[i]
            &&& R::spec_less(gap, R::spec_decimal(0, 0)) || R::spec_same(
                gap,
                R::spec_decimal(0, 0),
            ) ==> left == node.edge_visits[i]
            &&& R::spec_same(prior, R::spec_decimal(0, 0)) ==> left == node.edge_visits[i]
        }),
{
    lemma_best_child(node, m);
    lemma_total_folds(node.edge_visits);
}

/// Law: pruning takes off an edge the visits that were forced on it, or those that it can spare if
/// they are fewer: the visits past `c_puct * prior * sqrt(visits of the root) / gap - 1`, rounded
/// down, where the gap is what the value of the edge is below the score of the most visited child.
/// With no more visits than that an edge would still not score above that child.
pub proof fn law_pruning_takes_spare_forced_visits<A: Act, R: Scalar>(
    tree: Tree<A, R>,
    node: NodeView<A, R>,
    tuning: Tuning<A, R>,
    c_puct: R,
    m: int,
    a: A,
)
    requires
        node.wf(),
        node.valid_actions.contains(a),
        is_first_most_visited(node, m),
        a != node.valid_actions[m],
        !R::spec_same(node.prior_probs[a.spec_index() as int], R::spec_decimal(0, 0)),
    ensures
        ({
            let i = a.spec_index() as int;
            let prior = node.prior_probs[i];
            let visits = node.edge_visits.fold_left(0int, |sum: int, x: usize| sum + x);
            let forced = R::spec_to_count(
                R::spec_unary(
                    Unary::Floor,
                    R::spec_unary(
                        Unary::Sqrt,
                        times(times(tuning.k_forced, prior), R::spec_count(visits as usize)),
                    ),
                ),
            );
            let value = plus(
                if node.children[i] is Some && tree.contains_key(node.children[i]->0) {
                    tree[node.children[i]->0].value
                } else {
                    node.value
                },
                node.edge_penalties[i],
            );
            let best = scores_of(
                tree,
                node,
                tuning,
                c_puct,
                true,
                false,
            )[node.valid_actions[m].spec_index() as int];
            let gap = minus(best, value);
            let boundary = minus(
                over(
                    times(
                        times(c_puct, prior),
                        R::spec_unary(Unary::Sqrt, R::spec_count(visits as usize)),
                    ),
                    gap,
                ),
                R::spec_decimal(1, 0),
            );
            let spare = R::spec_to_count(
                R::spec_binary(
                    Binary::Max,
                    R::spec_unary(
                        Unary::Floor,
                        minus(R::spec_count(node.edge_visits[i]), boundary),
                    ),
                    R::spec_decimal(0, 0),
                ),
            );
            let left = pruned_visits(tree, node, tuning, c_puct, a);
            !R::spec_less(gap, R::spec_decimal(0, 0)) && !R::spec_same(
                gap,
                R::spec_decimal(0, 0),
            ) ==> {
                &&& forced <= spare && forced <= node.edge_visits[i] ==> left
                    == node.edge_visits[i] - forced
                &&& spare <= forced && spare <= node.edge_visits[i] ==> left
                    == node.edge_visits[i] - spare
                &&& forced > node.edge_visits[i] && spare > node.edge_visits[i] ==> left == 0
            }
        }),
{
    lemma_best_child(node, m);
    lemma_total_folds(node.edge_visits);
}

/// The visits that are kept, as a sum from the left.
proof fn lemma_kept_folds<A: Act, R: Scalar>(
    tree: Tree<A, R>,
    node: NodeView<A, R>,
    tuning: Tuning<A, R>,
    c_puct: R,
    k: nat,
)
    requires
        k <= node.valid_actions.len(),
    ensures
        kept_total(tree, node, tuning, c_puct, k) == node.valid_actions.take(k as int).fold_left(
            0int,
            |sum: int, a: A|
                if pruned_visits(tree, node, tuning, c_puct, a) > 1 {
                    sum + pruned_visits(tree, node, tuning, c_puct, a)
                } else {
                    sum
                },
        ),
        forall|i: int|
            0 <= i < k && pruned_visits(
                tree,
                node,
                tuning,
                c_puct,
                #[trigger] node.valid_actions[i],
            ) > 1 ==> kept_total(tree, node, tuning, c_puct, k) > 0,
    decreases k,
{
    if k > 0 {
        lemma_kept_folds(tree, node, tuning, c_puct, (k - 1) as nat);
        assert(node.valid_actions.take(k as int).drop_last() =~= node.valid_actions.take(k - 1));
    }
}

/// Law: a policy target is there exactly where the root was visited and has actions. It holds the
/// actions that keep more than one visit after pruning, each with its share of all that they keep;
/// or the most visited child alone, where none keeps more than one.
pub proof fn law_target_shares_kept_visits<A: Act, R: Scalar>(
    tree: Tree<A, R>,
    root_id: Option<NodeId>,
    tuning: Tuning<A, R>,
    c_puct: R,
    m: int,
    a: A,
)
    requires
        root_id is Some && tree.contains_key(root_id->0) && tree[root_id->0].valid_actions.len()
            > 0 ==> is_first_most_visited(tree[root_id->0], m),
    ensures
        ({
            let node = tree[root_id->0];
            let left = |b: A| pruned_visits(tree, node, tuning, c_puct, b);
            let kept = node.valid_actions.fold_left(
                0int,
                |sum: int, b: A|
                    if left(b) > 1 {
                        sum + left(b)
                    } else {
                        sum
                    },
            );
            match spec_policy_target(tree, root_id, tuning, c_puct) {
                None => root_id is None || !tree.contains_key(root_id->0)
                    || node.edge_visits.fold_left(0int, |sum: int, x: usize| sum + x) == 0
                    || node.valid_actions.len() == 0,
                Some(target) => {
                    &&& root_id is Some && tree.contains_key(root_id->0)
                    &&& node.edge_visits.fold_left(0int, |sum: int, x: usize| sum + x) > 0
                    &&& node.valid_actions.len() > 0
                    &&& kept > 0 ==> {
                        &&& target.contains_key(a) <==> node.valid_actions.contains(a) && left(a)
                            > 1
                        &&& target.contains_key(a) ==> target[a] == over(
                            R::spec_count(left(a)),
                            R::spec_count(kept as usize),
                        )
                    }
                    &&& kept == 0 ==> target == Map::<A, R>::empty().insert(
                        node.valid_actions[m],
                        R::spec_decimal(1, 0),
                    )
                },
            }
        }),
{
    let node = tree[root_id->0];
    lemma_total_folds(node.edge_visits);
    let n = node.valid_actions.len();
    lemma_kept_folds(tree, node, tuning, c_puct, n);
    assert(node.valid_actions.take(n as int) =~= node.valid_actions);
    let left = |b: A| pruned_visits(tree, node, tuning, c_puct, b);
    assert((|sum: int, b: A|
        if left(b) > 1 {
            sum + left(b)
        } else {
            sum
        }) =~= (|sum: int, a: A|
        if pruned_visits(tree, node, tuning, c_puct, a) > 1 {
            sum + pruned_visits(tree, node, tuning, c_puct, a)
        } else {
            sum
        }));
    if root_id is Some && tree.contains_key(root_id->0) && n > 0 {
        lemma_best_child(node, m);
    }
}

/// Law: an action with more than one visit past those that were forced on it is in the policy
/// target of its root.
pub proof fn law_unforced_visits_reach_the_target<A: Act, R: Scalar>(
    tree: Tree<A, R>,
    root_id: NodeId,
    tuning: Tuning<A, R>,
    c_puct: R,
    m: int,
    a: A,
)
    requires
        tree.contains_key(root_id),
        tree[root_id].wf(),
        tree[root_id].valid_actions.contains(a),
        is_first_most_visited(tree[root_id], m),
        tree[root_id].edge_visits[a.spec_index() as int] > 1 + R::spec_to_count(
            R::spec_unary(
                Unary::Floor,
                R::spec_unary(
                    Unary::Sqrt,
                    times(
                        times(tuning.k_forced, tree[root_id].prior_probs[a.spec_index() as int]),
                        R::spec_count(
                            tree[root_id].edge_visits.fold_left(
                                0int,
                                |sum: int, x: usize| sum + x,
                            ) as usize,
                        ),
                    ),
                ),
            ),
        ),
    ensures
        spec_policy_target(tree, Some(root_id), tuning, c_puct) matches Some(target)
            && target.contains_key(a),
{
    let node = tree[root_id];
    law_pruning_is_bounded(tree, node, tuning, c_puct, m, a);
    law_target_shares_kept_visits(tree, Some(root_id), tuning, c_puct, m, a);
    lemma_kept_folds(tree, node, tuning, c_puct, node.valid_actions.len());
    lemma_total_folds(node.edge_visits);
    let k = node.valid_actions.index_of(a);
    assert(node.valid_actions[k] == a);
    crate::node::lemma_total_bounds(node.edge_visits, a.spec_index() as int);
}

} // verus!
