//! What a search tree is, as a map from node ids to nodes, and what the steps of the search
//! do to it.

use crate::environment::{slots_ok, Act};
use crate::node::{total, NodeId, NodeView};
use crate::scalar::{minus, one, over, plus, root, times, zero, Binary, Scalar, Unary};
use vstd::prelude::*;

verus! {

/// A search tree: the nodes by their ids. It is a graph, since different paths can lead to
/// one state.
pub type Tree<A, R> = Map<NodeId, NodeView<A, R>>;

/// The settings of a search that the scores depend on.
#[verifier::reject_recursive_types(A)]
pub struct Tuning<A, R> {
    pub c_fpu: R,
    pub root_softmax_temp: R,
    pub k_forced: R,
    pub root_noise: Option<Map<A, R>>,
    pub root_noise_epsilon: R,
}

/// What a new search is tuned by.
pub open spec fn fresh_tuning<A, R: Scalar>() -> Tuning<A, R> {
    Tuning {
        c_fpu: R::spec_decimal(2, -1),
        root_softmax_temp: R::spec_decimal(103, -2),
        k_forced: R::spec_decimal(2, 0),
        root_noise: None,
        root_noise_epsilon: zero(),
    }
}

/// The tuning without noise.
pub open spec fn quiet<A, R: Scalar>(tuning: Tuning<A, R>) -> Tuning<A, R> {
    Tuning { root_noise: None, root_noise_epsilon: zero(), ..tuning }
}

/// The tree with the node `id` replaced by what `f` makes of it, where there is one.
pub open spec fn adjust<A, R>(
    tree: Tree<A, R>,
    id: NodeId,
    f: spec_fn(NodeView<A, R>) -> NodeView<A, R>,
) -> Tree<A, R> {
    if tree.contains_key(id) {
        tree.insert(id, f(tree[id]))
    } else {
        tree
    }
}

/// The visits of `action` at a node; 0 where it has no slot.
pub open spec fn visits_of<A: Act, R: Scalar>(node: NodeView<A, R>, action: A) -> usize {
    let i = action.spec_index() as int;
    if i < node.edge_visits.len() {
        node.edge_visits[i]
    } else {
        0
    }
}

/// The penalty of `action` at a node; 0 where it has no slot.
pub open spec fn penalty_of<A: Act, R: Scalar>(node: NodeView<A, R>, action: A) -> R {
    let i = action.spec_index() as int;
    if i < node.edge_penalties.len() {
        node.edge_penalties[i]
    } else {
        zero()
    }
}

/// The visits of the expanded edges among the first `k` valid actions.
pub open spec fn expanded_visits<A: Act, R: Scalar>(node: NodeView<A, R>, k: nat) -> nat
    decreases k,
{
    if k == 0 {
        0
    } else {
        let a = node.valid_actions[k - 1];
        expanded_visits(node, (k - 1) as nat) + (if node.child(a) is Some {
            visits_of(node, a) as nat
        } else {
            0
        })
    }
}

/// The child values of the first `k` valid actions, each with its penalty and weighted by its
/// visits, added up in order. Edges without visits or whose child is not in the tree are left
/// out.
pub open spec fn weighted_values<A: Act, R: Scalar>(
    tree: Tree<A, R>,
    node: NodeView<A, R>,
    k: nat,
) -> R
    decreases k,
{
    if k == 0 {
        zero()
    } else {
        let a = node.valid_actions[k - 1];
        let before = weighted_values(tree, node, (k - 1) as nat);
        match node.child(a) {
            Some(c) if visits_of(node, a) > 0 && tree.contains_key(c) => plus(
                before,
                times(
                    R::spec_count(visits_of(node, a)),
                    plus(tree[c].value, penalty_of(node, a)),
                ),
            ),
            _ => before,
        }
    }
}

/// Visits of expanded edges and virtual losses together: what the node's own value is
/// weighed against.
pub open spec fn backed_visits<A: Act, R: Scalar>(node: NodeView<A, R>) -> nat {
    expanded_visits(node, node.valid_actions.len()) + total(node.virtual_losses)
}

/// The node with its visit count and value computed anew from its edges: the value is the
/// average over the node's own estimate, taken once, and the children's values.
pub open spec fn recomputed<A: Act, R: Scalar>(
    tree: Tree<A, R>,
    node: NodeView<A, R>,
) -> NodeView<A, R> {
    let n = backed_visits(node);
    if n == 0 {
        NodeView { node_visits: 1, value: node.value_estimate, ..node }
    } else {
        NodeView {
            node_visits: (1 + n) as usize,
            value: over(
                plus(
                    node.value_estimate,
                    weighted_values(tree, node, node.valid_actions.len()),
                ),
                R::spec_count((1 + n) as usize),
            ),
            ..node
        }
    }
}

/// The prior mass of the visited ones among the first `k` valid actions.
pub open spec fn explored_mass<A: Act, R: Scalar>(node: NodeView<A, R>, k: nat) -> R
    decreases k,
{
    if k == 0 {
        zero()
    } else {
        let i = node.valid_actions[k - 1].spec_index() as int;
        let before = explored_mass(node, (k - 1) as nat);
        if node.edge_visits[i] > 0 {
            plus(before, node.prior_probs[i])
        } else {
            before
        }
    }
}

/// The sum of `buf` over the slots of the first `k` actions.
pub open spec fn mass<A: Act, R: Scalar>(actions: Seq<A>, buf: Seq<R>, k: nat) -> R
    decreases k,
{
    if k == 0 {
        zero()
    } else {
        plus(
            mass(actions, buf, (k - 1) as nat),
            buf[actions[k - 1].spec_index() as int],
        )
    }
}

/// `buf` with the slots of the first `k` actions changed by `f`, one after the other.
pub open spec fn change_slots<A: Act, R: Scalar>(
    actions: Seq<A>,
    buf: Seq<R>,
    f: spec_fn(A, R) -> R,
    k: nat,
) -> Seq<R>
    decreases k,
{
    if k == 0 {
        buf
    } else {
        let a = actions[k - 1];
        let i = a.spec_index() as int;
        let before = change_slots(actions, buf, f, (k - 1) as nat);
        before.update(i, f(a, before[i]))
    }
}

/// `buf` divided by its mass over `actions`, where that is positive.
pub open spec fn normalized<A: Act, R: Scalar>(actions: Seq<A>, buf: Seq<R>) -> Seq<R> {
    let m = mass(actions, buf, actions.len());
    if R::spec_less(zero(), m) {
        change_slots(actions, buf, |a: A, x: R| over(x, m), actions.len())
    } else {
        buf
    }
}

/// One prior blended with noise: `(1 - epsilon) * p + epsilon * n`.
pub open spec fn blend<R: Scalar>(p: R, n: R, epsilon: R) -> R {
    plus(times(minus(one(), epsilon), p), times(epsilon, n))
}

/// The noise registered for an action; 0 where there is none.
pub open spec fn noise_of<A: Act, R: Scalar>(noise: Map<A, R>, action: A) -> R {
    if noise.contains_key(action) {
        noise[action]
    } else {
        zero()
    }
}

/// The priors of a root after blending in the noise.
pub open spec fn noisy_priors<A: Act, R: Scalar>(
    node: NodeView<A, R>,
    noise: Map<A, R>,
    epsilon: R,
) -> Seq<R> {
    normalized(
        node.valid_actions,
        change_slots(
            node.valid_actions,
            node.prior_probs,
            |a: A, x: R|
                blend(node.prior_probs[a.spec_index() as int], noise_of(noise, a), epsilon),
            node.valid_actions.len(),
        ),
    )
}

/// Priors raised to the power `1 / temp`.
pub open spec fn tempered_priors<A: Act, R: Scalar>(
    actions: Seq<A>,
    priors: Seq<R>,
    temp: R,
) -> Seq<R> {
    normalized(
        actions,
        change_slots(
            actions,
            priors,
            |a: A, x: R|
                R::spec_binary(
                    Binary::Power,
                    R::spec_binary(Binary::Max, x, R::spec_decimal(1, -30)),
                    over(one(), temp),
                ),
            actions.len(),
        ),
    )
}

/// Whether a temperature is far enough from 1 to be applied.
pub open spec fn tempers<R: Scalar>(temp: R) -> bool {
    R::spec_less(R::spec_decimal(1, -6), R::spec_unary(Unary::Abs, minus(temp, one())))
}

/// The priors that a node is scored with: its own, and at the root those after the noise and
/// the softmax temperature.
pub open spec fn effective_priors<A: Act, R: Scalar>(
    node: NodeView<A, R>,
    tuning: Tuning<A, R>,
    is_root: bool,
) -> Seq<R> {
    if !is_root {
        node.prior_probs
    } else {
        let noisy = match tuning.root_noise {
            Some(noise) => noisy_priors(node, noise, tuning.root_noise_epsilon),
            None => node.prior_probs,
        };
        if tempers(tuning.root_softmax_temp) {
            tempered_priors(node.valid_actions, noisy, tuning.root_softmax_temp)
        } else {
            noisy
        }
    }
}

/// The value assumed of an edge that was not expanded: the node's own value less `c_fpu` times
/// the root of the explored prior mass; at the root just the node's value less nothing.
pub open spec fn first_play_value<A: Act, R: Scalar>(
    node: NodeView<A, R>,
    tuning: Tuning<A, R>,
    is_root: bool,
) -> R {
    minus(
        node.value,
        times(
            if is_root {
                zero()
            } else {
                tuning.c_fpu
            },
            root(explored_mass(node, node.valid_actions.len())),
        ),
    )
}

/// The value of an edge: that of its child, or `fpu` where the child is not in the tree, and
/// the penalty.
pub open spec fn edge_value<A: Act, R: Scalar>(
    tree: Tree<A, R>,
    node: NodeView<A, R>,
    action: A,
    fpu: R,
) -> R {
    let penalty = node.edge_penalties[action.spec_index() as int];
    match node.child(action) {
        Some(c) if tree.contains_key(c) => plus(tree[c].value, penalty),
        _ => plus(fpu, penalty),
    }
}

/// The number of visits that a root edge is forced to have.
pub open spec fn forced_visits<R: Scalar>(k_forced: R, prior: R, visits: nat) -> R {
    root(times(times(k_forced, prior), R::spec_count(visits as usize)))
}

/// The score of one edge.
pub open spec fn edge_score<A: Act, R: Scalar>(
    tree: Tree<A, R>,
    node: NodeView<A, R>,
    tuning: Tuning<A, R>,
    c_puct: R,
    is_root: bool,
    apply_forced: bool,
    action: A,
) -> R {
    let i = action.spec_index() as int;
    let n = total(node.edge_visits);
    let prior = effective_priors(node, tuning, is_root)[i];
    if is_root && apply_forced && n > 0 && R::spec_less(
        R::spec_count(node.edge_visits[i]),
        forced_visits(tuning.k_forced, prior, n),
    ) {
        R::spec_infinity(true)
    } else {
        plus(
            edge_value(tree, node, action, first_play_value(node, tuning, is_root)),
            times(
                times(c_puct, prior),
                over(
                    plus(root(R::spec_count(n as usize)), R::spec_decimal(1, -8)),
                    plus(
                        one(),
                        R::spec_count((node.edge_visits[i] + node.virtual_losses[i]) as usize),
                    ),
                ),
            ),
        )
    }
}

/// The scores of all slots: minus infinity where no valid action has the slot.
pub open spec fn scores_of<A: Act, R: Scalar>(
    tree: Tree<A, R>,
    node: NodeView<A, R>,
    tuning: Tuning<A, R>,
    c_puct: R,
    is_root: bool,
    apply_forced: bool,
) -> Seq<R> {
    change_slots(
        node.valid_actions,
        Seq::new(node.num_actions as nat, |i: int| R::spec_infinity(false)),
        |a: A, x: R| edge_score(tree, node, tuning, c_puct, is_root, apply_forced, a),
        node.valid_actions.len(),
    )
}

/// Among the first `k` actions the position of the one with the highest score: a later one
/// replaces an earlier one unless its score is below.
pub open spec fn best_scored<A: Act, R: Scalar>(actions: Seq<A>, scores: Seq<R>, k: nat) -> Option<
    int,
>
    decreases k,
{
    if k == 0 {
        None
    } else {
        match best_scored(actions, scores, (k - 1) as nat) {
            Some(b) if R::spec_less(
                scores[actions[k - 1].spec_index() as int],
                scores[actions[b].spec_index() as int],
            ) => Some(b),
            _ => Some(k - 1),
        }
    }
}

/// The action that a playout takes at the node `id`.
pub open spec fn chosen_action<A: Act, R: Scalar>(
    tree: Tree<A, R>,
    tuning: Tuning<A, R>,
    id: NodeId,
    c_puct: R,
    is_root: bool,
    apply_forced: bool,
) -> Option<A> {
    if !tree.contains_key(id) {
        None
    } else {
        let node = tree[id];
        let scores = scores_of(tree, node, tuning, c_puct, is_root, apply_forced);
        match best_scored(node.valid_actions, scores, node.valid_actions.len()) {
            Some(b) => Some(node.valid_actions[b]),
            None => None,
        }
    }
}

/// The sum of the priors of the first `k` actions that have one.
pub open spec fn prior_mass<A: Act, R: Scalar>(priors: Map<A, R>, actions: Seq<A>, k: nat) -> R
    decreases k,
{
    if k == 0 {
        zero()
    } else {
        let before = prior_mass(priors, actions, (k - 1) as nat);
        if priors.contains_key(actions[k - 1]) {
            plus(before, priors[actions[k - 1]])
        } else {
            before
        }
    }
}

/// The priors cut down to `actions` and divided by their sum; uniform where the sum is 0.
pub open spec fn spec_normalize_prior<A: Act, R: Scalar>(
    priors: Map<A, R>,
    actions: Seq<A>,
) -> Map<A, R> {
    let m = prior_mass(priors, actions, actions.len());
    if R::spec_same(m, zero()) {
        Map::new(
            |a: A| actions.contains(a),
            |a: A| over(one(), R::spec_count(actions.len() as usize)),
        )
    } else {
        Map::new(
            |a: A| actions.contains(a) && priors.contains_key(a),
            |a: A| over(priors[a], m),
        )
    }
}

/// Whether the scores of some actions can be compared: which one is less never goes in a circle,
/// and what is between two of them is told apart from one of the two.
pub open spec fn can_rank<A, R: Scalar>(actions: Seq<A>, score: spec_fn(A) -> R) -> bool {
    &&& forall|a: A, b: A|
        #![trigger score(a), score(b)]
        actions.contains(a) && actions.contains(b) && R::spec_less(score(a), score(b))
            ==> !R::spec_less(score(b), score(a))
    &&& forall|a: A, b: A, c: A|
        #![trigger score(a), score(b), score(c)]
        actions.contains(a) && actions.contains(b) && actions.contains(c) && R::spec_less(
            score(a),
            score(c),
        ) ==> R::spec_less(score(a), score(b)) || R::spec_less(score(b), score(c))
}

/// A slot holds what the function makes for the action that has it.
proof fn lemma_slot_scores<A: Act, R: Scalar>(
    actions: Seq<A>,
    num_actions: usize,
    buf: Seq<R>,
    score: spec_fn(A) -> R,
    k: nat,
)
    requires
        k <= actions.len(),
        buf.len() == num_actions,
        slots_ok(actions, num_actions),
        actions.no_duplicates(),
    ensures
        change_slots(actions, buf, |a: A, x: R| score(a), k).len() == num_actions,
        forall|i: int|
            0 <= i < k ==> change_slots(actions, buf, |a: A, x: R| score(a), k)[(
            #[trigger] actions[i]).spec_index() as int] == score(actions[i]),
    decreases k,
{
    if k > 0 {
        lemma_slot_scores(actions, num_actions, buf, score, (k - 1) as nat);
        assert forall|i: int| 0 <= i < k - 1 implies (#[trigger] actions[i]).spec_index()
            != actions[k - 1].spec_index() by {}
    }
}

/// None of the first `k` actions scores above the best of them.
proof fn lemma_best_is_highest<A: Act, R: Scalar>(
    actions: Seq<A>,
    scores: Seq<R>,
    score: spec_fn(A) -> R,
    k: nat,
)
    requires
        k <= actions.len(),
        can_rank(actions, score),
        forall|i: int|
            0 <= i < actions.len() ==> scores[(#[trigger] actions[i]).spec_index() as int] == score(
                actions[i],
            ),
    ensures
        match best_scored(actions, scores, k) {
            Some(b) => 0 <= b < k && forall|i: int|
                0 <= i < k ==> !R::spec_less(score(actions[b]), score(#[trigger] actions[i])),
            None => k == 0,
        },
    decreases k,
{
    if k > 0 {
        let l = (k - 1) as nat;
        lemma_best_is_highest(actions, scores, score, l);
        let x = actions[k - 1];
        assert(actions.contains(x));
        match best_scored(actions, scores, l) {
            Some(b) => {
                let y = actions[b];
                assert(actions.contains(y));
                if R::spec_less(score(x), score(y)) {
                } else {
                    assert forall|i: int| 0 <= i < k implies !R::spec_less(
                        score(x),
                        score(#[trigger] actions[i]),
                    ) by {
                        let z = actions[i];
                        assert(actions.contains(z));
                        if i < l && R::spec_less(score(x), score(z)) {
                            assert(R::spec_less(score(x), score(y)) || R::spec_less(
                                score(y),
                                score(z),
                            ));
                        }
                    }
                }
            },
            None => {
            },
        }
    }
}

/// Law: the action that a playout takes at a node scores highest: no valid action scores above
/// it, where the scores can be compared.
pub proof fn law_puct_takes_highest<A: Act, R: Scalar>(
    tree: Tree<A, R>,
    tuning: Tuning<A, R>,
    id: NodeId,
    c_puct: R,
    is_root: bool,
    apply_forced: bool,
    other: A,
)
    requires
        tree.contains_key(id),
        tree[id].wf(),
        tree[id].valid_actions.contains(other),
        can_rank(
            tree[id].valid_actions,
            |a: A| edge_score(tree, tree[id], tuning, c_puct, is_root, apply_forced, a),
        ),
    ensures
        match chosen_action(tree, tuning, id, c_puct, is_root, apply_forced) {
            Some(a) => tree[id].valid_actions.contains(a) && !R::spec_less(
                edge_score(tree, tree[id], tuning, c_puct, is_root, apply_forced, a),
                edge_score(tree, tree[id], tuning, c_puct, is_root, apply_forced, other),
            ),
            None => false,
        },
{
    let node = tree[id];
    let actions = node.valid_actions;
    let score = |a: A| edge_score(tree, node, tuning, c_puct, is_root, apply_forced, a);
    let scores = scores_of(tree, node, tuning, c_puct, is_root, apply_forced);
    let empty = Seq::new(node.num_actions as nat, |i: int| R::spec_infinity(false));
    assert((|a: A, x: R| edge_score(tree, node, tuning, c_puct, is_root, apply_forced, a)) =~= (
    |a: A, x: R| score(a)));
    lemma_slot_scores(actions, node.num_actions, empty, score, actions.len());
    lemma_best_is_highest(actions, scores, score, actions.len());
    let m = actions.index_of(other);
    assert(actions[m] == other);
}

} // verus!
