//! What the scores of a search do: which edges they prefer, and what each of their parts depends
//! on.

use crate::environment::{slots_ok, Act};
use crate::node::{total, NodeId, NodeView};
use crate::scalar::{minus, one, over, plus, root, times, zero, Binary, Scalar, Unary};
use crate::tree::{
    best_scored, can_rank, change_slots, chosen_action, edge_score, effective_priors,
    explored_mass, law_puct_takes_highest, mass, noisy_priors, normalized, scores_of,
    tempered_priors, Tree, Tuning,
};
use vstd::prelude::*;

verus! {

/// The visits of a prefix, as a sum from the left.
pub proof fn lemma_total_folds(s: Seq<usize>)
    ensures
        total(s) == s.fold_left(0int, |sum: int, x: usize| sum + x),
    decreases s.len(),
{
    if s.len() > 0 {
        lemma_total_folds(s.drop_last());
    }
}

/// The prior mass of visited actions, as a sum from the left.
proof fn lemma_explored_folds<A: Act, R: Scalar>(node: NodeView<A, R>, k: nat)
    requires
        k <= node.valid_actions.len(),
    ensures
        explored_mass(node, k) == node.valid_actions.take(k as int).fold_left(
            zero(),
            |sum: R, a: A|
                if node.edge_visits[a.spec_index() as int] > 0 {
                    plus(sum, node.prior_probs[a.spec_index() as int])
                } else {
                    sum
                },
        ),
    decreases k,
{
    if k > 0 {
        lemma_explored_folds(node, (k - 1) as nat);
        let s = node.valid_actions.take(k as int);
        assert(s.drop_last() =~= node.valid_actions.take(k - 1));
    }
}

/// The mass of a buffer over some actions, as a sum from the left.
proof fn lemma_mass_folds<A: Act, R: Scalar>(actions: Seq<A>, buf: Seq<R>, k: nat)
    requires
        k <= actions.len(),
    ensures
        mass(actions, buf, k) == actions.take(k as int).fold_left(
            zero(),
            |sum: R, a: A| plus(sum, buf[a.spec_index() as int]),
        ),
    decreases k,
{
    if k > 0 {
        lemma_mass_folds(actions, buf, (k - 1) as nat);
        assert(actions.take(k as int).drop_last() =~= actions.take(k - 1));
    }
}

/// Changing slots changes the slot of each action once, and no other slot.
proof fn lemma_changed<A: Act, R: Scalar>(
    actions: Seq<A>,
    n: usize,
    buf: Seq<R>,
    f: spec_fn(A, R) -> R,
    k: nat,
)
    requires
        k <= actions.len(),
        buf.len() == n,
        slots_ok(actions, n),
        actions.no_duplicates(),
    ensures
        change_slots(actions, buf, f, k).len() == n,
        forall|i: int|
            0 <= i < k ==> change_slots(actions, buf, f, k)[(
            #[trigger] actions[i]).spec_index() as int] == f(
                actions[i],
                buf[actions[i].spec_index() as int],
            ),
        forall|i: int|
            k <= i < actions.len() ==> change_slots(actions, buf, f, k)[(
            #[trigger] actions[i]).spec_index() as int] == buf[actions[i].spec_index() as int],
        forall|j: int|
            0 <= j < n && (forall|i: int|
                0 <= i < actions.len() ==> (#[trigger] actions[i]).spec_index() != j)
                ==> #[trigger] change_slots(actions, buf, f, k)[j] == buf[j],
    decreases k,
{
    if k > 0 {
        lemma_changed(actions, n, buf, f, (k - 1) as nat);
        assert forall|i: int| 0 <= i < actions.len() && i != k - 1 implies (
        #[trigger] actions[i]).spec_index() != actions[k - 1].spec_index() by {}
    }
}

/// A slot of the scores holds the score of the action that has it.
proof fn lemma_score_slot<A: Act, R: Scalar>(
    tree: Tree<A, R>,
    node: NodeView<A, R>,
    tuning: Tuning<A, R>,
    c_puct: R,
    is_root: bool,
    apply_forced: bool,
    a: A,
)
    requires
        node.wf(),
        node.valid_actions.contains(a),
    ensures
        scores_of(tree, node, tuning, c_puct, is_root, apply_forced)[a.spec_index() as int]
            == edge_score(tree, node, tuning, c_puct, is_root, apply_forced, a),
{
    let empty = Seq::new(node.num_actions as nat, |i: int| R::spec_infinity(false));
    let f = |a: A, x: R| edge_score(tree, node, tuning, c_puct, is_root, apply_forced, a);
    lemma_changed(node.valid_actions, node.num_actions, empty, f, node.valid_actions.len());
    let m = node.valid_actions.index_of(a);
    assert(node.valid_actions[m] == a);
    assert(scores_of(tree, node, tuning, c_puct, is_root, apply_forced) == change_slots(
        node.valid_actions,
        empty,
        f,
        node.valid_actions.len(),
    ));
}

/// Law: a slot that no valid action has scores minus infinity, whatever the tree holds.
pub proof fn law_other_slots_score_lowest<A: Act, R: Scalar>(
    tree: Tree<A, R>,
    node: NodeView<A, R>,
    tuning: Tuning<A, R>,
    c_puct: R,
    is_root: bool,
    apply_forced: bool,
    slot: int,
)
    requires
        node.wf(),
        0 <= slot < node.num_actions,
        forall|i: int|
            0 <= i < node.valid_actions.len() ==> (#[trigger] node.valid_actions[i]).spec_index()
                != slot,
    ensures
        scores_of(tree, node, tuning, c_puct, is_root, apply_forced).len() == node.num_actions,
        scores_of(tree, node, tuning, c_puct, is_root, apply_forced)[slot] == R::spec_infinity(
            false,
        ),
{
    let empty = Seq::new(node.num_actions as nat, |i: int| R::spec_infinity(false));
    let f = |a: A, x: R| edge_score(tree, node, tuning, c_puct, is_root, apply_forced, a);
    lemma_changed(node.valid_actions, node.num_actions, empty, f, node.valid_actions.len());
    assert(scores_of(tree, node, tuning, c_puct, is_root, apply_forced) == change_slots(
        node.valid_actions,
        empty,
        f,
        node.valid_actions.len(),
    ));
    assert(empty[slot] == R::spec_infinity(false));
}

/// Law: an edge whose child is in the tree scores the value of that child and its penalty, and a
/// bonus that grows with the prior and with the visits of the node, and shrinks with the visits
/// and the virtual losses of the edge.
pub proof fn law_expanded_edge_scores_by_child<A: Act, R: Scalar>(
    tree: Tree<A, R>,
    node: NodeView<A, R>,
    tuning: Tuning<A, R>,
    c_puct: R,
    is_root: bool,
    a: A,
    c: NodeId,
)
    requires
        node.wf(),
        node.valid_actions.contains(a),
        node.children[a.spec_index() as int] == Some(c),
        tree.contains_key(c),
    ensures
        scores_of(tree, node, tuning, c_puct, is_root, false)[a.spec_index() as int] == ({
            let i = a.spec_index() as int;
            let visits = node.edge_visits.fold_left(0int, |sum: int, x: usize| sum + x);
            let prior = if is_root {
                effective_priors(node, tuning, true)[i]
            } else {
                node.prior_probs[i]
            };
            plus(
                plus(tree[c].value, node.edge_penalties[i]),
                times(
                    times(c_puct, prior),
                    over(
                        plus(
                            R::spec_unary(Unary::Sqrt, R::spec_count(visits as usize)),
                            R::spec_decimal(1, -8),
                        ),
                        plus(
                            R::spec_decimal(1, 0),
                            R::spec_count((node.edge_visits[i] + node.virtual_losses[i]) as usize),
                        ),
                    ),
                ),
            )
        }),
{
    lemma_score_slot(tree, node, tuning, c_puct, is_root, false, a);
    lemma_total_folds(node.edge_visits);
}

/// Law: an edge whose child is not in the tree scores as if its child had the value of first-play
/// urgency: the value of the node less, off the root, `c_fpu` times the square root of the prior
/// mass of the actions that were visited.
pub proof fn law_unexpanded_edge_scores_by_urgency<A: Act, R: Scalar>(
    tree: Tree<A, R>,
    node: NodeView<A, R>,
    tuning: Tuning<A, R>,
    c_puct: R,
    is_root: bool,
    a: A,
)
    requires
        node.wf(),
        node.valid_actions.contains(a),
        node.children[a.spec_index() as int] matches Some(c) ==> !tree.contains_key(c),
    ensures
        scores_of(tree, node, tuning, c_puct, is_root, false)[a.spec_index() as int] == ({
            let i = a.spec_index() as int;
            let visits = node.edge_visits.fold_left(0int, |sum: int, x: usize| sum + x);
            let explored = node.valid_actions.fold_left(
                zero(),
                |sum: R, b: A|
                    if node.edge_visits[b.spec_index() as int] > 0 {
                        plus(sum, node.prior_probs[b.spec_index() as int])
                    } else {
                        sum
                    },
            );
            let urgency = if is_root {
                R::spec_decimal(0, 0)
            } else {
                tuning.c_fpu
            };
            let prior = if is_root {
                effective_priors(node, tuning, true)[i]
            } else {
                node.prior_probs[i]
            };
            plus(
                plus(
                    minus(node.value, times(urgency, R::spec_unary(Unary::Sqrt, explored))),
                    node.edge_penalties[i],
                ),
                times(
                    times(c_puct, prior),
                    over(
                        plus(
                            R::spec_unary(Unary::Sqrt, R::spec_count(visits as usize)),
                            R::spec_decimal(1, -8),
                        ),
                        plus(
                            R::spec_decimal(1, 0),
                            R::spec_count((node.edge_visits[i] + node.virtual_losses[i]) as usize),
                        ),
                    ),
                ),
            )
        }),
{
    lemma_score_slot(tree, node, tuning, c_puct, is_root, false, a);
    lemma_total_folds(node.edge_visits);
    lemma_explored_folds(node, node.valid_actions.len());
    assert(node.valid_actions.take(node.valid_actions.len() as int) =~= node.valid_actions);
}

/// Law: forced playouts concern the root alone. There an edge with fewer visits than
/// `sqrt(k_forced * prior * visits of the node)` scores infinity, and any other edge, and every
/// edge of a node without visits, scores as without them.
pub proof fn law_forced_edges_score_highest<A: Act, R: Scalar>(
    tree: Tree<A, R>,
    node: NodeView<A, R>,
    tuning: Tuning<A, R>,
    c_puct: R,
    is_root: bool,
    a: A,
)
    requires
        node.wf(),
        node.valid_actions.contains(a),
    ensures
        ({
            let i = a.spec_index() as int;
            let visits = node.edge_visits.fold_left(0int, |sum: int, x: usize| sum + x);
            let least = R::spec_unary(
                Unary::Sqrt,
                times(
                    times(tuning.k_forced, effective_priors(node, tuning, true)[i]),
                    R::spec_count(visits as usize),
                ),
            );
            scores_of(tree, node, tuning, c_puct, is_root, true)[i] == (if is_root && visits > 0
                && R::spec_less(R::spec_count(node.edge_visits[i]), least) {
                R::spec_infinity(true)
            } else {
                scores_of(tree, node, tuning, c_puct, is_root, false)[i]
            })
        }),
{
    lemma_score_slot(tree, node, tuning, c_puct, is_root, true, a);
    lemma_score_slot(tree, node, tuning, c_puct, is_root, false, a);
    lemma_total_folds(node.edge_visits);
}

/// Law: off the root the noise, the temperature and forced playouts make no difference; at the root
/// the reduction of first-play urgency makes none.
pub proof fn law_root_settings_stay_at_the_root<A: Act, R: Scalar>(
    tree: Tree<A, R>,
    node: NodeView<A, R>,
    x: Tuning<A, R>,
    y: Tuning<A, R>,
    c_puct: R,
    forced: bool,
    other_forced: bool,
    a: A,
)
    requires
        node.wf(),
        node.valid_actions.contains(a),
    ensures
        x.c_fpu == y.c_fpu ==> scores_of(
            tree,
            node,
            x,
            c_puct,
            false,
            forced,
        )[a.spec_index() as int] == scores_of(
            tree,
            node,
            y,
            c_puct,
            false,
            other_forced,
        )[a.spec_index() as int],
        y == (Tuning { c_fpu: y.c_fpu, ..x }) ==> scores_of(
            tree,
            node,
            x,
            c_puct,
            true,
            forced,
        )[a.spec_index() as int] == scores_of(
            tree,
            node,
            y,
            c_puct,
            true,
            forced,
        )[a.spec_index() as int],
{
    lemma_score_slot(tree, node, x, c_puct, false, forced, a);
    lemma_score_slot(tree, node, y, c_puct, false, other_forced, a);
    lemma_score_slot(tree, node, x, c_puct, true, forced, a);
    lemma_score_slot(tree, node, y, c_puct, true, forced, a);
}

/// A normalized buffer holds each number divided by the sum of all, where that is positive.
proof fn lemma_normalized<A: Act, R: Scalar>(actions: Seq<A>, n: usize, buf: Seq<R>, a: A)
    requires
        buf.len() == n,
        slots_ok(actions, n),
        actions.no_duplicates(),
        actions.contains(a),
    ensures
        normalized(actions, buf).len() == n,
        normalized(actions, buf)[a.spec_index() as int] == ({
            let sum = actions.fold_left(
                zero(),
                |sum: R, b: A| plus(sum, buf[b.spec_index() as int]),
            );
            if R::spec_less(zero(), sum) {
                over(buf[a.spec_index() as int], sum)
            } else {
                buf[a.spec_index() as int]
            }
        }),
{
    let m = mass(actions, buf, actions.len());
    lemma_mass_folds(actions, buf, actions.len());
    assert(actions.take(actions.len() as int) =~= actions);
    lemma_changed(actions, n, buf, |a: A, x: R| over(x, m), actions.len());
    assert(actions[actions.index_of(a)] == a);
}

/// Sums from the left over numbers that agree are the same.
proof fn lemma_fold_same<A, R: Scalar>(
    actions: Seq<A>,
    f: spec_fn(R, A) -> R,
    g: spec_fn(R, A) -> R,
)
    requires
        forall|i: int, x: R|
            0 <= i < actions.len() ==> #[trigger] f(x, actions[i]) == g(x, actions[i]),
    ensures
        actions.fold_left(zero(), f) == actions.fold_left(zero(), g),
    decreases actions.len(),
{
    if actions.len() > 0 {
        let init = actions.drop_last();
        assert forall|i: int, x: R| 0 <= i < init.len() implies #[trigger] f(x, init[i]) == g(
            x,
            init[i],
        ) by {
            assert(init[i] == actions[i]);
        }
        lemma_fold_same(init, f, g);
        let x = init.fold_left(zero(), f);
        assert(f(x, actions[actions.len() - 1]) == g(x, actions[actions.len() - 1]));
    }
}

/// Law: without noise, and with a temperature that is within a millionth of 1, a root is scored by
/// the priors of its node.
pub proof fn law_quiet_root_keeps_priors<A: Act, R: Scalar>(
    node: NodeView<A, R>,
    tuning: Tuning<A, R>,
)
    requires
        tuning.root_noise is None,
        !R::spec_less(
            R::spec_decimal(1, -6),
            R::spec_unary(Unary::Abs, minus(tuning.root_softmax_temp, R::spec_decimal(1, 0))),
        ),
    ensures
        effective_priors(node, tuning, true) == node.prior_probs,
{
}

/// Law: the noise of a root takes the share `epsilon` of each prior, and the prior keeps the rest;
/// an action without noise counts as 0. The priors are then divided by their sum, where that is
/// positive. What the temperature does is done after that.
pub proof fn law_noise_is_blended_in<A: Act, R: Scalar>(
    node: NodeView<A, R>,
    tuning: Tuning<A, R>,
    noise: Map<A, R>,
    a: A,
)
    requires
        node.wf(),
        node.valid_actions.contains(a),
        tuning.root_noise == Some(noise),
        !R::spec_less(
            R::spec_decimal(1, -6),
            R::spec_unary(Unary::Abs, minus(tuning.root_softmax_temp, R::spec_decimal(1, 0))),
        ),
    ensures
        effective_priors(node, tuning, true)[a.spec_index() as int] == ({
            let epsilon = tuning.root_noise_epsilon;
            let blended = |b: A|
                plus(
                    times(
                        minus(R::spec_decimal(1, 0), epsilon),
                        node.prior_probs[b.spec_index() as int],
                    ),
                    times(
                        epsilon,
                        if noise.contains_key(b) {
                            noise[b]
                        } else {
                            R::spec_decimal(0, 0)
                        },
                    ),
                );
            let sum = node.valid_actions.fold_left(
                R::spec_decimal(0, 0),
                |sum: R, b: A| plus(sum, blended(b)),
            );
            if R::spec_less(R::spec_decimal(0, 0), sum) {
                over(blended(a), sum)
            } else {
                blended(a)
            }
        }),
{
    lemma_noisy(node, noise, tuning.root_noise_epsilon, a);
}

/// What noise makes of the prior of an action.
proof fn lemma_noisy<A: Act, R: Scalar>(node: NodeView<A, R>, noise: Map<A, R>, epsilon: R, a: A)
    requires
        node.wf(),
        node.valid_actions.contains(a),
    ensures
        noisy_priors(node, noise, epsilon).len() == node.num_actions,
        noisy_priors(node, noise, epsilon)[a.spec_index() as int] == ({
            let blended = |b: A|
                plus(
                    times(
                        minus(R::spec_decimal(1, 0), epsilon),
                        node.prior_probs[b.spec_index() as int],
                    ),
                    times(
                        epsilon,
                        if noise.contains_key(b) {
                            noise[b]
                        } else {
                            R::spec_decimal(0, 0)
                        },
                    ),
                );
            let sum = node.valid_actions.fold_left(
                R::spec_decimal(0, 0),
                |sum: R, b: A| plus(sum, blended(b)),
            );
            if R::spec_less(R::spec_decimal(0, 0), sum) {
                over(blended(a), sum)
            } else {
                blended(a)
            }
        }),
{
    let actions = node.valid_actions;
    let f = |a: A, x: R|
        crate::tree::blend(
            node.prior_probs[a.spec_index() as int],
            crate::tree::noise_of(noise, a),
            epsilon,
        );
    let buf = change_slots(actions, node.prior_probs, f, actions.len());
    lemma_changed(actions, node.num_actions, node.prior_probs, f, actions.len());
    lemma_normalized(actions, node.num_actions, buf, a);
    let blended = |b: A|
        plus(
            times(
                minus(R::spec_decimal(1, 0), epsilon),
                node.prior_probs[b.spec_index() as int],
            ),
            times(
                epsilon,
                if noise.contains_key(b) {
                    noise[b]
                } else {
                    R::spec_decimal(0, 0)
                },
            ),
        );
    let g = |sum: R, b: A| plus(sum, buf[b.spec_index() as int]);
    let h = |sum: R, b: A| plus(sum, blended(b));
    lemma_fold_same(actions, g, h);
    assert(actions[actions.index_of(a)] == a);
}

/// Law: the temperature of a root raises each prior, at least 1e-30, to the power of its inverse
/// and divides the powers by their sum, where that is positive.
pub proof fn law_temperature_is_applied<A: Act, R: Scalar>(
    node: NodeView<A, R>,
    tuning: Tuning<A, R>,
    a: A,
)
    requires
        node.wf(),
        node.valid_actions.contains(a),
        R::spec_less(
            R::spec_decimal(1, -6),
            R::spec_unary(Unary::Abs, minus(tuning.root_softmax_temp, R::spec_decimal(1, 0))),
        ),
    ensures
        effective_priors(node, tuning, true)[a.spec_index() as int] == ({
            let before = match tuning.root_noise {
                Some(noise) => noisy_priors(node, noise, tuning.root_noise_epsilon),
                None => node.prior_probs,
            };
            let power = |b: A|
                R::spec_binary(
                    Binary::Power,
                    R::spec_binary(
                        Binary::Max,
                        before[b.spec_index() as int],
                        R::spec_decimal(1, -30),
                    ),
                    over(R::spec_decimal(1, 0), tuning.root_softmax_temp),
                );
            let sum = node.valid_actions.fold_left(
                R::spec_decimal(0, 0),
                |sum: R, b: A| plus(sum, power(b)),
            );
            if R::spec_less(R::spec_decimal(0, 0), sum) {
                over(power(a), sum)
            } else {
                power(a)
            }
        }),
{
    let actions = node.valid_actions;
    let before = match tuning.root_noise {
        Some(noise) => noisy_priors(node, noise, tuning.root_noise_epsilon),
        None => node.prior_probs,
    };
    if let Some(noise) = tuning.root_noise {
        lemma_noisy(node, noise, tuning.root_noise_epsilon, a);
    }
    let temp = tuning.root_softmax_temp;
    let f = |a: A, x: R|
        R::spec_binary(
            Binary::Power,
            R::spec_binary(Binary::Max, x, R::spec_decimal(1, -30)),
            over(one(), temp),
        );
    let buf = change_slots(actions, before, f, actions.len());
    lemma_changed(actions, node.num_actions, before, f, actions.len());
    lemma_normalized(actions, node.num_actions, buf, a);
    let power = |b: A|
        R::spec_binary(
            Binary::Power,
            R::spec_binary(Binary::Max, before[b.spec_index() as int], R::spec_decimal(1, -30)),
            over(R::spec_decimal(1, 0), temp),
        );
    let g = |sum: R, b: A| plus(sum, buf[b.spec_index() as int]);
    let h = |sum: R, b: A| plus(sum, power(b));
    lemma_fold_same(actions, g, h);
    assert(actions[actions.index_of(a)] == a);
    assert(tempered_priors(actions, before, temp) == normalized(actions, buf));
}

/// What all expanded edges of a node score off the root.
pub(crate) proof fn lemma_expanded_scores<A: Act, R: Scalar>(
    tree: Tree<A, R>,
    node: NodeView<A, R>,
    tuning: Tuning<A, R>,
    c_puct: R,
    forced: bool,
)
    requires
        node.wf(),
    ensures
        forall|k: int|
            #![trigger node.valid_actions[k]]
            0 <= k < node.valid_actions.len() ==> {
                let i = node.valid_actions[k].spec_index() as int;
                node.children[i] is Some && tree.contains_key(node.children[i]->0) ==> scores_of(
                    tree,
                    node,
                    tuning,
                    c_puct,
                    false,
                    forced,
                )[i] == plus(
                    plus(tree[node.children[i]->0].value, node.edge_penalties[i]),
                    times(
                        times(c_puct, node.prior_probs[i]),
                        over(
                            plus(
                                R::spec_unary(
                                    Unary::Sqrt,
                                    R::spec_count(
                                        node.edge_visits.fold_left(
                                            0int,
                                            |sum: int, x: usize| sum + x,
                                        ) as usize,
                                    ),
                                ),
                                R::spec_decimal(1, -8),
                            ),
                            plus(
                                R::spec_decimal(1, 0),
                                R::spec_count(
                                    (node.edge_visits[i] + node.virtual_losses[i]) as usize,
                                ),
                            ),
                        ),
                    ),
                )
            },
{
    lemma_total_folds(node.edge_visits);
    assert forall|k: int|
        #![trigger node.valid_actions[k]]
        0 <= k < node.valid_actions.len() implies scores_of(
        tree,
        node,
        tuning,
        c_puct,
        false,
        forced,
    )[node.valid_actions[k].spec_index() as int] == edge_score(
        tree,
        node,
        tuning,
        c_puct,
        false,
        forced,
        node.valid_actions[k],
    ) by {
        lemma_score_slot(tree, node, tuning, c_puct, false, forced, node.valid_actions[k]);
    }
}

/// Whether two valid actions of a node differ in the child they lead to alone, with children in
/// the tree.
pub open spec fn differ_in_child<A: Act, R: Scalar>(
    tree: Tree<A, R>,
    node: NodeView<A, R>,
    a: A,
    b: A,
) -> bool {
    let i = a.spec_index() as int;
    let j = b.spec_index() as int;
    &&& node.valid_actions.contains(a) && node.valid_actions.contains(b)
    &&& node.children[i] matches Some(c) && tree.contains_key(c)
    &&& node.children[j] matches Some(c) && tree.contains_key(c)
    &&& node.prior_probs[i] == node.prior_probs[j]
    &&& node.edge_visits[i] == node.edge_visits[j]
    &&& node.virtual_losses[i] == node.virtual_losses[j]
    &&& node.edge_penalties[i] == node.edge_penalties[j]
}

/// Law: of two edges that differ in their child alone, the one whose child has the higher value
/// scores higher, where adding the same to both sides keeps the order. The two bonuses are the
/// same whatever the order.
pub proof fn law_better_child_scores_higher<A: Act, R: Scalar>(
    tree: Tree<A, R>,
    node: NodeView<A, R>,
    tuning: Tuning<A, R>,
    c_puct: R,
    a: A,
    b: A,
)
    requires
        node.wf(),
        differ_in_child(tree, node, a, b),
    ensures
        ({
            let scores = scores_of(tree, node, tuning, c_puct, false, false);
            let i = a.spec_index() as int;
            let j = b.spec_index() as int;
            let x = tree[node.children[i]->0].value;
            let y = tree[node.children[j]->0].value;
            &&& exists|bonus: R| #[trigger]
                plus(plus(x, node.edge_penalties[i]), bonus) == scores[i] && plus(
                    plus(y, node.edge_penalties[j]),
                    bonus,
                ) == scores[j]
            &&& (forall|u: R, v: R, w: R| #[trigger]
                R::spec_less(u, v) ==> #[trigger] R::spec_less(plus(u, w), plus(v, w)))
                && R::spec_less(y, x) ==> R::spec_less(scores[j], scores[i])
        }),
{
    lemma_score_slot(tree, node, tuning, c_puct, false, false, a);
    lemma_score_slot(tree, node, tuning, c_puct, false, false, b);
    let i = a.spec_index() as int;
    let j = b.spec_index() as int;
    let x = tree[node.children[i]->0].value;
    let y = tree[node.children[j]->0].value;
    let p = node.edge_penalties[i];
    let bonus = times(
        times(c_puct, node.prior_probs[i]),
        over(
            plus(root(R::spec_count(total(node.edge_visits) as usize)), R::spec_decimal(1, -8)),
            plus(
                one(),
                R::spec_count((node.edge_visits[i] + node.virtual_losses[i]) as usize),
            ),
        ),
    );
    let scores = scores_of(tree, node, tuning, c_puct, false, false);
    assert(plus(plus(x, p), bonus) == scores[i]);
    assert(plus(plus(y, p), bonus) == scores[j]);
    if (forall|u: R, v: R, w: R| #[trigger]
        R::spec_less(u, v) ==> #[trigger] R::spec_less(plus(u, w), plus(v, w))) && R::spec_less(
        y,
        x,
    ) {
        assert(R::spec_less(plus(y, p), plus(x, p)));
        assert(R::spec_less(plus(plus(y, p), bonus), plus(plus(x, p), bonus)));
    }
}

/// Law: a playout never takes an edge while another one, which differs from it in its child alone,
/// has a child of higher value, where the scores can be compared and adding the same to both sides
/// keeps the order.
pub proof fn law_worse_child_is_not_taken<A: Act, R: Scalar>(
    tree: Tree<A, R>,
    tuning: Tuning<A, R>,
    id: NodeId,
    c_puct: R,
    forced: bool,
    better: A,
    worse: A,
)
    requires
        tree.contains_key(id),
        tree[id].wf(),
        differ_in_child(tree, tree[id], better, worse),
        R::spec_less(
            tree[tree[id].children[worse.spec_index() as int]->0].value,
            tree[tree[id].children[better.spec_index() as int]->0].value,
        ),
        forall|u: R, v: R, w: R| #[trigger]
            R::spec_less(u, v) ==> #[trigger] R::spec_less(plus(u, w), plus(v, w)),
        can_rank(
            tree[id].valid_actions,
            |a: A| edge_score(tree, tree[id], tuning, c_puct, false, forced, a),
        ),
    ensures
        chosen_action(tree, tuning, id, c_puct, false, forced) != Some(worse),
{
    let node = tree[id];
    law_better_child_scores_higher(tree, node, tuning, c_puct, better, worse);
    law_root_settings_stay_at_the_root(tree, node, tuning, tuning, c_puct, forced, false, better);
    law_root_settings_stay_at_the_root(tree, node, tuning, tuning, c_puct, forced, false, worse);
    lemma_score_slot(tree, node, tuning, c_puct, false, forced, better);
    lemma_score_slot(tree, node, tuning, c_puct, false, forced, worse);
    law_puct_takes_highest(tree, tuning, id, c_puct, false, forced, better);
}

/// What comes after the best action scores below it.
proof fn lemma_best_is_last<A: Act, R: Scalar>(actions: Seq<A>, scores: Seq<R>, k: nat)
    requires
        k <= actions.len(),
    ensures
        match best_scored(actions, scores, k) {
            Some(b) => 0 <= b < k && forall|i: int|
                b < i < k ==> R::spec_less(
                    scores[(#[trigger] actions[i]).spec_index() as int],
                    scores[actions[b].spec_index() as int],
                ),
            None => k == 0,
        },
    decreases k,
{
    if k > 0 {
        lemma_best_is_last(actions, scores, (k - 1) as nat);
    }
}

/// Law: of the actions that score alike a playout takes the last: whatever comes after the action
/// that it takes scores below it. It takes none only where there is none.
pub proof fn law_playout_takes_the_last_of_equals<A: Act, R: Scalar>(
    tree: Tree<A, R>,
    tuning: Tuning<A, R>,
    id: NodeId,
    c_puct: R,
    is_root: bool,
    forced: bool,
)
    requires
        tree.contains_key(id),
    ensures
        ({
            let actions = tree[id].valid_actions;
            let scores = scores_of(tree, tree[id], tuning, c_puct, is_root, forced);
            match chosen_action(tree, tuning, id, c_puct, is_root, forced) {
                Some(a) => exists|b: int|
                    {
                        &&& 0 <= b < actions.len()
                        &&& #[trigger] actions[b] == a
                        &&& forall|i: int|
                            b < i < actions.len() ==> R::spec_less(
                                scores[(#[trigger] actions[i]).spec_index() as int],
                                scores[a.spec_index() as int],
                            )
                    },
                None => actions.len() == 0,
            }
        }),
{
    let actions = tree[id].valid_actions;
    let scores = scores_of(tree, tree[id], tuning, c_puct, is_root, forced);
    lemma_best_is_last(actions, scores, actions.len());
}

/// Law: of a child only its value enters the score, and of the other nodes nothing does: in two
/// trees with the same ids where a node is the same, and the values of its children are, its
/// scores are the same.
pub proof fn law_scores_read_child_values_alone<A: Act, R: Scalar>(
    t: Tree<A, R>,
    u: Tree<A, R>,
    tuning: Tuning<A, R>,
    node: NodeView<A, R>,
    c_puct: R,
    is_root: bool,
    forced: bool,
    a: A,
)
    requires
        node.wf(),
        node.valid_actions.contains(a),
        node.children[a.spec_index() as int] matches Some(c) ==> {
            &&& t.contains_key(c) == u.contains_key(c)
            &&& t.contains_key(c) ==> t[c].value == u[c].value
        },
    ensures
        scores_of(t, node, tuning, c_puct, is_root, forced)[a.spec_index() as int] == scores_of(
            u,
            node,
            tuning,
            c_puct,
            is_root,
            forced,
        )[a.spec_index() as int],
{
    lemma_score_slot(t, node, tuning, c_puct, is_root, forced, a);
    lemma_score_slot(u, node, tuning, c_puct, is_root, forced, a);
}

} // verus!
