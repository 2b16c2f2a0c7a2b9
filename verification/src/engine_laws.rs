//! What the searches with shared nodes and with simulations prefer, and what they make of the
//! values of children.

use crate::move_laws::lemma_sum_folds;
use crate::node::NodeId;
use crate::par_graph::{
    game_at, is_burdened, is_created, spec_normalized, Agent, Environment, Graph,
};
use crate::par_node;
use crate::scalar::{minus, over, plus, times, Binary, Scalar, Unary};
use crate::shared_mcts::MCTS;
use crate::shared_node;
use crate::walk::{lemma_sum_any_order, lists, map_total, sum_over, Count};
use vstd::prelude::*;

verus! {

/// The sum of all counts of a map, in any order of its keys.
proof fn lemma_total_listed<K, V: Count>(order: Seq<K>, m: Map<K, V>)
    requires
        lists(order, m.dom()),
    ensures
        map_total(m) == order.fold_left(0int, |sum: int, k: K| sum + m[k].amount()),
{
    lemma_sum_any_order(order, m);
    lemma_sum_over_folds(order, m);
}

proof fn lemma_sum_over_folds<K, V: Count>(order: Seq<K>, m: Map<K, V>)
    ensures
        sum_over(order, m) == order.fold_left(0int, |sum: int, k: K| sum + m[k].amount()),
    decreases order.len(),
{
    if order.len() > 0 {
        lemma_sum_over_folds(order.drop_last(), m);
    }
}

/// Law: in a search with shared nodes an action scores by the value of its child, or of the node
/// where the child is not known, with its penalty, and by a bonus that grows with its prior and the
/// visits of all actions and shrinks with its own visits and virtual losses.
pub proof fn law_shared_score<R: Scalar>(
    m: &MCTS<R>,
    id: NodeId,
    c_puct: R,
    a: usize,
    order: Seq<usize>,
)
    requires
        m.node_of(id) is Some,
        lists(order, m.node_of(id)->0.edge_visits@.dom()),
    ensures
        ({
            let n = m.node_of(id)->0;
            let scores = m.spec_scores(id, c_puct);
            let all = order.fold_left(0int, |sum: int, k: usize| sum + n.edge_visits@[k]);
            let child = n.children@[a];
            let value = if n.children@.contains_key(a) && m.node_of(child) is Some {
                m.node_of(child)->0.value
            } else {
                n.value
            };
            let penalty = if n.edge_penalties@.contains_key(a) {
                n.edge_penalties@[a]
            } else {
                R::spec_decimal(0, 0)
            };
            let visits = if n.edge_visits@.contains_key(a) {
                n.edge_visits@[a] as int
            } else {
                0
            };
            let losses = if n.virtual_losses@.contains_key(a) {
                n.virtual_losses@[a] as int
            } else {
                0
            };
            &&& scores.contains_key(a) <==> n.prior_probs@.contains_key(a)
            &&& scores.contains_key(a) ==> scores[a] == plus(
                plus(value, penalty),
                times(
                    times(c_puct, n.prior_probs@[a]),
                    over(
                        plus(
                            R::spec_unary(Unary::Sqrt, R::spec_count(all as usize)),
                            R::spec_decimal(1, -8),
                        ),
                        plus(R::spec_decimal(1, 0), R::spec_count((visits + losses) as usize)),
                    ),
                ),
            )
        }),
{
    let n = m.node_of(id)->0;
    lemma_total_listed(order, n.edge_visits@);
    assert((|sum: int, k: usize| sum + n.edge_visits@[k]) =~= (|sum: int, k: usize|
        sum + n.edge_visits@[k].amount()));
}

/// Law: a search with shared nodes prefers better children: where all else is equal, an action
/// whose child is worth more scores higher, if addition keeps the order of the two values.
pub proof fn law_shared_better_child_scores_higher<R: Scalar>(
    worse: &MCTS<R>,
    better: &MCTS<R>,
    id: NodeId,
    c_puct: R,
    a: usize,
)
    requires
        worse.node_of(id) is Some,
        better.node_of(id) == worse.node_of(id),
        worse.node_of(id)->0.prior_probs@.contains_key(a),
        worse.node_of(id)->0.children@.contains_key(a),
        worse.node_of(worse.node_of(id)->0.children@[a]) is Some,
        better.node_of(worse.node_of(id)->0.children@[a]) is Some,
        R::spec_less(
            worse.node_of(worse.node_of(id)->0.children@[a])->0.value,
            better.node_of(worse.node_of(id)->0.children@[a])->0.value,
        ),
        forall|x: R, y: R, z: R|
            R::spec_less(x, y) ==> #[trigger] R::spec_less(plus(x, z), plus(y, z)),
    ensures
        R::spec_less(worse.spec_scores(id, c_puct)[a], better.spec_scores(id, c_puct)[a]),
{
    let n = worse.node_of(id)->0;
    let x = worse.node_of(n.children@[a])->0.value;
    let y = better.node_of(n.children@[a])->0.value;
    let p = shared_node::number_at(n.edge_penalties@, a);
    assert(R::spec_less(plus(x, p), plus(y, p)));
}

proof fn lemma_shared_weighted_folds<R: Scalar>(
    m: &MCTS<R>,
    n: shared_node::Node<R>,
    order: Seq<usize>,
)
    ensures
        m.weighted_children(n, order) == order.fold_left(
            R::spec_decimal(0, 0),
            |sum: R, a: usize|
                if n.edge_visits@.contains_key(a) && n.edge_visits@[a] > 0 {
                    plus(
                        sum,
                        times(
                            R::spec_count(n.edge_visits@[a]),
                            match m.node_of(n.children@[a]) {
                                Some(c) => c.value,
                                None => R::spec_decimal(0, 0),
                            },
                        ),
                    )
                } else {
                    sum
                },
        ),
    decreases order.len(),
{
    if order.len() > 0 {
        lemma_shared_weighted_folds(m, n, order.drop_last());
    }
}

/// Law: in a search with shared nodes the value of a node is the average over its own estimate,
/// taken once, and the values of its children, each taken as often as its edge was visited, over
/// all visits and virtual losses. Without those it is the estimate.
pub proof fn law_shared_value_is_average<R: Scalar>(
    m: &MCTS<R>,
    n: shared_node::Node<R>,
    r: shared_node::Node<R>,
    edges: Seq<usize>,
    losses: Seq<usize>,
)
    requires
        m.is_recomputed(n, r),
        lists(edges, n.edge_visits@.dom()),
        lists(losses, n.virtual_losses@.dom()),
    ensures
        ({
            let load = edges.fold_left(0int, |sum: int, a: usize| sum + n.edge_visits@[a])
                + losses.fold_left(0int, |sum: int, a: usize| sum + n.virtual_losses@[a]);
            &&& r.node_visits == (1 + load) as usize
            &&& r.children == n.children
            &&& r.edge_visits == n.edge_visits
            &&& r.prior_probs == n.prior_probs
            &&& r.value_estimate == n.value_estimate
            &&& load == 0 ==> r.value == n.value_estimate
            &&& load != 0 ==> exists|order: Seq<usize>| #[trigger]
                lists(order, n.children@.dom()) && r.value == over(
                    plus(
                        n.value_estimate,
                        order.fold_left(
                            R::spec_decimal(0, 0),
                            |sum: R, a: usize|
                                if n.edge_visits@.contains_key(a) && n.edge_visits@[a] > 0 {
                                    plus(
                                        sum,
                                        times(
                                            R::spec_count(n.edge_visits@[a]),
                                            match m.node_of(n.children@[a]) {
                                                Some(c) => c.value,
                                                None => R::spec_decimal(0, 0),
                                            },
                                        ),
                                    )
                                } else {
                                    sum
                                },
                        ),
                    ),
                    R::spec_count((1 + load) as usize),
                )
        }),
{
    lemma_total_listed(edges, n.edge_visits@);
    lemma_total_listed(losses, n.virtual_losses@);
    assert((|sum: int, k: usize| sum + n.edge_visits@[k]) =~= (|sum: int, k: usize|
        sum + n.edge_visits@[k].amount()));
    assert((|sum: int, k: usize| sum + n.virtual_losses@[k]) =~= (|sum: int, k: usize|
        sum + n.virtual_losses@[k].amount()));
    if MCTS::edge_load(n) != 0 {
        let visits = (1 + MCTS::edge_load(n)) as usize;
        let order = choose|order: Seq<usize>| #[trigger]
            lists(order, n.children@.dom()) && r == (shared_node::Node {
                node_visits: visits,
                value: over(
                    plus(n.value_estimate, m.weighted_children(n, order)),
                    R::spec_count(visits),
                ),
                ..n
            });
        lemma_shared_weighted_folds(m, n, order);
    }
}

/// Law: a virtual loss on an action counts one, on that action alone, and reverting it takes one
/// off; an action that never had one is left as it is.
pub proof fn law_shared_loss_counts_one(losses: Map<usize, usize>, a: usize, b: usize)
    ensures
        ({
            let more = shared_node::loss_added(losses, a);
            &&& more.contains_key(a)
            &&& !losses.contains_key(a) ==> more[a] == 1
            &&& losses.contains_key(a) && losses[a] < usize::MAX ==> more[a] == losses[a] + 1
            &&& b != a ==> more.contains_key(b) == losses.contains_key(b) && (losses.contains_key(b)
                ==> more[b] == losses[b])
        }),
        ({
            let less = shared_node::loss_reverted(losses, a);
            &&& losses.contains_key(a) && losses[a] > 0 ==> less[a] == losses[a] - 1
            &&& less.contains_key(b) == losses.contains_key(b)
            &&& b != a && losses.contains_key(b) ==> less[b] == losses[b]
        }),
{
}

/// Law: in a simulation an action scores by the value of its child, or of the node without one,
/// with its penalty, and by a bonus that grows with its prior and with all visits and virtual
/// losses and shrinks with its own.
pub proof fn law_simulation_score<R: Scalar>(
    n: par_node::Node<R>,
    c_puct: R,
    child_values: Map<i32, R>,
    a: i32,
    edges: Seq<i32>,
    losses: Seq<i32>,
)
    requires
        lists(edges, n.edge_visits@.dom()),
        lists(losses, n.virtual_losses@.dom()),
    ensures
        ({
            let scores = n.spec_scores(c_puct, child_values);
            let load = edges.fold_left(0int, |sum: int, k: i32| sum + n.edge_visits@[k])
                + losses.fold_left(0int, |sum: int, k: i32| sum + n.virtual_losses@[k]);
            let value = if child_values.contains_key(a) {
                child_values[a]
            } else {
                n.value
            };
            let penalty = if n.edge_penalties@.contains_key(a) {
                n.edge_penalties@[a]
            } else {
                R::spec_decimal(0, 0)
            };
            let visits = if n.edge_visits@.contains_key(a) {
                n.edge_visits@[a] as int
            } else {
                0
            };
            let own_losses = if n.virtual_losses@.contains_key(a) {
                n.virtual_losses@[a] as int
            } else {
                0
            };
            &&& scores.contains_key(a) <==> n.priors@.contains_key(a)
            &&& scores.contains_key(a) ==> scores[a] == plus(
                plus(value, penalty),
                times(
                    times(c_puct, n.priors@[a]),
                    over(
                        R::spec_unary(
                            Unary::Sqrt,
                            plus(R::spec_count(load as usize), R::spec_decimal(1, -8)),
                        ),
                        plus(
                            R::spec_decimal(1, 0),
                            plus(
                                R::spec_count(visits as usize),
                                R::spec_count(own_losses as usize),
                            ),
                        ),
                    ),
                ),
            )
        }),
{
    lemma_total_listed(edges, n.edge_visits@);
    lemma_total_listed(losses, n.virtual_losses@);
    assert((|sum: int, k: i32| sum + n.edge_visits@[k]) =~= (|sum: int, k: i32|
        sum + n.edge_visits@[k].amount()));
    assert((|sum: int, k: i32| sum + n.virtual_losses@[k]) =~= (|sum: int, k: i32|
        sum + n.virtual_losses@[k].amount()));
}

/// Law: a simulation prefers better children: where all else is equal, an action whose child is
/// worth more scores higher, if addition keeps the order of the two values.
pub proof fn law_simulation_better_child_scores_higher<R: Scalar>(
    n: par_node::Node<R>,
    c_puct: R,
    worse: Map<i32, R>,
    better: Map<i32, R>,
    a: i32,
)
    requires
        n.priors@.contains_key(a),
        worse.contains_key(a),
        better.contains_key(a),
        R::spec_less(worse[a], better[a]),
        forall|x: R, y: R, z: R|
            R::spec_less(x, y) ==> #[trigger] R::spec_less(plus(x, z), plus(y, z)),
    ensures
        R::spec_less(n.spec_scores(c_puct, worse)[a], n.spec_scores(c_puct, better)[a]),
{
    let p = par_node::number_at(n.edge_penalties@, a);
    assert(R::spec_less(plus(worse[a], p), plus(better[a], p)));
}

proof fn lemma_simulation_weighted_folds<R: Scalar>(
    n: par_node::Node<R>,
    child_values: Map<i32, R>,
    order: Seq<i32>,
)
    ensures
        n.weighted(child_values, order) == order.fold_left(
            R::spec_decimal(0, 0),
            |sum: R, a: i32|
                if n.edge_visits@.contains_key(a) && n.edge_visits@[a] > 0 {
                    plus(
                        sum,
                        times(R::spec_count(n.edge_visits@[a] as usize), child_values[a]),
                    )
                } else {
                    sum
                },
        ),
    decreases order.len(),
{
    if order.len() > 0 {
        lemma_simulation_weighted_folds(n, child_values, order.drop_last());
    }
}

/// Law: in a simulation the value of a node is the average over its own estimate, taken once, and
/// the values of its children, each taken as often as its edge was visited. A node without children
/// or visits has its estimate.
pub proof fn law_simulation_value_is_average<R: Scalar>(
    n: par_node::Node<R>,
    r: par_node::Node<R>,
    child_values: Map<i32, R>,
    edges: Seq<i32>,
    losses: Seq<i32>,
)
    requires
        n.is_recomputed(r, child_values),
        lists(edges, n.edge_visits@.dom()),
        lists(losses, n.virtual_losses@.dom()),
    ensures
        ({
            let load = edges.fold_left(0int, |sum: int, k: i32| sum + n.edge_visits@[k])
                + losses.fold_left(0int, |sum: int, k: i32| sum + n.virtual_losses@[k]);
            let leaf = forall|a: i32| !#[trigger] n.children@.contains_key(a);
            &&& r.node_visits == (1 + load) as u32
            &&& r.children == n.children
            &&& r.edge_visits == n.edge_visits
            &&& r.priors == n.priors
            &&& r.value_estimate == n.value_estimate
            &&& load == 0 || leaf ==> r.value == n.value_estimate
            &&& load != 0 && !leaf ==> exists|order: Seq<i32>| #[trigger]
                lists(order, n.children@.dom()) && r.value == over(
                    plus(
                        n.value_estimate,
                        order.fold_left(
                            R::spec_decimal(0, 0),
                            |sum: R, a: i32|
                                if n.edge_visits@.contains_key(a) && n.edge_visits@[a] > 0 {
                                    plus(
                                        sum,
                                        times(
                                            R::spec_count(n.edge_visits@[a] as usize),
                                            child_values[a],
                                        ),
                                    )
                                } else {
                                    sum
                                },
                        ),
                    ),
                    R::spec_count(((1 + load) as u32) as usize),
                )
        }),
{
    lemma_total_listed(edges, n.edge_visits@);
    lemma_total_listed(losses, n.virtual_losses@);
    assert((|sum: int, k: i32| sum + n.edge_visits@[k]) =~= (|sum: int, k: i32|
        sum + n.edge_visits@[k].amount()));
    assert((|sum: int, k: i32| sum + n.virtual_losses@[k]) =~= (|sum: int, k: i32|
        sum + n.virtual_losses@[k].amount()));
    let leaf = forall|a: i32| !#[trigger] n.children@.contains_key(a);
    let empty = n.children@.dom() =~= Set::<i32>::empty();
    assert(leaf ==> empty);
    assert(empty ==> leaf) by {
        if empty {
            assert forall|a: i32| !#[trigger] n.children@.contains_key(a) by {
                assert(!Set::<i32>::empty().contains(a));
            }
        }
    }
    if n.load() != 0 && !empty {
        let visits = (1 + n.load()) as u32;
        let order = choose|order: Seq<i32>| #[trigger]
            lists(order, n.children@.dom()) && r == (par_node::Node {
                node_visits: visits,
                value: over(
                    plus(n.value_estimate, n.weighted(child_values, order)),
                    R::spec_count(visits as usize),
                ),
                ..n
            });
        lemma_simulation_weighted_folds(n, child_values, order);
    }
}

/// Law: an action that a simulation picks has a score, and it is within a hundred-millionth of the
/// largest score; where none is picked, no score is.
pub proof fn law_simulation_picks_near_best<R: Scalar>(
    scores: Map<i32, R>,
    r: Option<i32>,
    a: i32,
)
    requires
        par_node::is_pick(scores, r),
        r is None ==> scores.contains_key(a),
    ensures
        exists|order: Seq<i32>| #[trigger]
            lists(order, scores.dom()) && ({
                let top = order.fold_left(
                    R::spec_infinity(false),
                    |top: R, k: i32| R::spec_binary(Binary::Max, top, scores[k]),
                );
                let x = if r is Some {
                    r->0
                } else {
                    a
                };
                &&& scores.contains_key(x)
                &&& r is Some <==> R::spec_less(
                    R::spec_unary(Unary::Abs, minus(scores[x], top)),
                    R::spec_decimal(1, -8),
                )
            }),
{
    let order = choose|order: Seq<i32>| #[trigger]
        lists(order, scores.dom()) && par_node::is_pick_in(scores, order, r);
    lemma_peak_of(scores, order);
    if r is None {
        assert(!par_node::is_near_best(scores, order, a));
    }
}

proof fn lemma_peak_of<R: Scalar>(scores: Map<i32, R>, order: Seq<i32>)
    ensures
        crate::moves::peak(par_node::scores_in(scores, order)) == order.fold_left(
            R::spec_infinity(false),
            |top: R, k: i32| R::spec_binary(Binary::Max, top, scores[k]),
        ),
    decreases order.len(),
{
    let s = par_node::scores_in(scores, order);
    if order.len() > 0 {
        lemma_peak_of(scores, order.drop_last());
        assert(s.drop_last() =~= par_node::scores_in(scores, order.drop_last()));
    }
}

/// Law: the priors of a new node of a simulation are the exponentials of the numbers of its valid
/// actions over the sum of all exponentials, or a hundred-millionth if that is larger. A valid
/// action without a number has 0 for its exponential.
pub proof fn law_simulation_priors<R: Scalar>(logits: Seq<R>, actions: Seq<i32>, a: i32)
    ensures
        ({
            let exps = Seq::new(logits.len(), |i: int| R::spec_unary(Unary::Exp, logits[i]));
            let all = R::spec_binary(
                Binary::Max,
                exps.fold_left(R::spec_decimal(0, 0), |sum: R, x: R| plus(sum, x)),
                R::spec_decimal(1, -8),
            );
            let priors = spec_normalized(logits, actions);
            &&& priors.contains_key(a) <==> actions.contains(a)
            &&& actions.contains(a) && 0 <= a < logits.len() ==> priors[a] == over(
                R::spec_unary(Unary::Exp, logits[a as int]),
                all,
            )
            &&& actions.contains(a) && !(0 <= a < logits.len()) ==> priors[a] == over(
                R::spec_decimal(0, 0),
                all,
            )
        }),
{
    let exps = Seq::new(logits.len(), |i: int| R::spec_unary(Unary::Exp, logits[i]));
    assert(exps =~= crate::par_graph::exps(logits));
    lemma_sum_folds(exps);
}

/// Law: backing a step of a simulation counts one visit more and one virtual loss less, if there is
/// one, on the action that was taken, and computes the node anew from the values that its children
/// had. No other node changes.
pub proof fn law_simulation_backs_one_step<R: Scalar>(
    before: Graph<R>,
    after: Graph<R>,
    step: (u64, i32),
    i: int,
)
    requires
        after.has_backed(before, step),
        before.table.contains_key(step.0),
        0 <= i < before.nodes.len(),
    ensures
        ({
            let place = before.table[step.0] as int;
            let n = before.nodes[place];
            let m = after.nodes[place];
            let visits = if n.edge_visits@.contains_key(step.1) {
                n.edge_visits@[step.1] as int
            } else {
                0
            };
            let losses = if n.virtual_losses@.contains_key(step.1) {
                n.virtual_losses@[step.1] as int
            } else {
                0
            };
            &&& after.table == before.table
            &&& after.nodes.len() == before.nodes.len()
            &&& i != place ==> after.nodes[i] == before.nodes[i]
            &&& m.edge_visits@ == n.edge_visits@.insert(step.1, (visits + 1) as u32)
            &&& m.virtual_losses@ == n.virtual_losses@.insert(
                step.1,
                (if losses > 0 {
                    losses - 1
                } else {
                    0
                }) as u32,
            )
            &&& m.children == n.children
            &&& m.priors == n.priors
            &&& m.edge_penalties == n.edge_penalties
            &&& m.value_estimate == n.value_estimate
            &&& exists|v: par_node::Node<R>| #[trigger]
                v.is_recomputed(m, before.child_values(n)) && v.edge_visits@ == m.edge_visits@
                    && v.virtual_losses@ == m.virtual_losses@ && v.children == n.children
                    && v.value_estimate == n.value_estimate
        }),
{
    let place = before.table[step.0] as int;
    let n = before.nodes[place];
    let m = after.nodes[place];
    let v = choose|v: par_node::Node<R>| #[trigger]
        crate::par_graph::is_visited(n, v, step.1) && v.is_recomputed(m, before.child_values(n));
    assert(v.is_recomputed(m, before.child_values(n)));
}

/// Law: a simulation that comes back to a state takes 1 off the action that it took last, and off
/// no other.
pub proof fn law_simulation_penalizes_returns<R: Scalar>(
    before: Graph<R>,
    after: Graph<R>,
    path: Seq<(u64, i32)>,
    i: int,
)
    requires
        after.has_penalized(before, path),
        path.len() > 0,
        before.table.contains_key(path.last().0),
        0 <= i < before.nodes.len(),
    ensures
        ({
            let place = before.table[path.last().0] as int;
            let n = before.nodes[place];
            let m = after.nodes[place];
            let a = path.last().1;
            let penalty = if n.edge_penalties@.contains_key(a) {
                n.edge_penalties@[a]
            } else {
                R::spec_decimal(0, 0)
            };
            &&& i != place ==> after.nodes[i] == before.nodes[i]
            &&& m.edge_penalties@ == n.edge_penalties@.insert(
                a,
                plus(penalty, R::spec_decimal(-1, 0)),
            )
            &&& m.edge_visits == n.edge_visits
            &&& m.value == n.value
        }),
{
}

/// Law: the values that a simulation reads of children are those that they have now.
pub proof fn law_simulation_reads_current_values<R: Scalar>(
    g: Graph<R>,
    n: par_node::Node<R>,
    a: i32,
)
    ensures
        g.child_values(n).contains_key(a) <==> n.children@.contains_key(a),
        n.children@.contains_key(a) ==> g.child_values(n)[a]
            == g.nodes[n.children@[a] as int].value,
{
}

/// Law: a simulation that backs a path of different states counts one visit more of the action that
/// was taken in each of them that has a node, and in no other node.
pub proof fn law_simulation_counts_each_step<R: Scalar>(
    before: Graph<R>,
    after: Graph<R>,
    path: Seq<(u64, i32)>,
    p: int,
    place: int,
)
    requires
        before.wf(),
        after.has_backed_all(before, path),
        forall|i: int, j: int|
            0 <= i < j < path.len() ==> (#[trigger] path[i]).0 != (#[trigger] path[j]).0,
        0 <= p < path.len(),
        before.table.contains_key(path[p].0),
        before.table[path[p].0] == place,
    ensures
        after.table == before.table,
        after.nodes.len() == before.nodes.len(),
        ({
            let n = before.nodes[place];
            let visits = if n.edge_visits@.contains_key(path[p].1) {
                n.edge_visits@[path[p].1] as int
            } else {
                0
            };
            &&& after.nodes[place].edge_visits@ == n.edge_visits@.insert(
                path[p].1,
                (visits + 1) as u32,
            )
            &&& after.nodes[place].children == n.children
            &&& after.nodes[place].priors == n.priors
        }),
    decreases path.len(),
{
    let rest = path.drop_first();
    let mid = choose|mid: Graph<R>|
        mid.has_backed_all(before, rest) && #[trigger] after.has_backed(mid, path[0]);
    assert forall|i: int, j: int| 0 <= i < j < rest.len() implies (#[trigger] rest[i]).0 != (
    #[trigger] rest[j]).0 by {
        assert(path[i + 1].0 != path[j + 1].0);
    }
    lemma_backed_frame(before, mid, rest, place);
    if p > 0 {
        assert(rest[p - 1] == path[p]);
        law_simulation_counts_each_step(before, mid, rest, p - 1, place);
        assert(path[0].0 != path[p].0);
        if mid.table.contains_key(path[0].0) {
            law_simulation_backs_one_step(mid, after, path[0], place);
            assert(mid.table[path[0].0] != mid.table[path[p].0]) by {
                if mid.table[path[0].0] == mid.table[path[p].0] {
                    assert(before.table[path[0].0] == before.table[path[p].0]);
                }
            }
        }
    } else {
        assert forall|i: int| 0 <= i < rest.len() implies !(before.table.contains_key(
            (#[trigger] rest[i]).0,
        ) && before.table[rest[i].0] == place) by {
            assert(path[0].0 != path[i + 1].0);
            assert(rest[i] == path[i + 1]);
            if before.table.contains_key(rest[i].0) && before.table[rest[i].0] == place {
                assert(before.table[rest[i].0] == before.table[path[0].0]);
            }
        }
        law_simulation_backs_one_step(mid, after, path[0], place);
    }
}

/// A node that no step of a path is at stays as it is.
proof fn lemma_backed_frame<R: Scalar>(
    before: Graph<R>,
    after: Graph<R>,
    path: Seq<(u64, i32)>,
    place: int,
)
    requires
        before.wf(),
        after.has_backed_all(before, path),
        0 <= place < before.nodes.len(),
    ensures
        after.table == before.table,
        after.nodes.len() == before.nodes.len(),
        (forall|i: int|
            0 <= i < path.len() ==> !(before.table.contains_key((#[trigger] path[i]).0)
                && before.table[path[i].0] == place)) ==> after.nodes[place]
            == before.nodes[place],
    decreases path.len(),
{
    if path.len() > 0 {
        let rest = path.drop_first();
        let mid = choose|mid: Graph<R>|
            mid.has_backed_all(before, rest) && #[trigger] after.has_backed(mid, path[0]);
        lemma_backed_frame(before, mid, rest, place);
        if forall|i: int|
            0 <= i < path.len() ==> !(before.table.contains_key((#[trigger] path[i]).0)
                && before.table[path[i].0] == place) {
            assert forall|i: int| 0 <= i < rest.len() implies !(before.table.contains_key(
                (#[trigger] rest[i]).0,
            ) && before.table[rest[i].0] == place) by {
                assert(rest[i] == path[i + 1]);
            }
            assert(!(before.table.contains_key(path[0].0) && before.table[path[0].0] == place));
        }
    }
}

/// Law: a simulation gives a state at its end a node with the value of the end and no actions. Any
/// other state gets a node with what the agent infers of what is seen of it: the priors of its
/// valid actions and the value, nothing visited yet.
pub proof fn law_simulation_node_holds_its_answer<R: Scalar, E: Environment<R>, A: Agent<R>>(
    n: par_node::Node<R>,
    env: E,
    agent: A,
    terminal_value: R,
    a: i32,
)
    requires
        is_created::<R, E, A>(n, env, agent, terminal_value),
    ensures
        n.terminal_state == env.spec_done(),
        n.value == n.value_estimate,
        n.node_visits == 0,
        !n.children@.contains_key(a),
        env.spec_done() ==> n.value == terminal_value && !n.priors@.contains_key(a),
        !env.spec_done() ==> (n.priors@.contains_key(a) <==> env.spec_valid().contains(a)),
        !env.spec_done() ==> exists|logits: Seq<R>, value: R| #[trigger]
            agent.infers(env.spec_observation(), logits, value) && n.value == value && n.priors@
                == spec_normalized(logits, env.spec_valid()),
        n.priors@.contains_key(a) ==> n.edge_visits@[a] == 0 && n.virtual_losses@[a] == 0
            && n.edge_penalties@[a] == R::spec_decimal(0, 0),
{
}

/// Law: linking a leaf under an action that had no child records it, and counts a visit of the
/// action; an action that has a child keeps it.
pub proof fn law_simulation_links_leaves<R: Scalar>(
    before: Graph<R>,
    after: Graph<R>,
    parent: usize,
    action: i32,
    child: usize,
)
    requires
        after.has_linked(before, parent, action, child),
        parent < before.nodes.len(),
    ensures
        ({
            let n = before.nodes[parent as int];
            let m = after.nodes[parent as int];
            let visits = if n.edge_visits@.contains_key(action) {
                n.edge_visits@[action] as int
            } else {
                0
            };
            &&& n.children@.contains_key(action) ==> after == before
            &&& !n.children@.contains_key(action) ==> {
                &&& m.children@ == n.children@.insert(action, child)
                &&& m.edge_visits@ == n.edge_visits@.insert(action, (visits + 1) as u32)
                &&& m.value == n.value
                &&& m.virtual_losses == n.virtual_losses
            }
        }),
{
}

/// Law: a simulation picks at a node by the values that its children have now, with an exploration
/// of 1.1.
pub proof fn law_simulation_picks_by_current_values<R: Scalar>(
    g: Graph<R>,
    place: usize,
    r: Option<i32>,
)
    requires
        g.picks(place, r),
    ensures
        ({
            let n = g.nodes[place as int];
            let values = Map::new(
                |a: i32| n.children@.contains_key(a),
                |a: i32| g.nodes[n.children@[a] as int].value,
            );
            par_node::is_pick(n.spec_scores(R::spec_decimal(11, -1), values), r)
        }),
{
    let n = g.nodes[place as int];
    assert(g.child_values(n) =~= Map::new(
        |a: i32| n.children@.contains_key(a),
        |a: i32| g.nodes[n.children@[a] as int].value,
    ));
}

/// Law: a simulation stops at a state that it passed before, at one at its end, or at one without a
/// node, and not before; it is marked as a return exactly in the first case.
pub proof fn law_simulation_stops_where_it_must<R: Scalar, E: Environment<R>>(
    g: Graph<R>,
    env: E,
    start: usize,
    path: Seq<(u64, i32)>,
    repeat: bool,
)
    requires
        g.is_ended::<E>(env, start, path, repeat),
    ensures
        ({
            let end = game_at::<R, E>(env, path);
            let known = g.node_at(start, path) is Some;
            let passed = exists|i: int|
                0 <= i < path.len() && (#[trigger] path[i]).0 == end.spec_hash();
            &&& path.len() > 0
            &&& repeat <==> known && !end.spec_done() && passed
            &&& end.spec_done() || !known || passed
        }),
{
}

/// Law: the playouts of a simulation go step by step. The path at each step names the state that
/// the actions before it lead to, which is new to the path and has a node, and not at its end
/// unless it is the first one; there the action was picked.
pub proof fn law_simulation_walks_by_picks<R: Scalar, E: Environment<R>>(
    g: Graph<R>,
    env: E,
    start: usize,
    path: Seq<(u64, i32)>,
    i: int,
)
    requires
        g.is_walked::<E>(env, start, path),
        0 <= i < path.len(),
    ensures
        ({
            let before = path.take(i);
            let here = game_at::<R, E>(env, before);
            &&& path[i].0 == here.spec_hash()
            &&& i > 0 ==> !here.spec_done()
            &&& forall|j: int| 0 <= j < i ==> (#[trigger] path[j]).0 != path[i].0
            &&& g.node_at(start, before) is Some
            &&& g.picks(g.node_at(start, before)->0, Some(path[i].1))
        }),
    decreases path.len(),
{
    let init = path.drop_last();
    if i == path.len() - 1 {
        assert(path.take(i) =~= init);
        assert forall|j: int| 0 <= j < i implies (#[trigger] path[j]).0 != path[i].0 by {
            assert(init[j] == path[j]);
        }
    } else {
        law_simulation_walks_by_picks::<R, E>(g, env, start, init, i);
        assert(init.take(i) =~= path.take(i));
        assert forall|j: int| 0 <= j < i implies (#[trigger] path[j]).0 != path[i].0 by {
            assert(init[j] == path[j]);
        }
    }
}

/// Law: the actions of a path lead on one by one, and the node at its end is the child that each
/// node on the way has recorded.
pub proof fn law_simulation_follows_children<R: Scalar, E: Environment<R>>(
    g: Graph<R>,
    env: E,
    start: usize,
    path: Seq<(u64, i32)>,
    step: (u64, i32),
)
    ensures
        game_at::<R, E>(env, Seq::empty()) == env,
        game_at::<R, E>(env, path.push(step)) == game_at::<R, E>(env, path).spec_next(step.1),
        g.node_at(start, Seq::empty()) == Some(start),
        ({
            let here = g.node_at(start, path);
            let next = g.node_at(start, path.push(step));
            &&& here is None ==> next is None
            &&& here is Some ==> {
                let children = g.nodes[here->0 as int].children@;
                &&& children.contains_key(step.1) ==> next == Some(children[step.1])
                &&& !children.contains_key(step.1) ==> next is None
            }
        }),
{
    assert(path.push(step).drop_last() =~= path);
}

/// Law: a playout of a simulation is walked in the graph as it was, its end gets a node only where
/// the state is neither at its end nor passed before, and then its path is backed, with a penalty
/// for a return.
pub proof fn law_simulation_playout<R: Scalar, E: Environment<R>, A: Agent<R>>(
    before: Graph<R>,
    after: Graph<R>,
    env: E,
    agent: A,
    terminal_value: R,
    start: usize,
    path: Seq<(u64, i32)>,
    repeat: bool,
    mid: Graph<R>,
)
    requires
        after.has_played::<E, A>(
            before,
            env,
            agent,
            terminal_value,
            start,
            path,
            repeat,
            mid,
        ),
    ensures
        ({
            let end = game_at::<R, E>(env, path);
            let h = end.spec_hash();
            let parent = before.node_at(start, path.drop_last())->0;
            &&& before.is_walked::<E>(env, start, path)
            &&& before.is_ended::<E>(env, start, path, repeat)
            &&& repeat || end.spec_done() ==> mid == before
            &&& !repeat && !end.spec_done() && before.table.contains_key(h) ==> mid.has_linked(
                before,
                parent,
                path.last().1,
                before.table[h],
            )
            &&& !repeat && !end.spec_done() && !before.table.contains_key(h) ==> exists|
                grown: Graph<R>,
            |
                {
                    &&& #[trigger] mid.has_linked(
                        grown,
                        parent,
                        path.last().1,
                        before.nodes.len() as usize,
                    )
                    &&& grown.nodes.len() == before.nodes.len() + 1
                    &&& forall|i: int|
                        0 <= i < before.nodes.len() ==> #[trigger] grown.nodes[i] == before.nodes[i]
                    &&& is_created::<R, E, A>(
                        grown.nodes[before.nodes.len() as int],
                        end,
                        agent,
                        terminal_value,
                    )
                    &&& grown.table == before.table.insert(h, before.nodes.len() as usize)
                }
            &&& !repeat ==> after.has_backed_all(mid, path)
            &&& repeat ==> exists|charged: Graph<R>| #[trigger]
                after.has_backed_all(charged, path) && charged.has_penalized(mid, path)
        }),
{
    let end = game_at::<R, E>(env, path);
    let h = end.spec_hash();
    let parent = before.node_at(start, path.drop_last())->0;
    if !repeat && !end.spec_done() {
        let leaf = choose|leaf: usize| #[trigger]
            mid.has_expanded::<E, A>(
                before,
                parent,
                path.last().1,
                end,
                agent,
                terminal_value,
                leaf,
            );
        let grown = choose|grown: Graph<R>| #[trigger]
            grown.has_ensured::<E, A>(before, end, agent, terminal_value, leaf) && mid.has_linked(
                grown,
                parent,
                path.last().1,
                leaf,
            );
        if !before.table.contains_key(h) {
            assert(mid.has_linked(grown, parent, path.last().1, before.nodes.len() as usize));
            assert forall|i: int| 0 <= i < before.nodes.len() implies #[trigger] grown.nodes[i]
                == before.nodes[i] by {
                assert(grown.nodes.drop_last()[i] == before.nodes[i]);
            }
        }
    }
}

/// Whether one playout leads from a graph to another.
pub open spec fn plays_once<R: Scalar, E: Environment<R>, A: Agent<R>>(
    before: Graph<R>,
    after: Graph<R>,
    env: E,
    agent: A,
    terminal_value: R,
    start: usize,
) -> bool {
    exists|path: Seq<(u64, i32)>, repeat: bool, mid: Graph<R>| #[trigger]
        after.has_played::<E, A>(before, env, agent, terminal_value, start, path, repeat, mid)
}

/// Law: a simulation makes its playouts one after another, each in the graph that the one before it
/// left, from a root that has a node.
pub proof fn law_simulation_runs_its_playouts<R: Scalar, E: Environment<R>, A: Agent<R>>(
    before: Graph<R>,
    after: Graph<R>,
    env: E,
    agent: A,
    terminal_value: R,
    start: usize,
    playouts: nat,
) -> (graphs: Seq<Graph<R>>)
    requires
        after.has_run::<E, A>(before, env, agent, terminal_value, start, playouts),
    ensures
        graphs.len() == playouts + 1,
        graphs[0] == before,
        graphs.last() == after,
        forall|i: int|
            #![trigger graphs[i]]
            0 <= i < playouts ==> plays_once::<R, E, A>(
                graphs[i],
                graphs[i + 1],
                env,
                agent,
                terminal_value,
                start,
            ),
    decreases playouts,
{
    if playouts == 0 {
        seq![before]
    } else {
        let (last, path, repeat, mid) = choose|
            last: Graph<R>,
            path: Seq<(u64, i32)>,
            repeat: bool,
            mid: Graph<R>,
        |
            last.has_run::<E, A>(
                before,
                env,
                agent,
                terminal_value,
                start,
                (playouts - 1) as nat,
            ) && #[trigger] after.has_played::<E, A>(
                last,
                env,
                agent,
                terminal_value,
                start,
                path,
                repeat,
                mid,
            );
        let first = law_simulation_runs_its_playouts::<R, E, A>(
            before,
            last,
            env,
            agent,
            terminal_value,
            start,
            (playouts - 1) as nat,
        );
        let graphs = first.push(after);
        assert forall|i: int|
            #![trigger graphs[i]]
            0 <= i < playouts implies plays_once::<R, E, A>(
            graphs[i],
            graphs[i + 1],
            env,
            agent,
            terminal_value,
            start,
        ) by {
            if i < playouts - 1 {
                assert(graphs[i] == first[i]);
                assert(graphs[i + 1] == first[i + 1]);
            } else {
                assert(graphs[i] == last);
            }
        }
        graphs
    }
}

/// Law: a search by simulation starts from a node for the state of the game: the one it has, or a
/// new one.
pub proof fn law_simulation_starts_at_the_game<R: Scalar, E: Environment<R>, A: Agent<R>>(
    before: Graph<R>,
    after: Graph<R>,
    env: E,
    agent: A,
    terminal_value: R,
    start: usize,
    playouts: nat,
) -> (first: Graph<R>)
    requires
        after.has_searched::<E, A>(before, env, agent, terminal_value, start, playouts),
    ensures
        after.has_run::<E, A>(first, env, agent, terminal_value, start, playouts),
        before.table.contains_key(env.spec_hash()) ==> first == before && start
            == before.table[env.spec_hash()],
        !before.table.contains_key(env.spec_hash()) ==> {
            &&& start == before.nodes.len()
            &&& first.nodes.len() == before.nodes.len() + 1
            &&& first.nodes.take(before.nodes.len() as int) == before.nodes
            &&& first.table == before.table.insert(env.spec_hash(), start)
            &&& is_created::<R, E, A>(
                first.nodes[before.nodes.len() as int],
                env,
                agent,
                terminal_value,
            )
        },
{
    let first = choose|first: Graph<R>| #[trigger]
        first.has_ensured::<E, A>(before, env, agent, terminal_value, start) && after.has_run::<
            E,
            A,
        >(first, env, agent, terminal_value, start, playouts);
    if !before.table.contains_key(env.spec_hash()) {
        assert(first.nodes.take(before.nodes.len() as int) =~= first.nodes.drop_last());
    }
    first
}

/// Law: a node of a simulation that is burdened has one virtual loss more on the action, and is
/// else as it was.
pub proof fn law_simulation_burdens_one_action<R: Scalar>(
    n: par_node::Node<R>,
    m: par_node::Node<R>,
    action: i32,
    b: i32,
)
    requires
        is_burdened(n, m, action),
        n.virtual_losses@.contains_key(action),
        n.virtual_losses@[action] < u32::MAX,
    ensures
        m.virtual_losses@.dom() == n.virtual_losses@.dom(),
        m.virtual_losses@[action] == n.virtual_losses@[action] + 1,
        b != action && n.virtual_losses@.contains_key(b) ==> m.virtual_losses@[b]
            == n.virtual_losses@[b],
        m.edge_visits == n.edge_visits,
        m.value == n.value,
        m.children == n.children,
        m.edge_penalties == n.edge_penalties,
        m.priors == n.priors,
{
}

/// Law: an expanded leaf is new in its graph, with what the agent infers of it, and the last step
/// of its path leads to it; nothing else changes.
pub proof fn law_simulation_grows_by_its_leaf<R: Scalar, E: Environment<R>, A: Agent<R>>(
    before: Graph<R>,
    after: Graph<R>,
    env: E,
    agent: A,
    terminal_value: R,
    path: Seq<(u64, i32)>,
    i: int,
)
    requires
        after.has_grown::<E, A>(before, env, agent, terminal_value, path),
        !before.table.contains_key(env.spec_hash()),
        path.len() > 0,
        before.table.contains_key(path.last().0),
        before.table[path.last().0] < before.nodes.len() <= usize::MAX,
        0 <= i < before.nodes.len(),
    ensures
        after.nodes.len() == before.nodes.len() + 1,
        is_created::<R, E, A>(
            after.nodes[before.nodes.len() as int],
            env,
            agent,
            terminal_value,
        ),
        after.table == before.table.insert(env.spec_hash(), before.nodes.len() as usize),
        i != before.table[path.last().0] ==> after.nodes[i] == before.nodes[i],
        i == before.table[path.last().0] ==> {
            &&& after.nodes[i].children@ == before.nodes[i].children@.insert(
                path.last().1,
                before.nodes.len() as usize,
            )
            &&& after.nodes[i].edge_visits == before.nodes[i].edge_visits
            &&& after.nodes[i].value == before.nodes[i].value
            &&& after.nodes[i].virtual_losses == before.nodes[i].virtual_losses
        },
{
    let mid = choose|mid: Graph<R>| #[trigger]
        mid.has_added::<E, A>(before, env, agent, terminal_value) && after.has_relinked(
            mid,
            path,
            before.nodes.len() as usize,
        );
    assert(mid.nodes.drop_last()[i] == before.nodes[i]);
    assert(path.last().0 != env.spec_hash());
}

} // verus!
