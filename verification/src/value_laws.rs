//! What backing a playout up does to the values of a tree, and what a new node is made of.

use crate::environment::{Act, Environment};
use crate::flight::{lemma_backed_up, lemma_backpropagated, lemma_without_losses, simple, Path};
use crate::mcts::{new_node, on_path};
use crate::node::{NodeId, NodeView};
use crate::puct_laws::lemma_total_folds;
use crate::scalar::{over, plus, times, zero, Scalar};
use crate::search::{backed_up, backpropagated, penalized, visited, without_losses};
use crate::tree::{
    adjust, expanded_visits, prior_mass, recomputed, spec_normalize_prior, weighted_values, Tree,
};
use vstd::prelude::*;

verus! {

/// The visits of expanded edges, as a sum from the left.
proof fn lemma_expanded_folds<A: Act, R: Scalar>(node: NodeView<A, R>, k: nat)
    requires
        node.sized(),
        k <= node.valid_actions.len(),
    ensures
        expanded_visits(node, k) == node.valid_actions.take(k as int).fold_left(
            0int,
            |sum: int, a: A|
                if node.children[a.spec_index() as int] is Some {
                    sum + node.edge_visits[a.spec_index() as int]
                } else {
                    sum
                },
        ),
    decreases k,
{
    if k > 0 {
        lemma_expanded_folds(node, (k - 1) as nat);
        let s = node.valid_actions.take(k as int);
        assert(s.drop_last() =~= node.valid_actions.take(k - 1));
    }
}

/// The weighted values of the children, as a sum from the left.
proof fn lemma_weighted_folds<A: Act, R: Scalar>(tree: Tree<A, R>, node: NodeView<A, R>, k: nat)
    requires
        node.sized(),
        k <= node.valid_actions.len(),
    ensures
        weighted_values(tree, node, k) == node.valid_actions.take(k as int).fold_left(
            zero(),
            |sum: R, a: A|
                {
                    let i = a.spec_index() as int;
                    if node.children[i] is Some && node.edge_visits[i] > 0 && tree.contains_key(
                        node.children[i]->0,
                    ) {
                        plus(
                            sum,
                            times(
                                R::spec_count(node.edge_visits[i]),
                                plus(tree[node.children[i]->0].value, node.edge_penalties[i]),
                            ),
                        )
                    } else {
                        sum
                    }
                },
        ),
    decreases k,
{
    if k > 0 {
        lemma_weighted_folds(tree, node, (k - 1) as nat);
        let s = node.valid_actions.take(k as int);
        assert(s.drop_last() =~= node.valid_actions.take(k - 1));
    }
}

/// Law: the value of a node is the average of its own estimate, taken once, and of the current
/// values of its children, each with the penalty of its edge and as often as the edge was visited.
/// Virtual losses count as visits of value 0. A node without visits has its estimate. Nothing but
/// the value and the visit count is touched.
pub proof fn law_value_is_average<A: Act, R: Scalar>(tree: Tree<A, R>, node: NodeView<A, R>)
    requires
        node.sized(),
    ensures
        ({
            let visits = node.valid_actions.fold_left(
                0int,
                |sum: int, a: A|
                    if node.children[a.spec_index() as int] is Some {
                        sum + node.edge_visits[a.spec_index() as int]
                    } else {
                        sum
                    },
            ) + node.virtual_losses.fold_left(0int, |sum: int, x: usize| sum + x);
            let found = node.valid_actions.fold_left(
                R::spec_decimal(0, 0),
                |sum: R, a: A|
                    {
                        let i = a.spec_index() as int;
                        if node.children[i] is Some && node.edge_visits[i] > 0
                            && tree.contains_key(node.children[i]->0) {
                            plus(
                                sum,
                                times(
                                    R::spec_count(node.edge_visits[i]),
                                    plus(
                                        tree[node.children[i]->0].value,
                                        node.edge_penalties[i],
                                    ),
                                ),
                            )
                        } else {
                            sum
                        }
                    },
            );
            recomputed(tree, node) == (NodeView {
                node_visits: (1 + visits) as usize,
                value: if visits == 0 {
                    node.value_estimate
                } else {
                    over(
                        plus(node.value_estimate, found),
                        R::spec_count((1 + visits) as usize),
                    )
                },
                ..node
            })
        }),
{
    let n = node.valid_actions.len();
    lemma_expanded_folds(node, n);
    lemma_weighted_folds(tree, node, n);
    lemma_total_folds(node.virtual_losses);
    assert(node.valid_actions.take(n as int) =~= node.valid_actions);
}

/// The weighted values depend on the values of the children alone.
proof fn lemma_weighted_same<A: Act, R: Scalar>(
    t: Tree<A, R>,
    u: Tree<A, R>,
    node: NodeView<A, R>,
    k: nat,
)
    requires
        k <= node.valid_actions.len(),
        forall|i: int|
            0 <= i < node.valid_actions.len() ==> (match node.child(
                #[trigger] node.valid_actions[i],
            ) {
                Some(c) => t.contains_key(c) == u.contains_key(c) && (t.contains_key(c)
                    ==> t[c].value == u[c].value),
                None => true,
            }),
    ensures
        weighted_values(t, node, k) == weighted_values(u, node, k),
    decreases k,
{
    if k > 0 {
        lemma_weighted_same(t, u, node, (k - 1) as nat);
        let a = node.valid_actions[k - 1];
        assert(node.child(a) == node.child(node.valid_actions[k - 1]));
    }
}

/// Law: what a node is worth depends on its children through their current values alone. Two trees
/// with the same children of a node, and with the same values of these, give it the same value,
/// whatever the estimates, the visits and everything else in the trees are.
pub proof fn law_value_reads_child_values_alone<A: Act, R: Scalar>(
    t: Tree<A, R>,
    u: Tree<A, R>,
    node: NodeView<A, R>,
)
    requires
        node.sized(),
        forall|k: int|
            0 <= k < node.num_actions ==> (match #[trigger] node.children[k] {
                Some(c) => t.contains_key(c) == u.contains_key(c) && (t.contains_key(c)
                    ==> t[c].value == u[c].value),
                None => true,
            }),
    ensures
        recomputed(t, node) == recomputed(u, node),
{
    assert forall|i: int| 0 <= i < node.valid_actions.len() implies (match node.child(
        #[trigger] node.valid_actions[i],
    ) {
        Some(c) => t.contains_key(c) == u.contains_key(c) && (t.contains_key(c) ==> t[c].value
            == u[c].value),
        None => true,
    }) by {
        assert(node.child(node.valid_actions[i])
            == node.children[node.valid_actions[i].spec_index() as int]);
    }
    lemma_weighted_same(t, u, node, node.valid_actions.len());
}

/// Law: the visit count and the value that a node had before do not enter those that are computed
/// anew.
pub proof fn law_value_forgets_itself<A: Act, R: Scalar>(
    tree: Tree<A, R>,
    node: NodeView<A, R>,
    visits: usize,
    value: R,
)
    requires
        node.sized(),
    ensures
        recomputed(tree, NodeView { node_visits: visits, value, ..node }) == recomputed(tree, node),
{
    let other = NodeView { node_visits: visits, value, ..node };
    lemma_recomputed_edges(tree, node, other, node.valid_actions.len());
}

/// Nodes that differ in the visit count and the value alone are computed from the same.
proof fn lemma_recomputed_edges<A: Act, R: Scalar>(
    tree: Tree<A, R>,
    x: NodeView<A, R>,
    y: NodeView<A, R>,
    k: nat,
)
    requires
        y == (NodeView { node_visits: y.node_visits, value: y.value, ..x }),
        k <= x.valid_actions.len(),
    ensures
        expanded_visits(x, k) == expanded_visits(y, k),
        weighted_values(tree, x, k) == weighted_values(tree, y, k),
    decreases k,
{
    if k > 0 {
        lemma_recomputed_edges(tree, x, y, (k - 1) as nat);
    }
}

/// A node that was counted on a path is computed from the tree that the path leaves.
proof fn lemma_backed_average<A: Act, R: Scalar>(tree: Tree<A, R>, path: Path<A>, i: int)
    requires
        simple(path),
        forall|j: int| 0 <= j < path.len() ==> tree.contains_key((#[trigger] path[j]).0),
        0 <= i < path.len(),
        tree[path[i].0].sized(),
        forall|k: int, j: int|
            #![trigger tree[path[i].0].children[k], path[j]]
            0 <= k < tree[path[i].0].num_actions && 0 <= j <= i ==> tree[path[i].0].children[k]
                != Some(path[j].0),
    ensures
        backed_up(tree, path)[path[i].0] == recomputed(
            backed_up(tree, path),
            backed_up(tree, path)[path[i].0],
        ),
    decreases path.len(),
{
    let u = backed_up(tree, path);
    lemma_backed_up(tree, path);
    let init = path.drop_last();
    let last = path.last();
    assert(tree.contains_key(path[path.len() - 1].0));
    let t = visited(tree, last.0, last.1);
    assert(t.dom() =~= tree.dom());
    assert(simple(init)) by {
        assert forall|a: int, b: int| 0 <= a < b < init.len() implies (#[trigger] init[a]).0 != (
        #[trigger] init[b]).0 by {
            assert(path[a].0 != path[b].0);
        }
    }
    assert forall|j: int| 0 <= j < init.len() implies t.contains_key((#[trigger] init[j]).0) by {
        assert(init[j] == path[j]);
    }
    if i < path.len() - 1 {
        assert(init[i] == path[i]);
        assert(path[i].0 != path[path.len() - 1].0);
        assert(t[path[i].0] == tree[path[i].0]);
        assert forall|k: int, j: int|
            #![trigger t[init[i].0].children[k], init[j]]
            0 <= k < t[init[i].0].num_actions && 0 <= j <= i implies t[init[i].0].children[k]
            != Some(init[j].0) by {
            assert(init[j] == path[j]);
            assert(tree[path[i].0].children[k] != Some(path[j].0));
        }
        lemma_backed_average(t, init, i);
    } else {
        lemma_backed_up(t, init);
        assert(!on_path(init, last.0)) by {
            if on_path(init, last.0) {
                let j = choose|j: int| 0 <= j < init.len() && (#[trigger] init[j]).0 == last.0;
                assert(path[j].0 != path[path.len() - 1].0);
            }
        }
        let mid = adjust(tree, last.0, |n: NodeView<A, R>| n.with_visit(last.1));
        let node = mid[last.0];
        assert(u[last.0] == t[last.0]);
        assert(t[last.0] == recomputed(mid, node));
        assert forall|k: int| 0 <= k < node.num_actions implies (match #[trigger] node.children[k] {
            Some(c) => mid.contains_key(c) == u.contains_key(c) && (mid.contains_key(c)
                ==> mid[c].value == u[c].value),
            None => true,
        }) by {
            if let Some(c) = node.children[k] {
                assert(tree[path[i].0].children[k] == Some(c));
                assert(!on_path(path, c)) by {
                    if on_path(path, c) {
                        let j = choose|j: int|
                            0 <= j < path.len() && (#[trigger] path[j]).0 == c;
                        assert(tree[path[i].0].children[k] != Some(path[j].0));
                    }
                }
                assert(c != last.0) by {
                    assert(tree[path[i].0].children[k] != Some(path[i].0));
                }
                assert(u[c] == tree[c]);
                assert(mid[c] == tree[c]);
                assert(u.contains_key(c) == u.dom().contains(c));
                assert(mid.contains_key(c) == tree.contains_key(c));
                assert(tree.contains_key(c) == tree.dom().contains(c));
            }
        }
        law_value_reads_child_values_alone(mid, u, node);
        let x = u[last.0];
        law_value_forgets_itself(u, node, x.node_visits, x.value);
        assert(x == (NodeView { node_visits: x.node_visits, value: x.value, ..node }));
    }
}

/// Law: backing a playout up makes the value of each node on its path the average over the values
/// that its children have in the tree that comes out, so that what is found below a node reaches
/// it. This is of paths that go through no node twice, and of nodes from which no edge leads back
/// to themselves or to a node before them on the path.
pub proof fn law_backup_reaches_every_node<A: Act, R: Scalar>(
    tree: Tree<A, R>,
    path: Path<A>,
    repeat: bool,
    i: int,
)
    requires
        simple(path),
        forall|j: int| 0 <= j < path.len() ==> tree.contains_key((#[trigger] path[j]).0),
        0 <= i < path.len(),
        tree[path[i].0].sized(),
        forall|k: int, j: int|
            #![trigger tree[path[i].0].children[k], path[j]]
            0 <= k < tree[path[i].0].num_actions && 0 <= j <= i ==> tree[path[i].0].children[k]
                != Some(path[j].0),
    ensures
        ({
            let after = backpropagated(tree, path, repeat);
            let node = after[path[i].0];
            let visits = node.valid_actions.fold_left(
                0int,
                |sum: int, a: A|
                    if node.children[a.spec_index() as int] is Some {
                        sum + node.edge_visits[a.spec_index() as int]
                    } else {
                        sum
                    },
            ) + node.virtual_losses.fold_left(0int, |sum: int, x: usize| sum + x);
            let found = node.valid_actions.fold_left(
                R::spec_decimal(0, 0),
                |sum: R, a: A|
                    {
                        let i = a.spec_index() as int;
                        if node.children[i] is Some && node.edge_visits[i] > 0
                            && after.contains_key(node.children[i]->0) {
                            plus(
                                sum,
                                times(
                                    R::spec_count(node.edge_visits[i]),
                                    plus(
                                        after[node.children[i]->0].value,
                                        node.edge_penalties[i],
                                    ),
                                ),
                            )
                        } else {
                            sum
                        }
                    },
            );
            &&& node.node_visits == (1 + visits) as usize
            &&& node.value == (if visits == 0 {
                node.value_estimate
            } else {
                over(plus(node.value_estimate, found), R::spec_count((1 + visits) as usize))
            })
        }),
{
    let t1 = without_losses(tree, path);
    lemma_without_losses(tree, path);
    assert(forall|id: NodeId| t1.contains_key(id) == t1.dom().contains(id));
    assert(forall|id: NodeId| tree.contains_key(id) == tree.dom().contains(id));
    let t2 = penalized(t1, path, repeat);
    assert(tree.contains_key(path[path.len() - 1].0));
    assert(t2.dom() =~= t1.dom());
    assert forall|j: int| 0 <= j < path.len() implies t2.contains_key((#[trigger] path[j]).0) by {
        assert(t1.contains_key(path[j].0));
    }
    let x = tree[path[i].0];
    let y = t2[path[i].0];
    assert(t1[path[i].0] == x.without_virtual_loss(path[i].1));
    assert(y.children == x.children && y.num_actions == x.num_actions && y.sized());
    assert forall|k: int, j: int|
        #![trigger t2[path[i].0].children[k], path[j]]
        0 <= k < t2[path[i].0].num_actions && 0 <= j <= i implies t2[path[i].0].children[k] != Some(
        path[j].0,
    ) by {
        assert(x.children[k] != Some(path[j].0));
    }
    lemma_backed_up(t2, path);
    lemma_backed_average(t2, path, i);
    let after = backpropagated(tree, path, repeat);
    let node = after[path[i].0];
    assert(node.sized());
    law_value_is_average(after, node);
}

/// Law: backing a playout up counts one visit more, and one virtual loss less where there is one,
/// on the edge that its path takes at each of its nodes. Other edges, the links, the priors and
/// the estimates stay, and so does every node off the path.
pub proof fn law_backup_counts_each_edge_once<A: Act, R: Scalar>(
    tree: Tree<A, R>,
    path: Path<A>,
    repeat: bool,
    i: int,
    id: NodeId,
)
    requires
        simple(path),
        forall|j: int| 0 <= j < path.len() ==> tree.contains_key((#[trigger] path[j]).0),
        0 <= i < path.len(),
        tree[path[i].0].sized(),
        path[i].1.spec_index() < tree[path[i].0].num_actions,
    ensures
        ({
            let before = tree[path[i].0];
            let after = backpropagated(tree, path, repeat)[path[i].0];
            let k = path[i].1.spec_index() as int;
            &&& after.edge_visits == before.edge_visits.update(
                k,
                (before.edge_visits[k] + 1) as usize,
            )
            &&& after.virtual_losses == (if before.virtual_losses[k] > 0 {
                before.virtual_losses.update(k, (before.virtual_losses[k] - 1) as usize)
            } else {
                before.virtual_losses
            })
            &&& after.children == before.children
            &&& after.prior_probs == before.prior_probs
            &&& after.value_estimate == before.value_estimate
            &&& after.valid_actions == before.valid_actions
        }),
        (forall|j: int| 0 <= j < path.len() ==> (#[trigger] path[j]).0 != id) ==> backpropagated(
            tree,
            path,
            repeat,
        )[id] == tree[id] && backpropagated(tree, path, repeat).contains_key(id)
            == tree.contains_key(id),
{
    lemma_backpropagated(tree, path, repeat);
    let u = backpropagated(tree, path, repeat);
    assert(u.contains_key(id) == u.dom().contains(id));
    assert(tree.contains_key(id) == tree.dom().contains(id));
    let x = u[path[i].0];
    let y = tree[path[i].0].without_virtual_loss(path[i].1).with_visit(path[i].1);
    assert(x == (NodeView {
        node_visits: x.node_visits,
        value: x.value,
        edge_penalties: x.edge_penalties,
        ..y
    }));
}

/// The sum of the priors of some actions, as a sum from the left.
proof fn lemma_prior_mass_folds<A: Act, R: Scalar>(priors: Map<A, R>, actions: Seq<A>, k: nat)
    requires
        k <= actions.len(),
    ensures
        prior_mass(priors, actions, k) == actions.take(k as int).fold_left(
            zero(),
            |sum: R, a: A|
                if priors.contains_key(a) {
                    plus(sum, priors[a])
                } else {
                    sum
                },
        ),
    decreases k,
{
    if k > 0 {
        lemma_prior_mass_folds(priors, actions, (k - 1) as nat);
        assert(actions.take(k as int).drop_last() =~= actions.take(k - 1));
    }
}

/// Law: a prior is cut down to the actions of a state and divided by what it gives these together.
/// Where that is 0, all actions of the state have the same share.
pub proof fn law_prior_is_normalized<A: Act, R: Scalar>(priors: Map<A, R>, actions: Seq<A>, a: A)
    ensures
        ({
            let sum = actions.fold_left(
                R::spec_decimal(0, 0),
                |sum: R, b: A|
                    if priors.contains_key(b) {
                        plus(sum, priors[b])
                    } else {
                        sum
                    },
            );
            let normal = spec_normalize_prior(priors, actions);
            if R::spec_same(sum, R::spec_decimal(0, 0)) {
                &&& normal.contains_key(a) <==> actions.contains(a)
                &&& actions.contains(a) ==> normal[a] == over(
                    R::spec_decimal(1, 0),
                    R::spec_count(actions.len() as usize),
                )
            } else {
                &&& normal.contains_key(a) <==> actions.contains(a) && priors.contains_key(a)
                &&& actions.contains(a) && priors.contains_key(a) ==> normal[a] == over(
                    priors[a],
                    sum,
                )
            }
        }),
{
    lemma_prior_mass_folds(priors, actions, actions.len());
    assert(actions.take(actions.len() as int) =~= actions);
}

/// Law: a new node of a finished game holds the value it is given and no edge. One of a game that
/// goes on holds its value cut to the range from -1 to 1, an unvisited edge without child, loss or
/// penalty for each of its priors, and in the slot of each its prior.
pub proof fn law_new_node_holds_its_answer<E: Environment, R: Scalar>(
    v: NodeView<E::Act, R>,
    id: NodeId,
    priors: Map<E::Act, R>,
    value: R,
    a: E::Act,
)
    requires
        new_node::<E, R>(v, id, priors, value),
        forall|a: E::Act| #[trigger] priors.contains_key(a) ==> E::spec_actions(id).contains(a),
    ensures
        v.id == id,
        v.node_visits == 0,
        v.value == v.value_estimate,
        v.terminal_state == E::spec_done(id),
        v.num_actions == (if E::spec_done(id) {
            0
        } else {
            E::spec_num_actions(id)
        }),
        E::spec_done(id) ==> v.value == value && v.valid_actions.len() == 0,
        !E::spec_done(id) ==> {
            &&& v.value == (if R::spec_less(value, R::spec_decimal(-1, 0)) {
                R::spec_decimal(-1, 0)
            } else if R::spec_less(R::spec_decimal(1, 0), value) {
                R::spec_decimal(1, 0)
            } else {
                value
            })
            &&& v.valid_actions.no_duplicates()
            &&& v.valid_actions.contains(a) <==> priors.contains_key(a)
            &&& priors.contains_key(a) ==> {
                let i = a.spec_index() as int;
                &&& i < v.num_actions
                &&& v.prior_probs[i] == priors[a]
                &&& v.children[i] is None
                &&& v.edge_visits[i] == 0
                &&& v.virtual_losses[i] == 0
                &&& v.edge_penalties[i] == R::spec_decimal(0, 0)
            }
        },
{
    if !E::spec_done(id) {
        let s = E::spec_actions(id);
        E::slots_law(id);
        assert(v.valid_actions.to_set().contains(a) == v.valid_actions.contains(a));
        if priors.contains_key(a) {
            let i = a.spec_index() as int;
            assert(s[s.index_of(a)] == a);
            let b = choose|b: E::Act| #[trigger]
                priors.contains_key(b) && b.spec_index() == i && priors[b] == v.prior_probs[i];
            assert(s[s.index_of(b)] == b);
            assert(a == b);
        }
    }
}

} // verus!
