//! What a playout does on its way down and back up: where it goes, where it stops, and what it
//! leaves on the edges that it takes.

use crate::environment::{Act, Environment};
use crate::flight::{law_playout_penalizes_returns, path_in, simple, Path};
use crate::mcts::on_path;
use crate::node::{lemma_most_visited, most_visited, NodeId, NodeView};
use crate::run::{batches, playouts};
use crate::scalar::{over, plus, Binary, Scalar};
use crate::search::{
    backpropagated, is_playout, lemma_with_losses, linked, path_end, path_open, playout_repeats,
    playout_stops, sound, with_losses,
};
use crate::tree::{best_scored, chosen_action, Tree, Tuning};
use vstd::prelude::*;

verus! {

/// Law: a search makes whole batches of playouts, as many as it takes to make all its steps and no
/// more.
pub proof fn law_steps_are_rounded_up(steps: usize, batch: usize)
    requires
        batch > 0,
    ensures
        playouts(steps, batch) == batches(steps, batch) * batch,
        steps <= playouts(steps, batch) < steps + batch,
{
    let count = (steps + batch - 1) / (batch as int);
    assert(steps <= count * batch < steps + batch && count >= 0) by (nonlinear_arith)
        requires
            batch > 0,
            steps >= 0,
            count == (steps + batch - 1) / (batch as int),
    ;
}

/// Law: a playout on its way down leaves one virtual loss on the edge that it takes at each of its
/// nodes, and changes nothing else.
pub proof fn law_way_down_leaves_one_loss<A: Act, R: Scalar>(
    tree: Tree<A, R>,
    path: Path<A>,
    i: int,
    id: NodeId,
)
    requires
        simple(path),
        forall|j: int| 0 <= j < path.len() ==> tree.contains_key((#[trigger] path[j]).0),
        0 <= i < path.len(),
        tree[path[i].0].sized(),
        path[i].1.spec_index() < tree[path[i].0].num_actions,
    ensures
        ({
            let before = tree[path[i].0];
            let k = path[i].1.spec_index() as int;
            with_losses(tree, path)[path[i].0] == (NodeView {
                virtual_losses: before.virtual_losses.update(
                    k,
                    (before.virtual_losses[k] + 1) as usize,
                ),
                ..before
            })
        }),
        with_losses(tree, path).contains_key(id) == tree.contains_key(id),
        (forall|j: int| 0 <= j < path.len() ==> (#[trigger] path[j]).0 != id) ==> with_losses(
            tree,
            path,
        )[id] == tree[id],
{
    lemma_with_losses(tree, path);
    let t = with_losses(tree, path);
    assert(t.contains_key(id) == t.dom().contains(id));
    assert(tree.contains_key(id) == tree.dom().contains(id));
}

/// Law: a playout that comes back to a state it had passed costs the edge that it took last one
/// over the number of actions there, each time. Any other playout costs nothing.
pub proof fn law_return_costs_its_edge<A: Act, R: Scalar>(
    tree: Tree<A, R>,
    root: NodeId,
    path: Path<A>,
    repeat: bool,
    id: NodeId,
)
    requires
        path_in(tree, root, path),
        tree.contains_key(id),
        tree[path.last().0].sized(),
    ensures
        ({
            let before = tree[id];
            let k = path.last().1.spec_index() as int;
            backpropagated(with_losses(tree, path), path, repeat)[id].edge_penalties == (if repeat
                && id == path.last().0 {
                before.edge_penalties.update(
                    k,
                    plus(
                        before.edge_penalties[k],
                        over(
                            R::spec_decimal(-1, 0),
                            R::spec_count(before.valid_actions.len() as usize),
                        ),
                    ),
                )
            } else {
                before.edge_penalties
            })
        }),
{
    law_playout_penalizes_returns(tree, root, path, repeat, id);
    assert(tree[path[path.len() - 1].0].valid_actions.contains(path[path.len() - 1].1));
    let node = tree[path.last().0];
    let m = node.valid_actions.index_of(path.last().1);
    assert(node.valid_actions[m] == path.last().1);
}

/// Law: what an edge was charged is given back by 1 at a time, up to nothing.
pub proof fn law_charge_is_given_back<A: Act, R: Scalar>(node: NodeView<A, R>, a: A)
    requires
        node.sized(),
        a.spec_index() < node.num_actions,
    ensures
        ({
            let k = a.spec_index() as int;
            node.without_penalty(a) == (NodeView {
                edge_penalties: node.edge_penalties.update(
                    k,
                    R::spec_binary(
                        Binary::Min,
                        plus(node.edge_penalties[k], R::spec_decimal(1, 0)),
                        R::spec_decimal(0, 0),
                    ),
                ),
                ..node
            })
        }),
{
}

/// Law: of several valid actions with the most visits the first one is selected.
pub proof fn law_first_of_most_visited_is_selected<A: Act, R: Scalar>(
    node: NodeView<A, R>,
    m: int,
)
    requires
        0 <= m < node.valid_actions.len(),
        node.edge_visits[node.valid_actions[m].spec_index() as int] > 0,
        forall|i: int|
            0 <= i < node.valid_actions.len() ==> node.edge_visits[(
            #[trigger] node.valid_actions[i]).spec_index() as int]
                <= node.edge_visits[node.valid_actions[m].spec_index() as int],
        forall|i: int|
            0 <= i < m ==> node.edge_visits[(#[trigger] node.valid_actions[i]).spec_index() as int]
                < node.edge_visits[node.valid_actions[m].spec_index() as int],
    ensures
        node.spec_select_action() == Some(node.valid_actions[m]),
{
    let n = node.valid_actions.len();
    lemma_most_visited(node.valid_actions, node.edge_visits, n);
    let b = most_visited(node.valid_actions, node.edge_visits, n)->0;
    let x = node.valid_actions[b];
    let y = node.valid_actions[m];
    if b < m {
        assert(node.edge_visits[x.spec_index() as int] < node.edge_visits[y.spec_index() as int]);
    }
    if m < b {
        assert(node.edge_visits[y.spec_index() as int] < node.edge_visits[x.spec_index() as int]);
    }
}

proof fn lemma_best_scored_in<A: Act, R: Scalar>(actions: Seq<A>, scores: Seq<R>, k: nat)
    ensures
        match best_scored(actions, scores, k) {
            Some(b) => 0 <= b < k,
            None => k == 0,
        },
    decreases k,
{
    if k > 0 {
        lemma_best_scored_in(actions, scores, (k - 1) as nat);
    }
}

/// Law: the states of a playout follow from one another by the actions that it takes, from the
/// root on, and it goes on only from states that are not at their end.
pub proof fn law_playout_is_a_line_of_play<E: Environment, R: Scalar>(
    tree: Tree<E::Act, R>,
    tuning: Tuning<E::Act, R>,
    c_puct: R,
    forced: bool,
    root: NodeId,
    path: Path<E::Act>,
    i: int,
)
    requires
        sound::<E, R>(tree),
        is_playout::<E, R>(tree, tuning, c_puct, forced, root, path),
        0 <= i < path.len(),
    ensures
        path[0].0 == root,
        !E::spec_done(path[i].0),
        tree.contains_key(path[i].0),
        tree[path[i].0].valid_actions.contains(path[i].1),
        i + 1 < path.len() ==> path[i + 1].0 == E::spec_next(path[i].0, path[i].1),
        path_end::<E>(root, path) == E::spec_next(path.last().0, path.last().1),
        forall|j: int| 0 <= j < path.len() && j != i ==> (#[trigger] path[j]).0 != path[i].0,
{
    let node = tree[path[i].0];
    let m = node.valid_actions.index_of(path[i].1);
    assert(node.valid_actions[m] == path[i].1);
    if i + 1 < path.len() {
        assert(tree[path[i + 1 - 1].0].child(path[i + 1 - 1].1) == Some(path[i + 1].0));
    }
    assert forall|j: int| 0 <= j < path.len() && j != i implies (#[trigger] path[j]).0
        != path[i].0 by {
        if j < i {
            assert(path[j].0 != path[i].0);
        } else {
            assert(path[i].0 != path[j].0);
        }
    }
}

/// Law: a playout stops exactly where it cannot go on: no action makes it into a longer one.
pub proof fn law_playout_stops_where_it_must<E: Environment, R: Scalar>(
    tree: Tree<E::Act, R>,
    tuning: Tuning<E::Act, R>,
    c_puct: R,
    forced: bool,
    root: NodeId,
    path: Path<E::Act>,
)
    requires
        sound::<E, R>(tree),
        is_playout::<E, R>(tree, tuning, c_puct, forced, root, path),
    ensures
        playout_stops::<E, R>(tree, tuning, c_puct, forced, root, path) <==> forall|a: E::Act|
            !#[trigger] is_playout::<E, R>(
                tree,
                tuning,
                c_puct,
                forced,
                root,
                path.push((path_end::<E>(root, path), a)),
            ),
{
    let end = path_end::<E>(root, path);
    if !playout_stops::<E, R>(tree, tuning, c_puct, forced, root, path) {
        let a = chosen_action(tree, tuning, end, c_puct, end == root, forced)->0;
        let node = tree[end];
        lemma_best_scored_in(
            node.valid_actions,
            crate::tree::scores_of(tree, node, tuning, c_puct, end == root, forced),
            node.valid_actions.len(),
        );
        assert(node.valid_actions.contains(a));
        let more = path.push((end, a));
        if path.len() > 0 {
            let last = path[path.len() - 1];
            assert(tree.contains_key(last.0));
            let m = tree[last.0].valid_actions.index_of(last.1);
            assert(tree[last.0].valid_actions[m] == last.1);
        }
        assert forall|i: int| 0 < i < more.len() implies tree[more[i - 1].0].child(more[i - 1].1)
            == Some((#[trigger] more[i]).0) by {
            if i < path.len() {
                assert(more[i] == path[i] && more[i - 1] == path[i - 1]);
            } else {
                assert(more[i - 1] == path[path.len() - 1]);
            }
        }
        assert forall|i: int, j: int| 0 <= i < j < more.len() implies (#[trigger] more[i]).0 != (
        #[trigger] more[j]).0 by {
            if j < path.len() {
                assert(path[i].0 != path[j].0);
            } else {
                assert(path[i] == more[i]);
            }
        }
        assert(is_playout::<E, R>(tree, tuning, c_puct, forced, root, path.push((end, a))));
    } else {
        assert forall|a: E::Act| !#[trigger] is_playout::<E, R>(
            tree,
            tuning,
            c_puct,
            forced,
            root,
            path.push((end, a)),
        ) by {
            let more = path.push((end, a));
            if is_playout::<E, R>(tree, tuning, c_puct, forced, root, more) {
                let n = path.len() as int;
                assert(more[n] == (end, a));
                assert(tree.contains_key(more[n].0));
                if on_path(path, end) {
                    let i = choose|i: int| 0 <= i < path.len() && (#[trigger] path[i]).0 == end;
                    assert(more[i].0 != more[n].0);
                }
                if n > 0 {
                    assert(tree[more[n - 1].0].child(more[n - 1].1) == Some(more[n].0));
                    assert(more[n - 1] == path.last());
                }
                assert(path_open(tree, path));
            }
        }
    }
}

/// Law: a playout comes back exactly where its last action leads, along an edge of the tree, to a
/// state that is on its path.
pub proof fn law_playout_repeats_where_it_was<E: Environment, R: Scalar>(
    tree: Tree<E::Act, R>,
    tuning: Tuning<E::Act, R>,
    c_puct: R,
    forced: bool,
    root: NodeId,
    path: Path<E::Act>,
)
    requires
        sound::<E, R>(tree),
        is_playout::<E, R>(tree, tuning, c_puct, forced, root, path),
    ensures
        playout_repeats::<E, R>(tree, root, path) <==> path.len() > 0
            && tree[path.last().0].child(path.last().1) is Some && exists|i: int|
            0 <= i < path.len() && (#[trigger] path[i]).0 == E::spec_next(
                path.last().0,
                path.last().1,
            ),
{
    let end = path_end::<E>(root, path);
    if path.len() > 0 && exists|i: int| 0 <= i < path.len() && (#[trigger] path[i]).0 == end {
        let i = choose|i: int| 0 <= i < path.len() && (#[trigger] path[i]).0 == end;
        assert(tree.contains_key(path[i].0));
        assert(on_path(path, end));
    }
}

/// Law: linking a leaf to its parent records it for its action, unless a child is recorded there,
/// and changes nothing else.
pub proof fn law_link_keeps_recorded_child<A: Act, R: Scalar>(
    tree: Tree<A, R>,
    parent: NodeId,
    a: A,
    child: NodeId,
    id: NodeId,
)
    requires
        tree.contains_key(parent),
        tree[parent].sized(),
        a.spec_index() < tree[parent].num_actions,
    ensures
        ({
            let before = tree[parent];
            let k = a.spec_index() as int;
            linked(tree, parent, a, child)[parent] == (NodeView {
                children: if before.children[k] is Some {
                    before.children
                } else {
                    before.children.update(k, Some(child))
                },
                ..before
            })
        }),
        linked(tree, parent, a, child).contains_key(id) == tree.contains_key(id),
        id != parent ==> linked(tree, parent, a, child)[id] == tree[id],
{
}

} // verus!
