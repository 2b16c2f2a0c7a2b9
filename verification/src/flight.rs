//! What holds between the playouts of a run: which virtual losses are outstanding, how many
//! visits were counted, and what the tree keeps.

use crate::environment::{Act, Environment};
use crate::mcts::on_path;
use crate::node::{lemma_total_bounds, lemma_total_update, total, NodeId, NodeView};
use crate::scalar::Scalar;
use crate::search::{
    backed_up, backpropagated, fits_state, lemma_with_losses, linked, penalized, sound, visited,
    with_losses,
    without_losses,
};
use crate::tree::{adjust, Tree};
use vstd::prelude::*;

verus! {

/// A path of a playout: node ids with the action taken there.
pub type Path<A> = Seq<(NodeId, A)>;

/// Whether no node occurs twice on a path.
pub open spec fn simple<A>(path: Path<A>) -> bool {
    forall|i: int, j: int|
        0 <= i < j < path.len() ==> (#[trigger] path[i]).0 != (#[trigger] path[j]).0
}

/// Whether a path starts at `root` and takes valid actions of nodes in the tree, none of them
/// twice.
pub open spec fn path_in<A: Act, R: Scalar>(tree: Tree<A, R>, root: NodeId, path: Path<A>) -> bool {
    &&& path.len() > 0
    &&& path[0].0 == root
    &&& simple(path)
    &&& forall|i: int|
        0 <= i < path.len() ==> tree.contains_key((#[trigger] path[i]).0)
            && tree[path[i].0].valid_actions.contains(path[i].1)
}

/// Whether a path takes an action with the slot `k` at the node `id`.
pub open spec fn uses<A: Act>(path: Path<A>, id: NodeId, k: int) -> bool {
    exists|i: int| 0 <= i < path.len() && (#[trigger] path[i]).0 == id && path[i].1.spec_index() == k
}

/// How many of the paths take an action with the slot `k` at the node `id`.
pub open spec fn owed<A: Act>(waiting: Seq<Path<A>>, id: NodeId, k: int) -> nat
    decreases waiting.len(),
{
    if waiting.len() == 0 {
        0
    } else {
        owed(waiting.drop_last(), id, k) + (if uses(waiting.last(), id, k) {
            1nat
        } else {
            0
        })
    }
}

/// The virtual losses that a tree has at a slot; 0 for a node that it does not have.
pub open spec fn losses_at<A: Act, R: Scalar>(tree: Tree<A, R>, id: NodeId, k: int) -> nat {
    if tree.contains_key(id) {
        tree[id].virtual_losses[k] as nat
    } else {
        0
    }
}

/// The visits that a tree counts at a node; 0 for a node that it does not have.
pub open spec fn visits_at<A: Act, R: Scalar>(tree: Tree<A, R>, id: NodeId) -> nat {
    if tree.contains_key(id) {
        total(tree[id].edge_visits)
    } else {
        0
    }
}

/// The load of a node; 0 for a node that the tree does not have.
pub open spec fn load_at<A: Act, R: Scalar>(tree: Tree<A, R>, id: NodeId) -> nat {
    if tree.contains_key(id) {
        tree[id].load()
    } else {
        0
    }
}

/// Whether `b` is the node `a` later on: what it was made of is the same, a recorded child
/// stays, and visits are not lost.
pub open spec fn node_grown<A: Act, R: Scalar>(a: NodeView<A, R>, b: NodeView<A, R>) -> bool {
    &&& a.id == b.id
    &&& a.num_actions == b.num_actions
    &&& a.valid_actions == b.valid_actions
    &&& a.prior_probs == b.prior_probs
    &&& a.value_estimate == b.value_estimate
    &&& a.terminal_state == b.terminal_state
    &&& a.repr == b.repr
    &&& a.children.len() == b.children.len()
    &&& forall|k: int|
        0 <= k < a.children.len() && (#[trigger] a.children[k]) is Some ==> b.children[k]
            == a.children[k]
    &&& a.edge_visits.len() == b.edge_visits.len()
    &&& forall|k: int|
        0 <= k < a.edge_visits.len() ==> (#[trigger] a.edge_visits[k]) <= b.edge_visits[k]
}

/// Whether `b` is the tree `a` later on: every node of it is still there.
pub open spec fn grown<A: Act, R: Scalar>(a: Tree<A, R>, b: Tree<A, R>) -> bool {
    forall|id: NodeId| #[trigger]
        a.contains_key(id) ==> b.contains_key(id) && node_grown(a[id], b[id])
}

/// Whether all nodes are well formed and have the ids they are found by.
pub open spec fn nodes_wf<A: Act, R: Scalar>(tree: Tree<A, R>) -> bool {
    forall|id: NodeId| #[trigger] tree.contains_key(id) ==> tree[id].wf() && tree[id].id == id
}

/// The state of a run that started from the tree `base`: `waiting` are the paths whose result
/// was not backed up yet, `done` playouts were, and `started` were begun.
pub open spec fn in_flight<E: Environment, R: Scalar>(
    base: Tree<E::Act, R>,
    tree: Tree<E::Act, R>,
    root: NodeId,
    waiting: Seq<Path<E::Act>>,
    done: nat,
    started: nat,
) -> bool {
    &&& base.contains_key(root)
    &&& grown(base, tree)
    &&& nodes_wf(tree)
    &&& sound::<E, R>(tree)
    &&& forall|p: int| 0 <= p < waiting.len() ==> path_in(tree, root, #[trigger] waiting[p])
    &&& forall|id: NodeId, k: int|
        #![trigger tree[id].virtual_losses[k]]
        tree.contains_key(id) && 0 <= k < tree[id].num_actions ==> tree[id].virtual_losses[k]
            == losses_at(base, id, k) + owed(waiting, id, k)
    &&& forall|id: NodeId| #[trigger]
        tree.contains_key(id) ==> tree[id].load() <= load_at(base, id) + started
    &&& visits_at(tree, root) == visits_at(base, root) + done
    &&& done + waiting.len() <= started
    &&& base[root].valid_actions.len() > 0 ==> done + waiting.len() == started
}

pub proof fn lemma_owed_remove<A: Act>(waiting: Seq<Path<A>>, j: int, id: NodeId, k: int)
    requires
        0 <= j < waiting.len(),
    ensures
        owed(waiting.remove(j), id, k) + (if uses(waiting[j], id, k) {
            1nat
        } else {
            0
        }) == owed(waiting, id, k),
    decreases waiting.len(),
{
    if j == waiting.len() - 1 {
        assert(waiting.remove(j) =~= waiting.drop_last());
    } else {
        lemma_owed_remove(waiting.drop_last(), j, id, k);
        assert(waiting.remove(j).drop_last() =~= waiting.drop_last().remove(j));
    }
}

/// A node that no waiting path can be at owes nothing.
pub proof fn lemma_owed_absent<A: Act, R: Scalar>(
    tree: Tree<A, R>,
    root: NodeId,
    waiting: Seq<Path<A>>,
    id: NodeId,
    k: int,
)
    requires
        !tree.contains_key(id),
        forall|p: int| 0 <= p < waiting.len() ==> path_in(tree, root, #[trigger] waiting[p]),
    ensures
        owed(waiting, id, k) == 0,
    decreases waiting.len(),
{
    if waiting.len() > 0 {
        assert forall|p: int| 0 <= p < waiting.drop_last().len() implies path_in(
            tree,
            root,
            #[trigger] waiting.drop_last()[p],
        ) by {
            assert(waiting[p] == waiting.drop_last()[p]);
        }
        lemma_owed_absent(tree, root, waiting.drop_last(), id, k);
        assert(path_in(tree, root, waiting[waiting.len() - 1]));
    }
}

/// A path stays a path while the tree grows.
proof fn lemma_path_grown<A: Act, R: Scalar>(
    a: Tree<A, R>,
    b: Tree<A, R>,
    root: NodeId,
    path: Path<A>,
)
    requires
        grown(a, b),
        path_in(a, root, path),
    ensures
        path_in(b, root, path),
{
    assert forall|i: int| 0 <= i < path.len() implies b.contains_key((#[trigger] path[i]).0)
        && b[path[i].0].valid_actions.contains(path[i].1) by {
        assert(a.contains_key(path[i].0));
    }
}

proof fn lemma_paths_grown<A: Act, R: Scalar>(
    a: Tree<A, R>,
    b: Tree<A, R>,
    root: NodeId,
    waiting: Seq<Path<A>>,
)
    requires
        grown(a, b),
        forall|p: int| 0 <= p < waiting.len() ==> path_in(a, root, #[trigger] waiting[p]),
    ensures
        forall|p: int| 0 <= p < waiting.len() ==> path_in(b, root, #[trigger] waiting[p]),
{
    assert forall|p: int| 0 <= p < waiting.len() implies path_in(b, root, #[trigger] waiting[p]) by {
        lemma_path_grown(a, b, root, waiting[p]);
    }
}

/// Growth adds up.
pub proof fn lemma_grown_trans<A: Act, R: Scalar>(a: Tree<A, R>, b: Tree<A, R>, c: Tree<A, R>)
    requires
        grown(a, b),
        grown(b, c),
    ensures
        grown(a, c),
{
    assert forall|id: NodeId| #[trigger] a.contains_key(id) implies c.contains_key(id)
        && node_grown(a[id], c[id]) by {
        assert(b.contains_key(id));
        assert(node_grown(a[id], b[id]) && node_grown(b[id], c[id]));
        assert forall|k: int| 0 <= k < a[id].children.len() && (
        #[trigger] a[id].children[k]) is Some implies c[id].children[k] == a[id].children[k] by {
            assert(b[id].children[k] is Some);
        }
        assert forall|k: int| 0 <= k < a[id].edge_visits.len() implies (
        #[trigger] a[id].edge_visits[k]) <= c[id].edge_visits[k] by {
            assert(a[id].edge_visits[k] <= b[id].edge_visits[k]);
        }
    }
}

/// The one place where a simple path is at a node.
proof fn lemma_uses_at<A: Act>(path: Path<A>, i: int, k: int)
    requires
        0 <= i < path.len(),
        simple(path),
    ensures
        uses(path, path[i].0, k) == (path[i].1.spec_index() == k),
{
    if uses(path, path[i].0, k) {
        let j = choose|j: int|
            0 <= j < path.len() && (#[trigger] path[j]).0 == path[i].0 && path[j].1.spec_index()
                == k;
        if j < i {
            assert(path[j].0 != path[i].0);
        } else if i < j {
            assert(path[i].0 != path[j].0);
        }
    }
}

/// A node stays tidy where its edges keep their visits and children.
proof fn lemma_tidy_same<A: Act, R: Scalar>(a: NodeView<A, R>, b: NodeView<A, R>)
    requires
        a.tidy(),
        b.num_actions == a.num_actions,
        b.valid_actions == a.valid_actions,
        b.edge_visits == a.edge_visits,
        b.children == a.children,
    ensures
        b.tidy(),
{
    reveal(NodeView::tidy);
    assert forall|k: int| 0 <= k < b.num_actions && !b.has_slot(k) implies b.edge_visits[k] == 0
        && b.children[k] is None by {
        if a.has_slot(k) {
            let i = choose|i: int|
                0 <= i < a.valid_actions.len() && (#[trigger] a.valid_actions[i]).spec_index() == k;
            assert(b.valid_actions[i].spec_index() == k);
        }
        assert(a.edge_visits[k] == 0);
    }
}

/// A node stays tidy where a valid action gets a child.
proof fn lemma_tidy_child<A: Act, R: Scalar>(a: NodeView<A, R>, action: A, child: NodeId)
    requires
        a.wf(),
        a.tidy(),
        a.valid_actions.contains(action),
    ensures
        a.linked_child(action, child).tidy(),
{
    reveal(NodeView::tidy);
    let b = a.linked_child(action, child);
    let m = a.valid_actions.index_of(action);
    assert(a.valid_actions[m] == action);
    assert(b.has_slot(action.spec_index() as int)) by {
        assert(b.valid_actions[m] == action);
    }
    assert forall|k: int| 0 <= k < b.num_actions && !b.has_slot(k) implies b.edge_visits[k] == 0
        && b.children[k] is None by {
        if a.has_slot(k) {
            let i = choose|i: int|
                0 <= i < a.valid_actions.len() && (#[trigger] a.valid_actions[i]).spec_index() == k;
            assert(b.valid_actions[i].spec_index() == k);
        }
        assert(a.edge_visits[k] == 0);
    }
}

/// A node stays tidy where a valid action gets a visit.
proof fn lemma_tidy_visit<A: Act, R: Scalar>(a: NodeView<A, R>, b: NodeView<A, R>, action: A)
    requires
        a.wf(),
        a.tidy(),
        a.valid_actions.contains(action),
        b.num_actions == a.num_actions,
        b.valid_actions == a.valid_actions,
        b.edge_visits == a.with_visit(action).edge_visits,
        b.children == a.children,
    ensures
        b.tidy(),
{
    reveal(NodeView::tidy);
    let m = a.valid_actions.index_of(action);
    assert(a.valid_actions[m] == action);
    assert(b.has_slot(action.spec_index() as int)) by {
        assert(b.valid_actions[m] == action);
    }
    assert forall|k: int| 0 <= k < b.num_actions && !b.has_slot(k) implies b.edge_visits[k] == 0
        && b.children[k] is None by {
        if a.has_slot(k) {
            let i = choose|i: int|
                0 <= i < a.valid_actions.len() && (#[trigger] a.valid_actions[i]).spec_index() == k;
            assert(b.valid_actions[i].spec_index() == k);
        }
        assert(a.edge_visits[k] == 0);
    }
}

/// A playout was selected: its virtual losses are outstanding.
pub proof fn lemma_step_select<E: Environment, R: Scalar>(
    base: Tree<E::Act, R>,
    tree: Tree<E::Act, R>,
    root: NodeId,
    waiting: Seq<Path<E::Act>>,
    done: nat,
    started: nat,
    path: Path<E::Act>,
)
    requires
        in_flight::<E, R>(base, tree, root, waiting, done, started),
        path_in(tree, root, path),
        forall|id: NodeId| #[trigger] tree.contains_key(id) ==> tree[id].load() < usize::MAX,
    ensures
        in_flight::<E, R>(
            base,
            with_losses(tree, path),
            root,
            waiting.push(path),
            done,
            started + 1,
        ),
{
    let t = with_losses(tree, path);
    lemma_with_losses(tree, path);
    assert(forall|id: NodeId| t.contains_key(id) == t.dom().contains(id));
    assert(forall|id: NodeId| tree.contains_key(id) == tree.dom().contains(id));
    let w = waiting.push(path);
    assert(w.drop_last() =~= waiting);
    assert forall|id: NodeId| #[trigger] tree.contains_key(id) implies ({
        let a = tree[id];
        let b = t[id];
        &&& node_grown(a, b)
        &&& b.wf()
        &&& b.children == a.children
        &&& b.edge_visits == a.edge_visits
        &&& b.load() <= a.load() + 1
        &&& forall|k: int| 0 <= k < a.num_actions ==> #[trigger] b.virtual_losses[k]
            == a.virtual_losses[k] + (if uses(path, id, k) {
            1nat
        } else {
            0
        })
    }) by {
        let a = tree[id];
        if on_path(path, id) {
            let i = choose|i: int| 0 <= i < path.len() && (#[trigger] path[i]).0 == id;
            let act = path[i].1;
            let k0 = act.spec_index() as int;
            assert(t[path[i].0] == a.with_virtual_loss(act));
            let m = a.valid_actions.index_of(act);
            assert(a.valid_actions[m] == act);
            lemma_total_bounds(a.virtual_losses, k0);
            lemma_total_update(a.virtual_losses, k0, (a.virtual_losses[k0] + 1) as usize);
            assert forall|k: int| 0 <= k < a.num_actions implies #[trigger] t[id].virtual_losses[k]
                == a.virtual_losses[k] + (if uses(path, id, k) {
                1nat
            } else {
                0
            }) by {
                lemma_uses_at(path, i, k);
            }
        } else {
            assert(t[id] == a);
            assert forall|k: int| 0 <= k < a.num_actions implies !uses(path, id, k) by {}
        }
    }
    assert(grown(tree, t));
    lemma_grown_trans(base, tree, t);
    lemma_paths_grown(tree, t, root, waiting);
    lemma_path_grown(tree, t, root, path);
    assert forall|p: int| 0 <= p < w.len() implies path_in(t, root, #[trigger] w[p]) by {
        if p < waiting.len() {
            assert(w[p] == waiting[p]);
        }
    }
    assert(sound::<E, R>(t)) by {
        assert forall|id: NodeId, i: int|
            #![trigger t[id].valid_actions[i]]
            t.contains_key(id) && 0 <= i < t[id].valid_actions.len() implies (match t[id].child(
            t[id].valid_actions[i],
        ) {
            Some(c) => c == E::spec_next(id, t[id].valid_actions[i]),
            None => true,
        }) by {
            assert(tree.contains_key(id));
            assert(tree[id].valid_actions[i] == t[id].valid_actions[i]);
        }
        assert forall|id: NodeId| #[trigger] t.contains_key(id) implies t[id].tidy()
            && fits_state::<E, R>(id, t[id]) by {
            assert(tree.contains_key(id));
            lemma_tidy_same(tree[id], t[id]);
        }
    }
    assert forall|id: NodeId, k: int|
        #![trigger t[id].virtual_losses[k]]
        t.contains_key(id) && 0 <= k < t[id].num_actions implies t[id].virtual_losses[k]
        == losses_at(base, id, k) + owed(w, id, k) by {
        assert(tree.contains_key(id));
        assert(tree[id].virtual_losses[k] == losses_at(base, id, k) + owed(waiting, id, k));
    }
    assert(tree.contains_key(root));
    assert forall|id: NodeId| #[trigger] t.contains_key(id) implies t[id].load() <= load_at(
        base,
        id,
    ) + (started + 1) && t[id].wf() && t[id].id == id by {
        assert(tree.contains_key(id));
    }
}

/// A playout that could not begin: the root has no action.
pub proof fn lemma_step_skip<E: Environment, R: Scalar>(
    base: Tree<E::Act, R>,
    tree: Tree<E::Act, R>,
    root: NodeId,
    waiting: Seq<Path<E::Act>>,
    done: nat,
    started: nat,
)
    requires
        in_flight::<E, R>(base, tree, root, waiting, done, started),
        tree[root].valid_actions.len() == 0,
    ensures
        in_flight::<E, R>(base, tree, root, waiting, done, started + 1),
{
    assert(node_grown(base[root], tree[root]));
}

/// A leaf was put into the tree and linked to its parent.
pub proof fn lemma_step_expand<E: Environment, R: Scalar>(
    base: Tree<E::Act, R>,
    tree: Tree<E::Act, R>,
    root: NodeId,
    waiting: Seq<Path<E::Act>>,
    done: nat,
    started: nat,
    middle: Tree<E::Act, R>,
    parent: NodeId,
    action: E::Act,
    leaf: NodeId,
)
    requires
        in_flight::<E, R>(base, tree, root, waiting, done, started),
        tree.contains_key(parent),
        tree[parent].valid_actions.contains(action),
        leaf == E::spec_next(parent, action),
        middle == tree || (!tree.contains_key(leaf) && middle.contains_key(leaf) && middle
            == tree.insert(leaf, middle[leaf]) && middle[leaf].wf() && middle[leaf].id == leaf
            && middle[leaf].load() == 0 && middle[leaf].tidy() && fits_state::<E, R>(
            leaf,
            middle[leaf],
        ) && (forall|i: int|
            0 <= i < middle[leaf].valid_actions.len() ==> middle[leaf].child(
                #[trigger] middle[leaf].valid_actions[i],
            ) is None)),
    ensures
        in_flight::<E, R>(
            base,
            linked(middle, parent, action, leaf),
            root,
            waiting,
            done,
            started,
        ),
{
    let t = linked(middle, parent, action, leaf);
    assert(middle.contains_key(parent));
    assert(tree.contains_key(root) && t.contains_key(root));
    assert forall|id: NodeId| #[trigger] tree.contains_key(id) implies t.contains_key(id)
        && node_grown(tree[id], t[id]) && t[id].edge_visits == tree[id].edge_visits
        && t[id].virtual_losses == tree[id].virtual_losses && t[id].wf() && t[id].id == id by {}
    assert(grown(tree, t));
    lemma_grown_trans(base, tree, t);
    lemma_paths_grown(tree, t, root, waiting);
    assert forall|id: NodeId| #[trigger] t.contains_key(id) implies t[id].wf() && t[id].id == id
        && t[id].load() <= load_at(base, id) + started by {
        if tree.contains_key(id) {
        } else {
            assert(id == leaf);
        }
    }
    assert forall|id: NodeId, k: int|
        #![trigger t[id].virtual_losses[k]]
        t.contains_key(id) && 0 <= k < t[id].num_actions implies t[id].virtual_losses[k]
        == losses_at(base, id, k) + owed(waiting, id, k) by {
        if tree.contains_key(id) {
            assert(tree[id].virtual_losses[k] == losses_at(base, id, k) + owed(waiting, id, k));
        } else {
            assert(id == leaf);
            assert(t[id].virtual_losses == middle[leaf].virtual_losses);
            lemma_total_bounds(middle[leaf].virtual_losses, k);
            lemma_owed_absent(tree, root, waiting, id, k);
        }
    }
    assert forall|id: NodeId, i: int|
        #![trigger t[id].valid_actions[i]]
        t.contains_key(id) && 0 <= i < t[id].valid_actions.len() implies (match t[id].child(
        t[id].valid_actions[i],
    ) {
        Some(c) => c == E::spec_next(id, t[id].valid_actions[i]),
        None => true,
    }) by {
        let b = t[id].valid_actions[i];
        if tree.contains_key(id) {
            assert(tree[id].valid_actions[i] == b);
            if id == parent {
                let m = tree[id].valid_actions.index_of(action);
                assert(tree[id].valid_actions[m] == action);
            }
        } else {
            assert(id == leaf);
            assert(middle[leaf].valid_actions[i] == b);
        }
    }
    assert forall|id: NodeId| #[trigger] t.contains_key(id) implies t[id].tidy()
        && fits_state::<E, R>(id, t[id]) by {
        assert(middle.contains_key(id));
        assert(middle[id].tidy() && fits_state::<E, R>(id, middle[id]));
        if id == parent {
            lemma_tidy_child(middle[id], action, leaf);
        }
    }
}

/// Whether two nodes differ at most in the visit count and the value that are computed from
/// their edges.
pub open spec fn same_edges<A, R>(x: NodeView<A, R>, y: NodeView<A, R>) -> bool {
    x == (NodeView { node_visits: x.node_visits, value: x.value, ..y })
}

/// What taking the virtual losses of a simple path back changes.
pub(crate) proof fn lemma_without_losses<A: Act, R: Scalar>(tree: Tree<A, R>, path: Path<A>)
    requires
        simple(path),
        forall|i: int| 0 <= i < path.len() ==> tree.contains_key((#[trigger] path[i]).0),
    ensures
        without_losses(tree, path).dom() == tree.dom(),
        forall|i: int|
            0 <= i < path.len() ==> without_losses(tree, path)[(#[trigger] path[i]).0]
                == tree[path[i].0].without_virtual_loss(path[i].1),
        forall|id: NodeId|
            !on_path(path, id) ==> #[trigger] without_losses(tree, path)[id] == tree[id],
    decreases path.len(),
{
    if path.len() > 0 {
        let init = path.drop_last();
        let last = path.last();
        assert(tree.contains_key(path[path.len() - 1].0));
        let t = adjust(tree, last.0, |n: NodeView<A, R>| n.without_virtual_loss(path.last().1));
        assert(t.dom() =~= tree.dom());
        assert forall|i: int| 0 <= i < init.len() implies t.contains_key((#[trigger] init[i]).0) by {
            assert(init[i] == path[i]);
        }
        assert(simple(init)) by {
            assert forall|i: int, j: int| 0 <= i < j < init.len() implies (#[trigger] init[i]).0
                != (#[trigger] init[j]).0 by {
                assert(path[i].0 != path[j].0);
            }
        }
        lemma_without_losses(t, init);
        assert(!on_path(init, last.0)) by {
            if on_path(init, last.0) {
                let i = choose|i: int| 0 <= i < init.len() && (#[trigger] init[i]).0 == last.0;
                assert(path[i].0 != path[path.len() - 1].0);
            }
        }
        assert forall|i: int| 0 <= i < path.len() implies without_losses(tree, path)[(
        #[trigger] path[i]).0] == tree[path[i].0].without_virtual_loss(path[i].1) by {
            if i < init.len() {
                assert(init[i] == path[i]);
                assert(path[i].0 != path[path.len() - 1].0);
            }
        }
        assert forall|id: NodeId| !on_path(path, id) implies #[trigger] without_losses(
            tree,
            path,
        )[id] == tree[id] by {
            assert(path[path.len() - 1].0 != id);
            if on_path(init, id) {
                let i = choose|i: int| 0 <= i < init.len() && (#[trigger] init[i]).0 == id;
                assert(path[i].0 == id);
            }
        }
    }
}

/// What counting the visits of a simple path changes.
pub(crate) proof fn lemma_backed_up<A: Act, R: Scalar>(tree: Tree<A, R>, path: Path<A>)
    requires
        simple(path),
        forall|i: int| 0 <= i < path.len() ==> tree.contains_key((#[trigger] path[i]).0),
    ensures
        backed_up(tree, path).dom() == tree.dom(),
        forall|i: int|
            0 <= i < path.len() ==> same_edges(
                backed_up(tree, path)[(#[trigger] path[i]).0],
                tree[path[i].0].with_visit(path[i].1),
            ),
        forall|id: NodeId| !on_path(path, id) ==> #[trigger] backed_up(tree, path)[id] == tree[id],
    decreases path.len(),
{
    if path.len() > 0 {
        let init = path.drop_last();
        let last = path.last();
        assert(tree.contains_key(path[path.len() - 1].0));
        let t = visited(tree, last.0, last.1);
        assert(t.dom() =~= tree.dom());
        assert forall|i: int| 0 <= i < init.len() implies t.contains_key((#[trigger] init[i]).0) by {
            assert(init[i] == path[i]);
        }
        assert(simple(init)) by {
            assert forall|i: int, j: int| 0 <= i < j < init.len() implies (#[trigger] init[i]).0
                != (#[trigger] init[j]).0 by {
                assert(path[i].0 != path[j].0);
            }
        }
        lemma_backed_up(t, init);
        assert(same_edges(t[last.0], tree[last.0].with_visit(last.1)));
        assert(!on_path(init, last.0)) by {
            if on_path(init, last.0) {
                let i = choose|i: int| 0 <= i < init.len() && (#[trigger] init[i]).0 == last.0;
                assert(path[i].0 != path[path.len() - 1].0);
            }
        }
        assert forall|i: int| 0 <= i < path.len() implies same_edges(
            backed_up(tree, path)[(#[trigger] path[i]).0],
            tree[path[i].0].with_visit(path[i].1),
        ) by {
            if i < init.len() {
                assert(init[i] == path[i]);
                assert(path[i].0 != path[path.len() - 1].0);
                assert(t[path[i].0] == tree[path[i].0]);
            }
        }
        assert forall|id: NodeId| !on_path(path, id) implies #[trigger] backed_up(tree, path)[id]
            == tree[id] by {
            assert(path[path.len() - 1].0 != id);
            if on_path(init, id) {
                let i = choose|i: int| 0 <= i < init.len() && (#[trigger] init[i]).0 == id;
                assert(path[i].0 == id);
            }
            assert(t[id] == tree[id]);
        }
    }
}

/// What backing up a playout over a simple path changes: at each node of it one virtual loss
/// and one visit of the action taken, and the numbers computed from the edges; penalties only
/// at the last node; nothing elsewhere.
pub proof fn lemma_backpropagated<A: Act, R: Scalar>(tree: Tree<A, R>, path: Path<A>, repeat: bool)
    requires
        simple(path),
        path.len() > 0,
        forall|i: int| 0 <= i < path.len() ==> tree.contains_key((#[trigger] path[i]).0),
    ensures
        backpropagated(tree, path, repeat).dom() == tree.dom(),
        forall|i: int|
            0 <= i < path.len() ==> ({
                let x = backpropagated(tree, path, repeat)[(#[trigger] path[i]).0];
                let y = tree[path[i].0].without_virtual_loss(path[i].1).with_visit(path[i].1);
                x == (NodeView {
                    node_visits: x.node_visits,
                    value: x.value,
                    edge_penalties: x.edge_penalties,
                    ..y
                }) && x.edge_penalties.len() == y.edge_penalties.len()
            }),
        forall|id: NodeId|
            !on_path(path, id) ==> #[trigger] backpropagated(tree, path, repeat)[id] == tree[id],
{
    let t1 = without_losses(tree, path);
    lemma_without_losses(tree, path);
    assert(forall|id: NodeId| t1.contains_key(id) == t1.dom().contains(id));
    assert(forall|id: NodeId| tree.contains_key(id) == tree.dom().contains(id));
    let t2 = penalized(t1, path, repeat);
    assert(tree.contains_key(path[path.len() - 1].0));
    assert(t2.dom() =~= t1.dom());
    assert forall|i: int| 0 <= i < path.len() implies t2.contains_key((#[trigger] path[i]).0) by {
        assert(t1.contains_key(path[i].0));
    }
    lemma_backed_up(t2, path);
    assert forall|i: int| 0 <= i < path.len() implies ({
        let x = backpropagated(tree, path, repeat)[(#[trigger] path[i]).0];
        let y = tree[path[i].0].without_virtual_loss(path[i].1).with_visit(path[i].1);
        x == (NodeView {
            node_visits: x.node_visits,
            value: x.value,
            edge_penalties: x.edge_penalties,
            ..y
        }) && x.edge_penalties.len() == y.edge_penalties.len()
    }) by {
        let u = t1[path[i].0];
        let v = t2[path[i].0];
        assert(v == (NodeView { edge_penalties: v.edge_penalties, ..u }) && v.edge_penalties.len()
            == u.edge_penalties.len());
    }
    assert forall|id: NodeId| !on_path(path, id) implies #[trigger] backpropagated(
        tree,
        path,
        repeat,
    )[id] == tree[id] by {
        assert(path[path.len() - 1].0 != id);
        assert(t2[id] == t1[id]);
    }
}

/// Law: a playout that is selected and backed up leaves no virtual loss behind.
pub proof fn law_playout_leaves_no_loss<A: Act, R: Scalar>(
    tree: Tree<A, R>,
    root: NodeId,
    path: Path<A>,
    repeat: bool,
    id: NodeId,
)
    requires
        nodes_wf(tree),
        path_in(tree, root, path),
        tree.contains_key(id),
        forall|i: NodeId| #[trigger] tree.contains_key(i) ==> tree[i].load() < usize::MAX,
    ensures
        backpropagated(with_losses(tree, path), path, repeat).contains_key(id),
        backpropagated(with_losses(tree, path), path, repeat)[id].virtual_losses
            == tree[id].virtual_losses,
{
    let t = with_losses(tree, path);
    lemma_with_losses(tree, path);
    assert(forall|i: NodeId| t.contains_key(i) == t.dom().contains(i));
    assert(forall|i: NodeId| tree.contains_key(i) == tree.dom().contains(i));
    lemma_backpropagated(t, path, repeat);
    let u = backpropagated(t, path, repeat);
    assert(u.contains_key(id) == u.dom().contains(id));
    if on_path(path, id) {
        let i = choose|i: int| 0 <= i < path.len() && (#[trigger] path[i]).0 == id;
        let a = path[i].1;
        let m = tree[id].valid_actions.index_of(a);
        assert(tree[id].valid_actions[m] == a);
        lemma_total_bounds(tree[id].virtual_losses, a.spec_index() as int);
        crate::node::law_virtual_loss_reverts(tree[id], a);
        assert(u[path[i].0].virtual_losses == t[path[i].0].without_virtual_loss(a).virtual_losses);
    }
}

/// Law: a playout that is selected and backed up changes the penalty of one edge at most: of
/// the edge that it took last, and only where it came back to a state it had passed.
pub proof fn law_playout_penalizes_returns<A: Act, R: Scalar>(
    tree: Tree<A, R>,
    root: NodeId,
    path: Path<A>,
    repeat: bool,
    id: NodeId,
)
    requires
        path_in(tree, root, path),
        tree.contains_key(id),
    ensures
        backpropagated(with_losses(tree, path), path, repeat).contains_key(id),
        backpropagated(with_losses(tree, path), path, repeat)[id].edge_penalties == (if repeat
            && id == path.last().0 {
            tree[id].with_penalty(path.last().1).edge_penalties
        } else {
            tree[id].edge_penalties
        }),
{
    let t = with_losses(tree, path);
    lemma_with_losses(tree, path);
    assert(forall|i: NodeId| t.contains_key(i) == t.dom().contains(i));
    assert(forall|i: NodeId| tree.contains_key(i) == tree.dom().contains(i));
    let t1 = without_losses(t, path);
    lemma_without_losses(t, path);
    assert(forall|i: NodeId| t1.contains_key(i) == t1.dom().contains(i));
    let t2 = penalized(t1, path, repeat);
    assert(tree.contains_key(path[path.len() - 1].0));
    assert(t2.dom() =~= t1.dom());
    assert forall|i: int| 0 <= i < path.len() implies t2.contains_key((#[trigger] path[i]).0) by {
        assert(t1.contains_key(path[i].0));
    }
    lemma_backed_up(t2, path);
    let u = backpropagated(t, path, repeat);
    assert(u.contains_key(id) == u.dom().contains(id));
    if on_path(path, id) {
        let i = choose|i: int| 0 <= i < path.len() && (#[trigger] path[i]).0 == id;
        assert(same_edges(u[path[i].0], t2[path[i].0].with_visit(path[i].1)));
        assert(t1[path[i].0] == t[path[i].0].without_virtual_loss(path[i].1));
        assert(t[path[i].0] == tree[path[i].0].with_virtual_loss(path[i].1));
    } else {
        assert(path[path.len() - 1].0 != id);
    }
}

/// The result of the waiting playout `j` was backed up.
pub proof fn lemma_step_back<E: Environment, R: Scalar>(
    base: Tree<E::Act, R>,
    tree: Tree<E::Act, R>,
    root: NodeId,
    waiting: Seq<Path<E::Act>>,
    done: nat,
    started: nat,
    j: int,
    repeat: bool,
)
    requires
        in_flight::<E, R>(base, tree, root, waiting, done, started),
        0 <= j < waiting.len(),
        forall|id: NodeId| #[trigger] tree.contains_key(id) ==> tree[id].load() < usize::MAX,
    ensures
        in_flight::<E, R>(
            base,
            backpropagated(tree, waiting[j], repeat),
            root,
            waiting.remove(j),
            done + 1,
            started,
        ),
{
    let path = waiting[j];
    let t = backpropagated(tree, path, repeat);
    let w = waiting.remove(j);
    assert(path_in(tree, root, path));
    lemma_backpropagated(tree, path, repeat);
    assert(forall|id: NodeId| t.contains_key(id) == t.dom().contains(id));
    assert(forall|id: NodeId| tree.contains_key(id) == tree.dom().contains(id));
    assert forall|id: NodeId| #[trigger] tree.contains_key(id) implies ({
        let a = tree[id];
        let b = t[id];
        &&& node_grown(a, b)
        &&& b.wf()
        &&& b.id == id
        &&& b.children == a.children
        &&& b.load() == a.load()
        &&& total(b.edge_visits) == total(a.edge_visits) + (if on_path(path, id) {
            1nat
        } else {
            0
        })
        &&& forall|k: int| 0 <= k < a.num_actions ==> #[trigger] b.virtual_losses[k] + (if uses(
            path,
            id,
            k,
        ) {
            1nat
        } else {
            0
        }) == a.virtual_losses[k]
    }) by {
        let a = tree[id];
        if on_path(path, id) {
            let i = choose|i: int| 0 <= i < path.len() && (#[trigger] path[i]).0 == id;
            let act = path[i].1;
            let k0 = act.spec_index() as int;
            let m = a.valid_actions.index_of(act);
            assert(a.valid_actions[m] == act);
            lemma_uses_at(path, i, k0);
            lemma_owed_remove(waiting, j, id, k0);
            assert(a.virtual_losses[k0] == losses_at(base, id, k0) + owed(waiting, id, k0));
            assert(a.virtual_losses[k0] > 0);
            let b = t[path[i].0];
            lemma_total_bounds(a.virtual_losses, k0);
            lemma_total_bounds(a.edge_visits, k0);
            lemma_total_update(a.virtual_losses, k0, (a.virtual_losses[k0] - 1) as usize);
            lemma_total_update(a.edge_visits, k0, (a.edge_visits[k0] + 1) as usize);
            assert(b.edge_visits == a.edge_visits.update(k0, (a.edge_visits[k0] + 1) as usize));
            assert(b.virtual_losses == a.virtual_losses.update(
                k0,
                (a.virtual_losses[k0] - 1) as usize,
            ));
            assert forall|k: int| 0 <= k < a.num_actions implies #[trigger] b.virtual_losses[k]
                + (if uses(path, id, k) {
                1nat
            } else {
                0
            }) == a.virtual_losses[k] by {
                lemma_uses_at(path, i, k);
            }
        } else {
            assert(t[id] == a);
            assert forall|k: int| 0 <= k < a.num_actions implies !uses(path, id, k) by {}
        }
    }
    assert(grown(tree, t));
    lemma_grown_trans(base, tree, t);
    lemma_paths_grown(tree, t, root, waiting);
    assert forall|p: int| 0 <= p < w.len() implies path_in(t, root, #[trigger] w[p]) by {
        if p < j {
            assert(w[p] == waiting[p]);
        } else {
            assert(w[p] == waiting[p + 1]);
        }
    }
    assert forall|id: NodeId, i: int|
        #![trigger t[id].valid_actions[i]]
        t.contains_key(id) && 0 <= i < t[id].valid_actions.len() implies (match t[id].child(
        t[id].valid_actions[i],
    ) {
        Some(c) => c == E::spec_next(id, t[id].valid_actions[i]),
        None => true,
    }) by {
        assert(tree.contains_key(id));
        assert(tree[id].valid_actions[i] == t[id].valid_actions[i]);
    }
    assert forall|id: NodeId| #[trigger] t.contains_key(id) implies t[id].tidy()
        && fits_state::<E, R>(id, t[id]) by {
        assert(tree.contains_key(id));
        if on_path(path, id) {
            let i = choose|i: int| 0 <= i < path.len() && (#[trigger] path[i]).0 == id;
            lemma_tidy_visit(tree[id], t[path[i].0], path[i].1);
        }
    }
    assert forall|id: NodeId, k: int|
        #![trigger t[id].virtual_losses[k]]
        t.contains_key(id) && 0 <= k < t[id].num_actions implies t[id].virtual_losses[k]
        == losses_at(base, id, k) + owed(w, id, k) by {
        assert(tree.contains_key(id));
        assert(tree[id].virtual_losses[k] == losses_at(base, id, k) + owed(waiting, id, k));
        lemma_owed_remove(waiting, j, id, k);
    }
    assert forall|id: NodeId| #[trigger] t.contains_key(id) implies t[id].load() <= load_at(
        base,
        id,
    ) + started && t[id].wf() && t[id].id == id by {
        assert(tree.contains_key(id));
    }
    assert(tree.contains_key(root));
    assert(on_path(path, root)) by {
        assert(path[0].0 == root);
    }
}

} // verus!
