//! Playouts: selecting a leaf, expanding it and backing up the result.

use crate::environment::{Act, Environment};
use crate::mcts::{lemma_tree_update, new_node, on_path, MCTS};
use crate::node::{
    lemma_fresh_wf, lemma_total_bounds, lemma_total_update, lemma_total_zeros, NodeId, NodeView,
};
use crate::policy::{lemma_slot_sum_bound, slot_sum};
use crate::scalar::{zero, Scalar};
use crate::tree::{
    adjust, backed_visits, best_scored, chosen_action, edge_score, expanded_visits, recomputed,
    prior_mass, scores_of, spec_normalize_prior, Tree, Tuning,
};
use std::collections::HashMap;
use vstd::prelude::*;

verus! {

/// Whether a node has as many slots as its state has actions to index, none where the game is
/// over, and an action where its state has one.
pub open spec fn fits_state<E: Environment, R: Scalar>(
    id: NodeId,
    node: NodeView<E::Act, R>,
) -> bool {
    &&& node.num_actions == (if E::spec_done(id) {
        0
    } else {
        E::spec_num_actions(id)
    })
    &&& !E::spec_done(id) && E::spec_actions(id).len() > 0 ==> node.valid_actions.len() > 0
}

/// The nodes and edges that the tree has are those of the environment: the child recorded for a
/// valid action is the state that the action leads to, nothing is recorded for other actions, and
/// a node fits its state.
pub open spec fn sound<E: Environment, R: Scalar>(tree: Tree<E::Act, R>) -> bool {
    &&& forall|id: NodeId, i: int|
        #![trigger tree[id].valid_actions[i]]
        tree.contains_key(id) && 0 <= i < tree[id].valid_actions.len() ==> (match tree[id].child(
            tree[id].valid_actions[i],
        ) {
            Some(c) => c == E::spec_next(id, tree[id].valid_actions[i]),
            None => true,
        })
    &&& forall|id: NodeId| #[trigger]
        tree.contains_key(id) ==> tree[id].tidy() && fits_state::<E, R>(id, tree[id])
}

/// A part of a tree of the environment is one.
pub proof fn lemma_restrict_sound<E: Environment, R: Scalar>(
    tree: Tree<E::Act, R>,
    keep: Set<NodeId>,
)
    requires
        sound::<E, R>(tree),
    ensures
        sound::<E, R>(tree.restrict(keep)),
{
    let kept = tree.restrict(keep);
    assert forall|id: NodeId, i: int|
        #![trigger kept[id].valid_actions[i]]
        kept.contains_key(id) && 0 <= i < kept[id].valid_actions.len() implies (match kept[id].child(
        kept[id].valid_actions[i],
    ) {
        Some(c) => c == E::spec_next(id, kept[id].valid_actions[i]),
        None => true,
    }) by {
        assert(kept[id] == tree[id]);
        assert(tree[id].valid_actions[i] == kept[id].valid_actions[i]);
    }
    assert forall|id: NodeId| #[trigger] kept.contains_key(id) implies kept[id].tidy()
        && fits_state::<E, R>(id, kept[id]) by {
        assert(tree.contains_key(id));
        assert(kept[id] == tree[id]);
    }
}

/// Law: in a tree of the environment, which every search keeps and every move of the root, an
/// edge of no valid action has no visits and leads nowhere.
pub proof fn law_other_slots_stay_empty<E: Environment, R: Scalar>(
    tree: Tree<E::Act, R>,
    id: NodeId,
    k: int,
)
    requires
        sound::<E, R>(tree),
        tree.contains_key(id),
        0 <= k < tree[id].num_actions,
        forall|i: int|
            0 <= i < tree[id].valid_actions.len() ==> (#[trigger] tree[id].valid_actions[i]).spec_index()
                != k,
    ensures
        tree[id].edge_visits[k] == 0,
        tree[id].children[k] is None,
{
    reveal(NodeView::tidy);
}

/// A prior that is cut down to the actions of a state has some where the state has some.
proof fn lemma_prior_covers<A: Act, R: Scalar>(priors: Map<A, R>, actions: Seq<A>, k: nat)
    requires
        k <= actions.len(),
        forall|i: int| 0 <= i < k ==> !priors.contains_key(#[trigger] actions[i]),
    ensures
        prior_mass(priors, actions, k) == zero::<R>(),
    decreases k,
{
    if k > 0 {
        lemma_prior_covers(priors, actions, (k - 1) as nat);
    }
}

/// A new node is tidy and fits its state.
pub proof fn lemma_new_node_sound<E: Environment, R: Scalar>(
    node: NodeView<E::Act, R>,
    id: NodeId,
    priors: Map<E::Act, R>,
    value: R,
)
    requires
        new_node::<E, R>(
            node,
            id,
            spec_normalize_prior(priors, E::spec_actions(id)),
            value,
        ),
    ensures
        node.tidy(),
        fits_state::<E, R>(id, node),
{
    reveal(NodeView::tidy);
    let actions = E::spec_actions(id);
    if !E::spec_done(id) && actions.len() > 0 {
        R::same_law();
        let np = spec_normalize_prior(priors, actions);
        if forall|i: int| 0 <= i < actions.len() ==> !priors.contains_key(#[trigger] actions[i]) {
            lemma_prior_covers(priors, actions, actions.len());
            assert(actions.contains(actions[0]));
            assert(np.contains_key(actions[0]));
            assert(node.valid_actions.to_set().contains(actions[0]));
        } else {
            let i = choose|i: int|
                0 <= i < actions.len() && priors.contains_key(#[trigger] actions[i]);
            assert(actions.contains(actions[i]));
            assert(np.contains_key(actions[i]));
            assert(node.valid_actions.to_set().contains(actions[i]));
        }
    }
}

/// The tree with one more virtual loss on every edge of a path.
pub open spec fn with_losses<A: Act, R: Scalar>(
    tree: Tree<A, R>,
    path: Seq<(NodeId, A)>,
) -> Tree<A, R>
    decreases path.len(),
{
    if path.len() == 0 {
        tree
    } else {
        adjust(
            with_losses(tree, path.drop_last()),
            path.last().0,
            |n: NodeView<A, R>| n.with_virtual_loss(path.last().1),
        )
    }
}

/// The state that a path from `root` ends in.
pub open spec fn path_end<E: Environment>(root: NodeId, path: Seq<(NodeId, E::Act)>) -> NodeId {
    if path.len() == 0 {
        root
    } else {
        E::spec_next(path.last().0, path.last().1)
    }
}

/// Whether the tree has an edge for the last step of a path.
pub open spec fn path_open<A: Act, R: Scalar>(
    tree: Tree<A, R>,
    path: Seq<(NodeId, A)>,
) -> bool {
    path.len() == 0 || tree[path.last().0].child(path.last().1) is Some
}

/// Whether a path follows the best scores from `root`, through states that are in the tree and
/// not terminal, along edges of the tree, and through no state twice.
pub open spec fn is_playout<E: Environment, R: Scalar>(
    tree: Tree<E::Act, R>,
    tuning: Tuning<E::Act, R>,
    c_puct: R,
    forced: bool,
    root: NodeId,
    path: Seq<(NodeId, E::Act)>,
) -> bool {
    &&& path.len() > 0 ==> path[0].0 == root
    &&& forall|i: int|
        0 <= i < path.len() ==> {
            &&& tree.contains_key((#[trigger] path[i]).0)
            &&& !E::spec_done(path[i].0)
            &&& chosen_action(tree, tuning, path[i].0, c_puct, path[i].0 == root, forced) == Some(
                path[i].1,
            )
            &&& tree[path[i].0].valid_actions.contains(path[i].1)
        }
    &&& forall|i: int|
        0 < i < path.len() ==> tree[path[i - 1].0].child(path[i - 1].1) == Some(
            (#[trigger] path[i]).0,
        )
    &&& forall|i: int, j: int|
        0 <= i < j < path.len() ==> (#[trigger] path[i]).0 != (#[trigger] path[j]).0
}

/// Whether a playout can go no further: the game is over, the state is not in the tree or not
/// linked to it, it was seen before on the path, or it has no action.
pub open spec fn playout_stops<E: Environment, R: Scalar>(
    tree: Tree<E::Act, R>,
    tuning: Tuning<E::Act, R>,
    c_puct: R,
    forced: bool,
    root: NodeId,
    path: Seq<(NodeId, E::Act)>,
) -> bool {
    let end = path_end::<E>(root, path);
    ||| E::spec_done(end)
    ||| !path_open(tree, path)
    ||| !tree.contains_key(end)
    ||| on_path(path, end)
    ||| chosen_action(tree, tuning, end, c_puct, end == root, forced) is None
}

/// Whether a playout ends because its state was seen before on the path.
pub open spec fn playout_repeats<E: Environment, R: Scalar>(
    tree: Tree<E::Act, R>,
    root: NodeId,
    path: Seq<(NodeId, E::Act)>,
) -> bool {
    let end = path_end::<E>(root, path);
    &&& !E::spec_done(end)
    &&& path_open(tree, path)
    &&& tree.contains_key(end)
    &&& on_path(path, end)
}

/// Scores depend on the node and on the values of its children alone.
proof fn lemma_scores_frame<A: Act, R: Scalar>(
    t: Tree<A, R>,
    u: Tree<A, R>,
    tuning: Tuning<A, R>,
    id: NodeId,
    c_puct: R,
    is_root: bool,
    forced: bool,
)
    requires
        t.dom() == u.dom(),
        t.contains_key(id),
        t[id] == u[id],
        forall|c: NodeId| #[trigger] t.contains_key(c) ==> t[c].value == u[c].value,
    ensures
        chosen_action(t, tuning, id, c_puct, is_root, forced) == chosen_action(
            u,
            tuning,
            id,
            c_puct,
            is_root,
            forced,
        ),
{
    let node = t[id];
    let f = |a: A, x: R| edge_score(t, node, tuning, c_puct, is_root, forced, a);
    let g = |a: A, x: R| edge_score(u, node, tuning, c_puct, is_root, forced, a);
    assert forall|a: A| edge_score(t, node, tuning, c_puct, is_root, forced, a) == edge_score(
        u,
        node,
        tuning,
        c_puct,
        is_root,
        forced,
        a,
    ) by {
        match node.child(a) {
            Some(c) => {
                assert(t.contains_key(c) == t.dom().contains(c));
                assert(u.contains_key(c) == u.dom().contains(c));
            },
            None => {},
        }
    }
    assert(f =~= g);
    assert(u.contains_key(id)) by {
        assert(u.dom().contains(id));
    }
}

/// What virtual losses on a path change: each node on it has one more on the action taken
/// there, and everything else is the same.
pub proof fn lemma_with_losses<A: Act, R: Scalar>(tree: Tree<A, R>, path: Seq<(NodeId, A)>)
    requires
        forall|i: int| 0 <= i < path.len() ==> tree.contains_key((#[trigger] path[i]).0),
        forall|i: int, j: int|
            0 <= i < j < path.len() ==> (#[trigger] path[i]).0 != (#[trigger] path[j]).0,
    ensures
        with_losses(tree, path).dom() == tree.dom(),
        forall|i: int|
            0 <= i < path.len() ==> with_losses(tree, path)[(#[trigger] path[i]).0]
                == tree[path[i].0].with_virtual_loss(path[i].1),
        forall|id: NodeId|
            !on_path(path, id) ==> #[trigger] with_losses(tree, path)[id] == tree[id],
    decreases path.len(),
{
    if path.len() > 0 {
        let init = path.drop_last();
        let last = path.last();
        assert forall|i: int| 0 <= i < init.len() implies tree.contains_key(
            (#[trigger] init[i]).0,
        ) by {
            assert(init[i] == path[i]);
        }
        lemma_with_losses(tree, init);
        let before = with_losses(tree, init);
        assert(tree.contains_key(path[path.len() - 1].0));
        assert(before.contains_key(last.0)) by {
            assert(before.dom().contains(last.0) == tree.dom().contains(last.0));
        }
        assert(!on_path(init, last.0)) by {
            if on_path(init, last.0) {
                let i = choose|i: int| 0 <= i < init.len() && (#[trigger] init[i]).0 == last.0;
                assert(path[i].0 != path[path.len() - 1].0);
            }
        }
        assert(with_losses(tree, path).dom() =~= tree.dom());
        assert forall|i: int| 0 <= i < path.len() implies with_losses(tree, path)[(
        #[trigger] path[i]).0] == tree[path[i].0].with_virtual_loss(path[i].1) by {
            if i < init.len() {
                assert(init[i] == path[i]);
                assert(path[i].0 != path[path.len() - 1].0);
            }
        }
        assert forall|id: NodeId| !on_path(path, id) implies #[trigger] with_losses(tree, path)[id]
            == tree[id] by {
            assert(path[path.len() - 1].0 != id);
            if on_path(init, id) {
                let i = choose|i: int| 0 <= i < init.len() && (#[trigger] init[i]).0 == id;
                assert(path[i].0 == id);
            }
        }
    }
}

/// The node that a consistent search finds for an id is well formed and has that id.
pub proof fn lemma_tree_node_wf<E: Environment, R: Scalar>(m: &MCTS<E, R>, id: NodeId)
    requires
        m.wf(),
        m.tree().contains_key(id),
    ensures
        m.tree()[id].wf(),
        m.tree()[id].id == id,
{
    let i = m.transposition_table@[id] as int;
    assert(m.nodes@[i]@.wf());
}

/// The chosen action is a valid one.
pub proof fn lemma_chosen_valid<A: Act, R: Scalar>(
    tree: Tree<A, R>,
    tuning: Tuning<A, R>,
    id: NodeId,
    c_puct: R,
    is_root: bool,
    forced: bool,
)
    ensures
        match chosen_action(tree, tuning, id, c_puct, is_root, forced) {
            Some(a) => tree.contains_key(id) && tree[id].valid_actions.contains(a),
            None => tree.contains_key(id) ==> tree[id].valid_actions.len() == 0,
        },
{
    if tree.contains_key(id) {
        let node = tree[id];
        let scores = scores_of(tree, node, tuning, c_puct, is_root, forced);
        lemma_best_range(node.valid_actions, scores, node.valid_actions.len());
    }
}

proof fn lemma_best_range<A: Act, R: Scalar>(actions: Seq<A>, scores: Seq<R>, k: nat)
    ensures
        match best_scored(actions, scores, k) {
            Some(b) => 0 <= b < k,
            None => k == 0,
        },
    decreases k,
{
    if k > 0 {
        lemma_best_range(actions, scores, (k - 1) as nat);
    }
}

/// A virtual loss does not touch the shape of a node.
proof fn lemma_loss_keeps_wf<A: Act, R: Scalar>(node: NodeView<A, R>, action: A)
    ensures
        node.wf() ==> node.with_virtual_loss(action).wf(),
{
}

/// A playout with one more step.
proof fn lemma_playout_push<E: Environment, R: Scalar>(
    tree: Tree<E::Act, R>,
    tuning: Tuning<E::Act, R>,
    c_puct: R,
    forced: bool,
    root: NodeId,
    path: Seq<(NodeId, E::Act)>,
    action: E::Act,
)
    requires
        is_playout::<E, R>(tree, tuning, c_puct, forced, root, path),
        sound::<E, R>(tree),
        path_open(tree, path),
        ({
            let id = path_end::<E>(root, path);
            &&& tree.contains_key(id)
            &&& !E::spec_done(id)
            &&& chosen_action(tree, tuning, id, c_puct, id == root, forced) == Some(action)
            &&& tree[id].valid_actions.contains(action)
            &&& !on_path(path, id)
        }),
    ensures
        is_playout::<E, R>(
            tree,
            tuning,
            c_puct,
            forced,
            root,
            path.push((path_end::<E>(root, path), action)),
        ),
        tree[path_end::<E>(root, path)].child(action) matches Some(c) ==> c == E::spec_next(
            path_end::<E>(root, path),
            action,
        ),
{
    let id = path_end::<E>(root, path);
    let p = path.push((id, action));
    assert forall|i: int| 0 <= i < p.len() implies ({
        &&& tree.contains_key((#[trigger] p[i]).0)
        &&& !E::spec_done(p[i].0)
        &&& chosen_action(tree, tuning, p[i].0, c_puct, p[i].0 == root, forced) == Some(p[i].1)
        &&& tree[p[i].0].valid_actions.contains(p[i].1)
    }) by {
        if i < path.len() {
            assert(p[i] == path[i]);
        }
    }
    assert forall|i: int| 0 < i < p.len() implies tree[p[i - 1].0].child(p[i - 1].1) == Some(
        (#[trigger] p[i]).0,
    ) by {
        if i < path.len() {
            assert(p[i] == path[i] && p[i - 1] == path[i - 1]);
        } else {
            let last = path[path.len() - 1];
            assert(p[i - 1] == last);
            assert(tree[last.0].valid_actions.contains(last.1));
            let k = tree[last.0].valid_actions.index_of(last.1);
            assert(tree[last.0].valid_actions[k] == last.1);
        }
    }
    assert forall|i: int, j: int| 0 <= i < j < p.len() implies (#[trigger] p[i]).0 != (
    #[trigger] p[j]).0 by {
        assert(p[i] == path[i]);
        if j < path.len() {
            assert(p[j] == path[j]);
        } else {
            assert(path[i].0 != id);
        }
    }
    let k = tree[id].valid_actions.index_of(action);
    assert(tree[id].valid_actions[k] == action);
}

/// A path through different nodes is no longer than there are nodes.
proof fn lemma_path_short<E: Environment, R: Scalar>(
    m: &MCTS<E, R>,
    path: Seq<(NodeId, E::Act)>,
)
    requires
        m.table_ok(),
        forall|i: int| 0 <= i < path.len() ==> m.tree().contains_key((#[trigger] path[i]).0),
        forall|i: int, j: int|
            0 <= i < j < path.len() ==> (#[trigger] path[i]).0 != (#[trigger] path[j]).0,
    ensures
        path.len() <= m.nodes@.len(),
{
    let idx = Seq::new(path.len(), |i: int| m.transposition_table@[path[i].0] as int);
    assert forall|i: int, j: int| 0 <= i < idx.len() && 0 <= j < idx.len() && i != j implies idx[i]
        != idx[j] by {
        assert(m.tree().contains_key(path[i].0) && m.tree().contains_key(path[j].0));
        assert(m.nodes@[idx[i]].id == path[i].0);
        assert(m.nodes@[idx[j]].id == path[j].0);
        if i < j {
            assert(path[i].0 != path[j].0);
        } else {
            assert(path[j].0 != path[i].0);
        }
    }
    idx.unique_seq_to_set();
    let all = vstd::set_lib::set_int_range(0, m.nodes@.len() as int);
    vstd::set_lib::lemma_int_range(0, m.nodes@.len() as int);
    assert(idx.to_set().subset_of(all)) by {
        assert forall|x: int| idx.to_set().contains(x) implies all.contains(x) by {
            let i = idx.index_of(x);
            assert(m.tree().contains_key(path[i].0));
        }
    }
    vstd::set_lib::lemma_len_subset(idx.to_set(), all);
}

/// The loads of a tree stay below a bound.
pub open spec fn loads_below<A: Act, R: Scalar>(tree: Tree<A, R>, bound: int) -> bool {
    forall|id: NodeId| #[trigger] tree.contains_key(id) ==> tree[id].load() < bound
}

impl<E: Environment, R: Scalar> MCTS<E, R> {
    /// Traverse from the root to a leaf, following the best scores and counting a virtual loss
    /// on every edge. Returns the path, the last node and action of it, the state reached, and
    /// whether that state was seen before on the path.
    pub fn select_leaf(
        &mut self,
        root_id: NodeId,
        env: &E,
        c_puct: R,
        forced_playouts: bool,
    ) -> (r: (Vec<(NodeId, E::Act)>, Option<NodeId>, Option<E::Act>, E, bool))
        requires
            old(self).wf(),
            sound::<E, R>(old(self).tree()),
            env.spec_hash() == root_id,
            loads_below(old(self).tree(), usize::MAX as int),
        ensures
            is_playout::<E, R>(
                old(self).tree(),
                old(self).tuning(),
                c_puct,
                forced_playouts,
                root_id,
                r.0@,
            ),
            playout_stops::<E, R>(
                old(self).tree(),
                old(self).tuning(),
                c_puct,
                forced_playouts,
                root_id,
                r.0@,
            ),
            r.1 == (if r.0@.len() == 0 {
                None
            } else {
                Some(r.0@.last().0)
            }),
            r.2 == (if r.0@.len() == 0 {
                None
            } else {
                Some(r.0@.last().1)
            }),
            r.3.spec_hash() == path_end::<E>(root_id, r.0@),
            r.4 == playout_repeats::<E, R>(old(self).tree(), root_id, r.0@),
            final(self).tree() == with_losses(old(self).tree(), r.0@),
            final(self).wf(),
            final(self).settings_of(old(self)),
            final(self).nodes@.len() == old(self).nodes@.len(),
    {
        let ghost t = self.tree();
        let ghost tn = self.tuning();
        let mut path: Vec<(NodeId, E::Act)> = Vec::new();
        let mut node_id: NodeId = root_id;
        let mut parent: Option<NodeId> = None;
        let mut action: Option<E::Act> = None;
        let mut repeat_detected: bool = false;
        let mut game: E = env.clone();
        proof {
            E::clone_law(*env, game);
        }
        let mut open: bool = true;
        proof {
            lemma_path_short(self, path@);
        }
        while open
            invariant
                t == old(self).tree(),
                tn == old(self).tuning(),
                old(self).wf(),
                sound::<E, R>(t),
                loads_below(t, usize::MAX as int),
                self.wf(),
                self.settings_of(old(self)),
                self.nodes@.len() == old(self).nodes@.len(),
                self.tree() == with_losses(t, path@),
                is_playout::<E, R>(t, tn, c_puct, forced_playouts, root_id, path@),
                path@.len() <= self.nodes@.len(),
                game.spec_hash() == path_end::<E>(root_id, path@),
                open ==> node_id == path_end::<E>(root_id, path@) && path_open(t, path@)
                    && !repeat_detected,
                !open ==> playout_stops::<E, R>(t, tn, c_puct, forced_playouts, root_id, path@)
                    && repeat_detected == playout_repeats::<E, R>(t, root_id, path@),
                parent == (if path@.len() == 0 {
                    None
                } else {
                    Some(path@.last().0)
                }),
                action == (if path@.len() == 0 {
                    None
                } else {
                    Some(path@.last().1)
                }),
            decreases self.nodes@.len() - path@.len() + (if open {
                    1int
                } else {
                    0
                }),
        {
            proof {
                lemma_with_losses(t, path@);
                assert(self.tree().contains_key(node_id) == self.tree().dom().contains(node_id));
                assert(t.contains_key(node_id) == t.dom().contains(node_id));
            }
            if game.done() || !self.node_exists(node_id) {
                open = false;
            } else if self.check_state_repeat(game.hash(), &path) {
                repeat_detected = true;
                open = false;
            } else {
                let is_root: bool = node_id == root_id;
                proof {
                    assert(self.tree()[node_id] == t[node_id]);
                    lemma_tree_node_wf(self, node_id);
                    assert forall|c: NodeId| #[trigger] t.contains_key(c) implies t[c].value
                        == self.tree()[c].value by {
                        if on_path(path@, c) {
                            let i = choose|i: int|
                                0 <= i < path@.len() && (#[trigger] path@[i]).0 == c;
                            assert(self.tree()[path@[i].0] == t[path@[i].0].with_virtual_loss(
                                path@[i].1,
                            ));
                        }
                    }
                    lemma_scores_frame(
                        t,
                        self.tree(),
                        tn,
                        node_id,
                        c_puct,
                        is_root,
                        forced_playouts,
                    );
                    lemma_chosen_valid(t, tn, node_id, c_puct, is_root, forced_playouts);
                }
                match self.select_action_puct(node_id, c_puct.dup(), is_root, forced_playouts) {
                    None => {
                        open = false;
                    },
                    Some(chosen) => {
                        let ghost before = *self;
                        let ghost path0 = path@;
                        proof {
                            let i = chosen.spec_index() as int;
                            if i < t[node_id].virtual_losses.len() {
                                lemma_total_bounds(t[node_id].virtual_losses, i);
                            }
                        }
                        if let Some(node) = self.get_node_mut(node_id) {
                            node.add_virtual_loss(chosen);
                        }
                        proof {
                            lemma_tree_update(&before, self, node_id);
                            lemma_loss_keeps_wf(t[node_id], chosen);
                        }
                        game.step(chosen);
                        path.push((node_id, chosen));
                        parent = Some(node_id);
                        action = Some(chosen);
                        proof {
                            assert(path@.drop_last() =~= path0);
                            assert(self.tree() =~= with_losses(t, path@));
                            lemma_playout_push::<E, R>(
                                t,
                                tn,
                                c_puct,
                                forced_playouts,
                                root_id,
                                path0,
                                chosen,
                            );
                            assert(path@ =~= path0.push((node_id, chosen)));
                            lemma_path_short(old(self), path@);
                        }
                        let idx: usize = chosen.to_action_index();
                        let next: Option<NodeId> = match self.get_node_immut(node_id) {
                            Some(node) => if idx < node.children.len() {
                                node.children[idx]
                            } else {
                                None
                            },
                            None => None,
                        };
                        assert(next == t[node_id].child(chosen));
                        match next {
                            Some(child_id) => {
                                node_id = child_id;
                            },
                            None => {
                                open = false;
                            },
                        }
                    },
                }
            }
        }
        (path, parent, action, game, repeat_detected)
    }

    /// Puts the state reached by a playout into the tree, where it is not yet, and records it
    /// as the child of its parent, where none is recorded.
    pub fn expand(
        &mut self,
        parent_id: NodeId,
        action: E::Act,
        env: E,
        priors: HashMap<E::Act, R>,
        value: R,
    ) -> (r: NodeId)
        requires
            old(self).wf(),
        ensures
            r == env.spec_hash(),
            final(self).wf(),
            final(self).settings_of(old(self)),
            old(self).tree().contains_key(r) ==> final(self).tree() == linked(
                old(self).tree(),
                parent_id,
                action,
                r,
            ),
            !old(self).tree().contains_key(r) ==> exists|leaf: NodeView<E::Act, R>| #[trigger]
                new_node::<E, R>(
                    leaf,
                    r,
                    spec_normalize_prior(priors@, E::spec_actions(r)),
                    value,
                ) && leaf.wf() && leaf.load() == 0 && final(self).tree() == linked(
                    old(self).tree().insert(r, leaf),
                    parent_id,
                    action,
                    r,
                ),
            final(self).nodes@.len() == old(self).nodes@.len() + (if old(self).tree().contains_key(
                r,
            ) {
                0int
            } else {
                1
            }),
    {
        let ghost before = *self;
        let leaf_id: NodeId = self.get_hash(&env);
        let exists: bool = self.node_exists(leaf_id);
        if !exists {
            let actions: Vec<E::Act> = env.valid_actions();
            let normalized_priors: HashMap<E::Act, R> = self.normalize_prior(priors, &actions);
            let ghost np = normalized_priors@;
            proof {
                E::slots_law(leaf_id);
            }
            assert forall|a: E::Act| #[trigger] np.contains_key(a) implies a.spec_index()
                < E::spec_num_actions(leaf_id) by {
                let i = actions@.index_of(a);
                assert(actions@[i] == a);
            }
            self.create_node(&env, normalized_priors, value);
            proof {
                let leaf = self.nodes@.last()@;
                lemma_new_node_wf::<E, R>(leaf, leaf_id, np, value);
                assert forall|i: int| 0 <= i < self.nodes@.len() implies (
                #[trigger] self.nodes@[i])@.wf() by {
                    if i < before.nodes@.len() {
                        assert(self.nodes@.drop_last()[i] == before.nodes@[i]);
                        assert(before.nodes@[i]@.wf());
                    }
                }
            }
        }
        let ghost middle = *self;
        assert(middle.wf());
        let idx: usize = action.to_action_index();
        let mut found: bool = false;
        if let Some(parent) = self.get_node_mut(parent_id) {
            found = true;
            if idx < parent.children.len() {
                if parent.children[idx].is_none() {
                    parent.children[idx] = Some(leaf_id);
                }
            }
        }
        proof {
            if found {
                lemma_tree_update(&middle, self, parent_id);
                lemma_tree_node_wf(&middle, parent_id);
                assert(self.tree()[parent_id] =~= middle.tree()[parent_id].linked_child(
                    action,
                    leaf_id,
                ));
            }
            assert(self.tree() =~= linked(middle.tree(), parent_id, action, leaf_id));
            if !exists {
                assert(middle.tree() == before.tree().insert(leaf_id, middle.nodes@.last()@));
            }
        }
        leaf_id
    }

    /// Backs up the result of a playout: takes its virtual losses back, puts a penalty on the
    /// last edge where the playout ran into a state of its own path, and then from the last
    /// node to the first counts the visit and computes the value anew.
    pub fn backpropagate(&mut self, search_path: &[(NodeId, E::Act)], repeat_detected: bool)
        requires
            old(self).wf(),
            forall|id: NodeId| #[trigger]
                old(self).tree().contains_key(id) ==> old(self).tree()[id].load() + hits(
                    search_path@,
                    id,
                ) < usize::MAX,
        ensures
            final(self).tree() == backpropagated(old(self).tree(), search_path@, repeat_detected),
            final(self).wf(),
            final(self).settings_of(old(self)),
            final(self).nodes@.len() == old(self).nodes@.len(),
    {
        let n: usize = search_path.len();
        if n == 0 {
            return ;
        }
        let ghost path = search_path@;
        let ghost t = self.tree();
        let ghost goal = without_losses(t, path);
        let mut i: usize = n;
        assert(path.take(n as int) =~= path);
        while i > 0
            invariant
                i <= n,
                n == path.len(),
                path == search_path@,
                self.wf(),
                self.settings_of(old(self)),
                self.nodes@.len() == old(self).nodes@.len(),
                without_losses(self.tree(), path.take(i as int)) == goal,
                self.tree().dom() == t.dom(),
                forall|id: NodeId| #[trigger]
                    t.contains_key(id) ==> self.tree()[id].load() + hits(path, id) < usize::MAX,
            decreases i,
        {
            let ghost before = *self;
            i -= 1;
            let (node_hash, action) = search_path[i];
            let mut found: bool = false;
            if let Some(node) = self.get_node_mut(node_hash) {
                found = true;
                node.revert_virtual_loss(action);
            }
            proof {
                assert(path.take(i + 1).drop_last() =~= path.take(i as int));
                if found {
                    lemma_tree_update(&before, self, node_hash);
                    lemma_tree_node_wf(&before, node_hash);
                    lemma_unload(before.tree()[node_hash], action);
                }
                assert(self.tree() =~= adjust(
                    before.tree(),
                    node_hash,
                    |x: NodeView<E::Act, R>| x.without_virtual_loss(action),
                ));
                assert(self.tree().dom() =~= t.dom());
            }
        }
        assert(path.take(0) =~= Seq::empty());
        assert(self.tree() == goal);
        let ghost start = penalized(goal, path, repeat_detected);
        if repeat_detected {
            let ghost before = *self;
            let (last_parent, last_action) = search_path[n - 1];
            let mut found: bool = false;
            if let Some(parent) = self.get_node_mut(last_parent) {
                found = true;
                parent.apply_penalty(last_action);
            }
            proof {
                if found {
                    lemma_tree_update(&before, self, last_parent);
                    lemma_tree_node_wf(&before, last_parent);
                }
                assert(self.tree() =~= start);
                assert(self.tree().dom() =~= t.dom());
            }
        }
        let ghost goal2 = backed_up(start, path);
        let mut j: usize = n;
        while j > 0
            invariant
                j <= n,
                n == path.len(),
                path == search_path@,
                self.wf(),
                self.settings_of(old(self)),
                self.nodes@.len() == old(self).nodes@.len(),
                backed_up(self.tree(), path.take(j as int)) == goal2,
                self.tree().dom() == t.dom(),
                forall|id: NodeId| #[trigger]
                    t.contains_key(id) ==> self.tree()[id].load() + hits(path.take(j as int), id)
                        < usize::MAX,
            decreases j,
        {
            let ghost before = *self;
            j -= 1;
            let (node_hash, action) = search_path[j];
            let mut found: bool = false;
            proof {
                assert(path.take(j + 1).drop_last() =~= path.take(j as int));
                assert(self.tree().contains_key(node_hash) == self.tree().dom().contains(node_hash));
                assert(t.contains_key(node_hash) == t.dom().contains(node_hash));
                if self.tree().contains_key(node_hash) {
                    lemma_tree_node_wf(self, node_hash);
                    let k = action.spec_index() as int;
                    if k < self.tree()[node_hash].edge_visits.len() {
                        lemma_total_bounds(self.tree()[node_hash].edge_visits, k);
                    }
                }
            }
            if let Some(node) = self.get_node_mut(node_hash) {
                found = true;
                let idx: usize = action.to_action_index();
                if idx < node.edge_visits.len() {
                    let v: usize = node.edge_visits[idx];
                    node.edge_visits[idx] = v + 1;
                }
            }
            let ghost middle = *self;
            proof {
                if found {
                    lemma_tree_update(&before, self, node_hash);
                    lemma_visit_load(before.tree()[node_hash], action);
                    lemma_tree_node_wf(self, node_hash);
                    lemma_backed_bound(self.tree()[node_hash]);
                }
                assert(self.tree() =~= adjust(
                    before.tree(),
                    node_hash,
                    |x: NodeView<E::Act, R>| x.with_visit(action),
                ));
            }
            self.recompute_value(node_hash);
            proof {
                assert(self.tree().dom() =~= t.dom());
            }
        }
        assert(path.take(0) =~= Seq::empty());
    }
}

impl<A: Act, R: Scalar> NodeView<A, R> {
    /// The node with `child` recorded for `action`, where none is recorded.
    pub open spec fn linked_child(self, action: A, child: NodeId) -> Self {
        if self.child(action) is None {
            self.with_child(action, child)
        } else {
            self
        }
    }
}

/// The tree with `child` recorded for an action of a node, where none is recorded.
pub open spec fn linked<A: Act, R: Scalar>(
    tree: Tree<A, R>,
    parent: NodeId,
    action: A,
    child: NodeId,
) -> Tree<A, R> {
    adjust(tree, parent, |n: NodeView<A, R>| n.linked_child(action, child))
}

/// How often a path goes through a node.
pub open spec fn hits<A>(path: Seq<(NodeId, A)>, id: NodeId) -> nat
    decreases path.len(),
{
    if path.len() == 0 {
        0
    } else {
        hits(path.drop_last(), id) + (if path.last().0 == id {
            1nat
        } else {
            0
        })
    }
}

/// The tree with the virtual losses of a path taken back, from its end.
pub open spec fn without_losses<A: Act, R: Scalar>(
    tree: Tree<A, R>,
    path: Seq<(NodeId, A)>,
) -> Tree<A, R>
    decreases path.len(),
{
    if path.len() == 0 {
        tree
    } else {
        without_losses(
            adjust(
                tree,
                path.last().0,
                |n: NodeView<A, R>| n.without_virtual_loss(path.last().1),
            ),
            path.drop_last(),
        )
    }
}

/// The tree with a penalty on the last edge of a path that repeated a state.
pub open spec fn penalized<A: Act, R: Scalar>(
    tree: Tree<A, R>,
    path: Seq<(NodeId, A)>,
    repeat: bool,
) -> Tree<A, R> {
    if repeat {
        adjust(tree, path.last().0, |n: NodeView<A, R>| n.with_penalty(path.last().1))
    } else {
        tree
    }
}

/// The tree with one visit counted on the edge `(id, action)` and the node computed anew.
pub open spec fn visited<A: Act, R: Scalar>(tree: Tree<A, R>, id: NodeId, action: A) -> Tree<A, R> {
    let t = adjust(tree, id, |n: NodeView<A, R>| n.with_visit(action));
    adjust(t, id, |n: NodeView<A, R>| recomputed(t, n))
}

/// The tree with a visit counted on every edge of a path, from its end.
pub open spec fn backed_up<A: Act, R: Scalar>(
    tree: Tree<A, R>,
    path: Seq<(NodeId, A)>,
) -> Tree<A, R>
    decreases path.len(),
{
    if path.len() == 0 {
        tree
    } else {
        backed_up(visited(tree, path.last().0, path.last().1), path.drop_last())
    }
}

/// What backing up a playout makes of a tree.
pub open spec fn backpropagated<A: Act, R: Scalar>(
    tree: Tree<A, R>,
    path: Seq<(NodeId, A)>,
    repeat: bool,
) -> Tree<A, R> {
    if path.len() == 0 {
        tree
    } else {
        backed_up(penalized(without_losses(tree, path), path, repeat), path)
    }
}

/// A node made from priors on the actions of the environment is well formed and unvisited.
pub proof fn lemma_new_node_wf<E: Environment, R: Scalar>(
    v: NodeView<E::Act, R>,
    id: NodeId,
    priors: Map<E::Act, R>,
    value: R,
)
    requires
        new_node::<E, R>(v, id, priors, value),
        forall|a: E::Act| #[trigger]
            priors.contains_key(a) ==> E::spec_actions(id).contains(a),
    ensures
        v.wf(),
        v.load() == 0,
        v.id == id,
        forall|i: int|
            0 <= i < v.valid_actions.len() ==> v.child(#[trigger] v.valid_actions[i]) is None,
{
    let s = E::spec_actions(id);
    E::slots_law(id);
    if E::spec_done(id) {
        lemma_total_zeros(v.edge_visits);
        lemma_total_zeros(v.virtual_losses);
    } else {
        assert forall|a: E::Act| #[trigger] priors.contains_key(a) implies a.spec_index()
            < E::spec_num_actions(id) by {
            assert(s[s.index_of(a)] == a);
        }
        assert forall|a: E::Act, b: E::Act| #[trigger]
            priors.contains_key(a) && #[trigger] priors.contains_key(b) && a.spec_index()
                == b.spec_index() implies a == b by {
            assert(s[s.index_of(a)] == a);
            assert(s[s.index_of(b)] == b);
        }
        lemma_fresh_wf(
            v,
            E::spec_num_actions(id),
            priors,
            crate::scalar::spec_clamp(value, R::spec_decimal(-1, 0), R::spec_decimal(1, 0)),
            id,
        );
    }
}

/// Taking a virtual loss back does not add load.
proof fn lemma_unload<A: Act, R: Scalar>(node: NodeView<A, R>, action: A)
    ensures
        node.without_virtual_loss(action).load() <= node.load(),
        node.wf() ==> node.without_virtual_loss(action).wf(),
{
    let i = action.spec_index() as int;
    if i < node.virtual_losses.len() && node.virtual_losses[i] > 0 {
        lemma_total_update(node.virtual_losses, i, (node.virtual_losses[i] - 1) as usize);
    }
}

/// A visit adds one to the load.
proof fn lemma_visit_load<A: Act, R: Scalar>(node: NodeView<A, R>, action: A)
    requires
        node.load() < usize::MAX,
    ensures
        node.with_visit(action).load() <= node.load() + 1,
        node.wf() ==> node.with_visit(action).wf(),
{
    let i = action.spec_index() as int;
    if i < node.edge_visits.len() {
        lemma_total_bounds(node.edge_visits, i);
        lemma_total_update(node.edge_visits, i, (node.edge_visits[i] + 1) as usize);
    }
}

/// What a node's value is weighed against is part of its load.
pub proof fn lemma_backed_bound<A: Act, R: Scalar>(node: NodeView<A, R>)
    requires
        node.wf(),
    ensures
        backed_visits(node) <= node.load(),
{
    lemma_expanded_slots(node, node.valid_actions.len());
    lemma_slot_sum_bound(
        node.valid_actions,
        node.edge_visits,
        node.num_actions,
        node.valid_actions.len(),
    );
}

proof fn lemma_expanded_slots<A: Act, R: Scalar>(node: NodeView<A, R>, k: nat)
    requires
        node.wf(),
        k <= node.valid_actions.len(),
    ensures
        expanded_visits(node, k) <= slot_sum(node.valid_actions, node.edge_visits, k),
    decreases k,
{
    if k > 0 {
        lemma_expanded_slots(node, (k - 1) as nat);
    }
}

} // verus!
