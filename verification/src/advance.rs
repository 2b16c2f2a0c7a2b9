//! Moving the root of a search to one of its children, which keeps the part of the tree that
//! can be reached from there.

use crate::environment::{Act, Environment};
use crate::fxtable::fx_insert;
use crate::mcts::MCTS;
use crate::node::{Node, NodeId};
use crate::scalar::Scalar;
use crate::search::{lemma_restrict_sound, sound};
use crate::tree::Tree;
use std::collections::{HashSet, VecDeque};
use vstd::prelude::*;

verus! {

/// Whether the node `a` is in the tree and has an edge to `b`.
pub open spec fn has_edge<A, R>(tree: Tree<A, R>, a: NodeId, b: NodeId) -> bool {
    tree.contains_key(a) && tree[a].children.contains(Some(b))
}

/// Whether each id of a route has an edge to the next.
pub open spec fn is_route<A, R>(tree: Tree<A, R>, route: Seq<NodeId>) -> bool {
    forall|i: int| 0 <= i < route.len() - 1 ==> has_edge(tree, #[trigger] route[i], route[i + 1])
}

/// Whether edges of the tree lead from one id to another.
pub open spec fn reachable<A, R>(tree: Tree<A, R>, from: NodeId, to: NodeId) -> bool {
    exists|route: Seq<NodeId>|
        route.len() > 0 && route[0] == from && route.last() == to && #[trigger] is_route(
            tree,
            route,
        )
}

/// The ids that are reachable from `from`.
pub open spec fn reachable_set<A, R>(tree: Tree<A, R>, from: NodeId) -> Set<NodeId> {
    Set::new(|id: NodeId| reachable(tree, from, id))
}

/// An id reaches itself.
pub proof fn lemma_reach_self<A, R>(tree: Tree<A, R>, from: NodeId)
    ensures
        reachable(tree, from, from),
{
    let route = seq![from];
    assert(is_route(tree, route));
    assert(route[0] == from && route.last() == from);
}

/// What is reachable reaches one edge further.
pub proof fn lemma_reach_step<A, R>(tree: Tree<A, R>, from: NodeId, a: NodeId, b: NodeId)
    requires
        reachable(tree, from, a),
        has_edge(tree, a, b),
    ensures
        reachable(tree, from, b),
{
    let route = choose|route: Seq<NodeId>|
        route.len() > 0 && route[0] == from && route.last() == a && #[trigger] is_route(tree, route);
    let longer = route.push(b);
    assert(is_route(tree, longer)) by {
        assert forall|i: int| 0 <= i < longer.len() - 1 implies has_edge(
            tree,
            #[trigger] longer[i],
            longer[i + 1],
        ) by {
            if i < route.len() - 1 {
                assert(has_edge(tree, route[i], route[i + 1]));
            }
        }
    }
    assert(longer[0] == from && longer.last() == b);
}

/// A set that has `from` and is closed under edges has everything reachable.
pub proof fn lemma_reach_closed<A, R>(tree: Tree<A, R>, from: NodeId, set: Set<NodeId>, to: NodeId)
    requires
        set.contains(from),
        forall|a: NodeId, b: NodeId| set.contains(a) && #[trigger] has_edge(tree, a, b)
            ==> set.contains(b),
        reachable(tree, from, to),
    ensures
        set.contains(to),
{
    let route = choose|route: Seq<NodeId>|
        route.len() > 0 && route[0] == from && route.last() == to && #[trigger] is_route(
            tree,
            route,
        );
    lemma_route_closed(tree, set, route, route.len() - 1);
}

proof fn lemma_route_closed<A, R>(tree: Tree<A, R>, set: Set<NodeId>, route: Seq<NodeId>, k: int)
    requires
        0 <= k < route.len(),
        set.contains(route[0]),
        is_route(tree, route),
        forall|a: NodeId, b: NodeId| set.contains(a) && #[trigger] has_edge(tree, a, b)
            ==> set.contains(b),
    ensures
        set.contains(route[k]),
    decreases k,
{
    if k > 0 {
        lemma_route_closed(tree, set, route, k - 1);
        assert(has_edge(tree, route[k - 1], route[k - 1 + 1]));
    }
}

/// All ids that a tree mentions as children of the first `k` nodes.
pub open spec fn mentioned<A: Act, R: Scalar>(nodes: Seq<Node<A, R>>, k: nat) -> Set<NodeId>
    decreases k,
{
    if k == 0 {
        Set::empty()
    } else {
        mentioned(nodes, (k - 1) as nat).union(
            ids_in(nodes[k - 1].children@, nodes[k - 1].children@.len()),
        )
    }
}

/// The ids in the first `k` slots.
pub open spec fn ids_in(slots: Seq<Option<NodeId>>, k: nat) -> Set<NodeId>
    decreases k,
{
    if k == 0 {
        Set::empty()
    } else {
        match slots[k - 1] {
            Some(id) => ids_in(slots, (k - 1) as nat).insert(id),
            None => ids_in(slots, (k - 1) as nat),
        }
    }
}

proof fn lemma_ids_in(slots: Seq<Option<NodeId>>, k: nat)
    requires
        k <= slots.len(),
    ensures
        ids_in(slots, k).finite(),
        forall|i: int| 0 <= i < k && (#[trigger] slots[i]) is Some ==> ids_in(slots, k).contains(
            slots[i]->0,
        ),
    decreases k,
{
    if k > 0 {
        lemma_ids_in(slots, (k - 1) as nat);
    }
}

proof fn lemma_mentioned<A: Act, R: Scalar>(nodes: Seq<Node<A, R>>, k: nat)
    requires
        k <= nodes.len(),
    ensures
        mentioned(nodes, k).finite(),
        forall|n: int, i: int|
            #![trigger nodes[n].children@[i]]
            0 <= n < k && 0 <= i < nodes[n].children@.len() && nodes[n].children@[i] is Some
                ==> mentioned(nodes, k).contains(nodes[n].children@[i]->0),
    decreases k,
{
    if k > 0 {
        lemma_mentioned(nodes, (k - 1) as nat);
        lemma_ids_in(nodes[k - 1].children@, nodes[k - 1].children@.len());
    }
}

/// What `table` is after the ids of `nodes` were entered in order.
pub open spec fn indexed<A: Act, R: Scalar>(nodes: Seq<Node<A, R>>, k: nat) -> Map<NodeId, usize>
    decreases k,
{
    if k == 0 {
        Map::empty()
    } else {
        indexed(nodes, (k - 1) as nat).insert(nodes[k - 1].id, (k - 1) as usize)
    }
}

impl<E: Environment, R: Scalar> MCTS<E, R> {
    /// All ids that can be reached from `start`, found breadth first. The set of visited ids
    /// makes this end on cycles.
    fn reachable_from(&self, start: NodeId) -> (r: HashSet<NodeId>)
        ensures
            r@ == reachable_set(self.tree(), start),
    {
        broadcast use vstd::std_specs::hash::group_hash_axioms;

        let ghost t = self.tree();
        let ghost universe = mentioned(self.nodes@, self.nodes@.len()).insert(start);
        proof {
            lemma_mentioned(self.nodes@, self.nodes@.len());
            lemma_reach_self(t, start);
        }
        let mut visited: HashSet<NodeId> = HashSet::new();
        let mut queue: VecDeque<NodeId> = VecDeque::new();
        queue.push_back(start);
        assert(queue@[0] == start);
        while queue.len() > 0
            invariant
                t == self.tree(),
                universe == mentioned(self.nodes@, self.nodes@.len()).insert(start),
                universe.finite(),
                visited@.subset_of(universe),
                forall|i: int| 0 <= i < queue@.len() ==> universe.contains(#[trigger] queue@[i]),
                forall|i: int| 0 <= i < queue@.len() ==> reachable(t, start, #[trigger] queue@[i]),
                forall|id: NodeId| #[trigger] visited@.contains(id) ==> reachable(t, start, id),
                visited@.contains(start) || queue@.contains(start),
                forall|a: NodeId, b: NodeId|
                    visited@.contains(a) && #[trigger] has_edge(t, a, b) ==> visited@.contains(b)
                        || queue@.contains(b),
            decreases universe.len() - visited@.len(), queue@.len(),
        {
            let ghost q0 = queue@;
            let ghost v0 = visited@;
            let id: NodeId = queue.pop_front().unwrap();
            proof {
                assert(q0[0] == id);
                assert forall|x: NodeId| q0.contains(x) implies x == id || queue@.contains(x) by {
                    let i = q0.index_of(x);
                    if i > 0 {
                        assert(queue@[i - 1] == x);
                    }
                }
                vstd::set_lib::lemma_len_subset(v0, universe);
            }
            if !visited.insert(id) {
                continue;
            }
            proof {
                assert(visited@ == v0.insert(id));
                vstd::set_lib::lemma_len_subset(visited@, universe);
            }
            if let Some(node) = self.get_node_immut(id) {
                let ghost n = self.transposition_table@[id] as int;
                let mut i: usize = 0;
                while i < node.children.len()
                    invariant
                        i <= node.children@.len(),
                        t == self.tree(),
                        universe == mentioned(self.nodes@, self.nodes@.len()).insert(start),
                        0 <= n < self.nodes@.len(),
                        *node == self.nodes@[n],
                        t.contains_key(id),
                        t[id] == node@,
                        reachable(t, start, id),
                        forall|i: int|
                            0 <= i < queue@.len() ==> universe.contains(#[trigger] queue@[i]),
                        forall|i: int|
                            0 <= i < queue@.len() ==> reachable(t, start, #[trigger] queue@[i]),
                        visited@ == v0.insert(id),
                        forall|x: NodeId| #[trigger]
                            q0.contains(x) ==> x == id || queue@.contains(x),
                        forall|j: int|
                            0 <= j < i && (#[trigger] node.children@[j]) is Some
                                ==> visited@.contains(node.children@[j]->0) || queue@.contains(
                                node.children@[j]->0,
                            ),
                    decreases node.children.len() - i,
                {
                    if let Some(child_id) = node.children[i] {
                        proof {
                            lemma_mentioned(self.nodes@, self.nodes@.len());
                            assert(self.nodes@[n].children@[i as int] is Some);
                            assert(t[id].children[i as int] == Some(child_id));
                            assert(has_edge(t, id, child_id));
                            lemma_reach_step(t, start, id, child_id);
                        }
                        let ghost q1 = queue@;
                        if !visited.contains(&child_id) {
                            queue.push_back(child_id);
                            proof {
                                assert(queue@[q1.len() as int] == child_id);
                                assert forall|x: NodeId| q1.contains(x) implies queue@.contains(
                                    x,
                                ) by {
                                    let k = q1.index_of(x);
                                    assert(queue@[k] == x);
                                }
                            }
                        }
                    }
                    i += 1;
                }
                assert forall|b: NodeId| #[trigger] has_edge(t, id, b) implies visited@.contains(b)
                    || queue@.contains(b) by {
                    let j = t[id].children.index_of(Some(b));
                    assert(node.children@[j] == Some(b));
                }
            }
            assert forall|a: NodeId, b: NodeId|
                visited@.contains(a) && #[trigger] has_edge(t, a, b) implies visited@.contains(b)
                || queue@.contains(b) by {
                if a != id {
                    assert(v0.contains(a));
                    if q0.contains(b) {
                    }
                }
            }
        }
        proof {
            assert(queue@ =~= Seq::empty());
            assert forall|id: NodeId| reachable(t, start, id) implies visited@.contains(id) by {
                lemma_reach_closed(t, start, visited@, id);
            }
            assert(visited@ =~= reachable_set(t, start));
        }
        visited
    }

    /// Keeps the nodes with an id in `keep`, in their order, and makes the table anew.
    fn compact(&mut self, keep: &HashSet<NodeId>)
        ensures
            final(self).nodes@ == old(self).nodes@.filter(
                |n: Node<E::Act, R>| keep@.contains(n.id),
            ),
            final(self).transposition_table@ == indexed(final(self).nodes@, final(self).nodes@.len()),
            final(self).settings_of(old(self)),
    {
        broadcast use vstd::std_specs::hash::group_hash_axioms;

        let ghost all = self.nodes@;
        let ghost p = |n: Node<E::Act, R>| keep@.contains(n.id);
        let mut rest: Vec<Node<E::Act, R>> = Vec::with_capacity(self.nodes.len());
        while self.nodes.len() > 0
            invariant
                self.nodes@ + rest@.reverse() == all,
                self.settings_of(old(self)),
            decreases self.nodes@.len(),
        {
            let node: Node<E::Act, R> = self.nodes.pop().unwrap();
            let ghost r0 = rest@;
            rest.push(node);
            assert(rest@.reverse() =~= seq![node] + r0.reverse());
            assert(self.nodes@ + rest@.reverse() =~= self.nodes@.push(node) + r0.reverse());
        }
        assert(self.nodes@ =~= Seq::empty());
        assert(rest@.reverse() =~= all);
        while rest.len() > 0
            invariant
                p == (|n: Node<E::Act, R>| keep@.contains(n.id)),
                self.nodes@ + rest@.reverse().filter(p) == all.filter(p),
                self.settings_of(old(self)),
            decreases rest@.len(),
        {
            let ghost n0 = self.nodes@;
            let ghost rest0 = rest@;
            let node: Node<E::Act, R> = rest.pop().unwrap();
            proof {
                assert(rest0 =~= rest@.push(node));
                assert(rest@.push(node).reverse() =~= seq![node] + rest@.reverse());
                Seq::filter_distributes_over_add(seq![node], rest@.reverse(), p);
                reveal_with_fuel(Seq::filter, 2);
                assert(seq![node].drop_last() =~= Seq::empty());
            }
            if keep.contains(&node.id) {
                self.nodes.push(node);
                assert(seq![node].filter(p) =~= seq![node]);
                assert(n0 + (seq![node] + rest@.reverse().filter(p)) =~= self.nodes@
                    + rest@.reverse().filter(p));
            } else {
                assert(seq![node].filter(p) =~= Seq::empty());
                assert(n0 + (Seq::empty() + rest@.reverse().filter(p)) =~= n0
                    + rest@.reverse().filter(p));
            }
        }
        proof {
            reveal(Seq::filter);
            assert(rest@.reverse() =~= Seq::empty());
            assert(self.nodes@ =~= all.filter(p));
        }
        self.transposition_table.clear();
        self.transposition_table.reserve(self.nodes.len());
        let mut i: usize = 0;
        while i < self.nodes.len()
            invariant
                i <= self.nodes@.len(),
                self.nodes@ == all.filter(p),
                self.transposition_table@ == indexed(self.nodes@, i as nat),
                self.settings_of(old(self)),
            decreases self.nodes.len() - i,
        {
            let id: NodeId = self.nodes[i].id;
            fx_insert(&mut self.transposition_table, id, i);
            i += 1;
        }
    }

    /// Advances the root of the tree to the child corresponding to the given action, and drops
    /// every node that cannot be reached from there. What remains is kept as it is, so the
    /// next search goes deeper.
    ///
    /// If the child does not exist, the root is set to `None` and the nodes stay.
    pub fn advance_root(&mut self, action: E::Act)
        ensures
            final(self).batch_size == old(self).batch_size,
            final(self).tuning() == old(self).tuning(),
            final(self).root_id == next_root(old(self).root_id, old(self).tree(), action),
            old(self).table_ok() && sound::<E, R>(old(self).tree()) ==> sound::<E, R>(
                final(self).tree(),
            ),
            match final(self).root_id {
                Some(id) => {
                    &&& final(self).nodes@ == old(self).nodes@.filter(
                        |n: Node<E::Act, R>| reachable(old(self).tree(), id, n.id),
                    )
                    &&& final(self).transposition_table@ == indexed(
                        final(self).nodes@,
                        final(self).nodes@.len(),
                    )
                    &&& final(self).nodes@.len() <= old(self).nodes@.len()
                    &&& final(self).table_ok()
                    &&& old(self).wf() ==> final(self).wf()
                    &&& old(self).table_ok() ==> final(self).tree() == old(self).tree().restrict(
                        reachable_set(old(self).tree(), id),
                    )
                },
                None => final(self).nodes@ == old(self).nodes@ && final(self).transposition_table@
                    == old(self).transposition_table@,
            },
    {
        let old_root_id: NodeId = match self.root_id {
            Some(id) => id,
            None => {
                return ;
            },
        };
        let idx: usize = action.to_action_index();
        let new_root_id: Option<NodeId> = match self.get_node_immut(old_root_id) {
            Some(node) => if idx < node.children.len() {
                node.children[idx]
            } else {
                None
            },
            None => None,
        };
        self.root_id = new_root_id;
        if let Some(id) = new_root_id {
            let keep: HashSet<NodeId> = self.reachable_from(id);
            assert(self.tree() =~= old(self).tree());
            self.compact(&keep);
            assert((|n: Node<E::Act, R>| keep@.contains(n.id)) =~= (|n: Node<E::Act, R>|
                reachable(old(self).tree(), id, n.id)));
            proof {
                lemma_compacted(old(self), self, keep@);
                if old(self).table_ok() {
                    assert(self.tree() =~= old(self).tree().restrict(
                        reachable_set(old(self).tree(), id),
                    ));
                    if sound::<E, R>(old(self).tree()) {
                        lemma_restrict_sound::<E, R>(
                            old(self).tree(),
                            reachable_set(old(self).tree(), id),
                        );
                    }
                }
            }
        } else {
            assert(self.tree() =~= old(self).tree());
        }
    }
}

/// The last node with an id.
spec fn last_with<A: Act, R: Scalar>(nodes: Seq<Node<A, R>>, id: NodeId) -> Option<Node<A, R>>
    decreases nodes.len(),
{
    if nodes.len() == 0 {
        None
    } else if nodes.last().id == id {
        Some(nodes.last())
    } else {
        last_with(nodes.drop_last(), id)
    }
}

proof fn lemma_last_with_index<A: Act, R: Scalar>(nodes: Seq<Node<A, R>>, i: int)
    requires
        0 <= i < nodes.len(),
        forall|j: int| i < j < nodes.len() ==> (#[trigger] nodes[j]).id != nodes[i].id,
    ensures
        last_with(nodes, nodes[i].id) == Some(nodes[i]),
    decreases nodes.len(),
{
    if i < nodes.len() - 1 {
        assert(nodes[nodes.len() - 1].id != nodes[i].id);
        lemma_last_with_index(nodes.drop_last(), i);
    }
}

proof fn lemma_last_with_none<A: Act, R: Scalar>(nodes: Seq<Node<A, R>>, id: NodeId)
    requires
        last_with(nodes, id) is Some,
    ensures
        exists|i: int| 0 <= i < nodes.len() && (#[trigger] nodes[i]).id == id,
    decreases nodes.len(),
{
    if nodes.last().id == id {
        assert(nodes[nodes.len() - 1].id == id);
    } else {
        lemma_last_with_none(nodes.drop_last(), id);
        let i = choose|i: int|
            0 <= i < nodes.drop_last().len() && (#[trigger] nodes.drop_last()[i]).id == id;
        assert(nodes[i].id == id);
    }
}

proof fn lemma_last_with_filter<A: Act, R: Scalar>(
    nodes: Seq<Node<A, R>>,
    keep: Set<NodeId>,
    id: NodeId,
)
    ensures
        last_with(nodes.filter(|n: Node<A, R>| keep.contains(n.id)), id) == (if keep.contains(id) {
            last_with(nodes, id)
        } else {
            None
        }),
    decreases nodes.len(),
{
    let p = |n: Node<A, R>| keep.contains(n.id);
    reveal_with_fuel(Seq::filter, 1);
    if nodes.len() > 0 {
        lemma_last_with_filter(nodes.drop_last(), keep, id);
        let sub = nodes.drop_last().filter(p);
        if p(nodes.last()) {
            assert(sub.push(nodes.last()).drop_last() =~= sub);
        }
    }
}

/// The table made anew finds the last node of each id, and no other.
proof fn lemma_indexed<A: Act, R: Scalar>(nodes: Seq<Node<A, R>>, k: nat)
    requires
        k <= nodes.len(),
        nodes.len() <= usize::MAX,
    ensures
        forall|i: int|
            0 <= i < k ==> indexed(nodes, k).contains_key((#[trigger] nodes[i]).id) && i
                <= indexed(nodes, k)[nodes[i].id],
        forall|id: NodeId| #[trigger]
            indexed(nodes, k).contains_key(id) ==> indexed(nodes, k)[id] < k && nodes[indexed(
                nodes,
                k,
            )[id] as int].id == id,
    decreases k,
{
    if k > 0 {
        lemma_indexed(nodes, (k - 1) as nat);
    }
}

/// A consistent table gives for each id the last node that has it.
proof fn lemma_tree_last<E: Environment, R: Scalar>(m: &MCTS<E, R>, id: NodeId)
    requires
        m.table_ok(),
    ensures
        m.tree().contains_key(id) == (last_with(m.nodes@, id) is Some),
        m.tree().contains_key(id) ==> last_with(m.nodes@, id)->0@ == m.tree()[id],
{
    if m.tree().contains_key(id) {
        let i = m.transposition_table@[id] as int;
        assert forall|j: int| i < j < m.nodes@.len() implies (#[trigger] m.nodes@[j]).id
            != m.nodes@[i].id by {}
        lemma_last_with_index(m.nodes@, i);
    } else if last_with(m.nodes@, id) is Some {
        lemma_last_with_none(m.nodes@, id);
    }
}

proof fn lemma_compacted<E: Environment, R: Scalar>(
    a: &MCTS<E, R>,
    b: &MCTS<E, R>,
    keep: Set<NodeId>,
)
    requires
        b.nodes@ == a.nodes@.filter(|n: Node<E::Act, R>| keep.contains(n.id)),
        b.transposition_table@ == indexed(b.nodes@, b.nodes@.len()),
    ensures
        b.nodes@.len() <= a.nodes@.len(),
        b.table_ok(),
        a.wf() ==> b.wf(),
        a.table_ok() ==> b.tree() =~= a.tree().restrict(keep),
{
    broadcast use vstd::std_specs::vec::axiom_spec_len;

    let p = |n: Node<E::Act, R>| keep.contains(n.id);
    a.nodes@.lemma_filter_len(p);
    assert(b.nodes.len() == b.nodes@.len());
    lemma_indexed(b.nodes@, b.nodes@.len());
    if a.wf() {
        assert forall|i: int| 0 <= i < b.nodes@.len() implies (#[trigger] b.nodes@[i])@.wf() by {
            a.nodes@.lemma_filter_contains_rev(p, b.nodes@[i]);
            let j = a.nodes@.index_of(b.nodes@[i]);
            assert(a.nodes@[j]@.wf());
        }
    }
    if a.table_ok() {
        assert forall|id: NodeId| true implies b.tree().contains_key(id) == (keep.contains(id)
            && a.tree().contains_key(id)) && (b.tree().contains_key(id) ==> b.tree()[id]
            == a.tree()[id]) by {
            lemma_tree_last(a, id);
            lemma_tree_last(b, id);
            lemma_last_with_filter(a.nodes@, keep, id);
        }
    }
}

/// Whether every child that a node of the tree names is in the tree.
pub open spec fn no_dangling<A, R>(tree: Tree<A, R>) -> bool {
    forall|a: NodeId, b: NodeId| #[trigger] has_edge(tree, a, b) ==> tree.contains_key(b)
}

/// Law: what a search keeps when its root moves to `root` has the new root in it if it was
/// found before, holds its nodes unchanged, and names no child that was dropped.
pub proof fn law_advance_keeps_subtree<A, R>(tree: Tree<A, R>, root: NodeId)
    ensures
        ({
            let kept = tree.restrict(reachable_set(tree, root));
            &&& tree.contains_key(root) ==> kept.contains_key(root)
            &&& forall|id: NodeId| #[trigger]
                kept.contains_key(id) <==> tree.contains_key(id) && reachable(tree, root, id)
            &&& forall|id: NodeId| #[trigger] kept.contains_key(id) ==> kept[id] == tree[id]
            &&& no_dangling(tree) ==> no_dangling(kept)
        }),
{
    let kept = tree.restrict(reachable_set(tree, root));
    lemma_reach_self(tree, root);
    if no_dangling(tree) {
        assert forall|a: NodeId, b: NodeId| #[trigger] has_edge(kept, a, b) implies
            kept.contains_key(b) by {
            assert(has_edge(tree, a, b));
            lemma_reach_step(tree, root, a, b);
        }
    }
}

/// Law: everything a search keeps when its root moves is still reachable from the new root, so
/// the tree has no waste.
pub proof fn law_advance_is_tight<A, R>(tree: Tree<A, R>, root: NodeId, id: NodeId)
    ensures
        reachable(tree.restrict(reachable_set(tree, root)), root, id) <==> reachable(
            tree,
            root,
            id,
        ),
{
    let kept = tree.restrict(reachable_set(tree, root));
    if reachable(tree, root, id) {
        let set = reachable_set(kept, root);
        lemma_reach_self(kept, root);
        let both = set.intersect(reachable_set(tree, root));
        lemma_reach_self(tree, root);
        assert forall|a: NodeId, b: NodeId| both.contains(a) && #[trigger] has_edge(
            tree,
            a,
            b,
        ) implies both.contains(b) by {
            lemma_reach_step(tree, root, a, b);
            assert(has_edge(kept, a, b));
            lemma_reach_step(kept, root, a, b);
        }
        lemma_reach_closed(tree, root, both, id);
    }
    if reachable(kept, root, id) {
        let set = reachable_set(tree, root);
        lemma_reach_self(tree, root);
        assert forall|a: NodeId, b: NodeId| set.contains(a) && #[trigger] has_edge(
            kept,
            a,
            b,
        ) implies set.contains(b) by {
            assert(has_edge(tree, a, b));
            lemma_reach_step(tree, root, a, b);
        }
        lemma_reach_closed(kept, root, set, id);
    }
}

/// The root after playing `action`: the child that the root has for it, if any.
pub open spec fn next_root<A: Act, R: Scalar>(
    root: Option<NodeId>,
    tree: Tree<A, R>,
    action: A,
) -> Option<NodeId> {
    match root {
        Some(id) if tree.contains_key(id) => tree[id].child(action),
        _ => None,
    }
}

} // verus!
