//! The core of the search over nodes that keep hash maps, found through a shared table.

use crate::dashtable::NodeTable;
use crate::node::NodeId;
use crate::scalar::{one, over, plus, root, times, zero, Binary, Scalar, Unary};
use crate::shared_node::{count_at, get_count, get_number, number_at, Node};
use crate::tree::can_rank;
use crate::walk::{copy_counts, lists, map_total, sum_counts, walk};
use std::collections::HashMap;
use vstd::prelude::*;

verus! {

/// Core Monte Carlo Tree Search engine.
pub struct MCTS<R> {
    /// Where the node of an id stands in `nodes`.
    pub transposition_table: NodeTable,
    /// All nodes.
    pub nodes: Vec<Node<R>>,
    pub terminal_value: R,
    pub batch_size: usize,
}

/// What a node knows of its actions.
pub struct Snapshot<R> {
    pub prior_probs: HashMap<usize, R>,
    pub edge_visits: HashMap<usize, usize>,
    pub virtual_losses: HashMap<usize, usize>,
    pub edge_penalties: HashMap<usize, R>,
    pub children: HashMap<usize, NodeId>,
    pub value: R,
}

/// A copy of a map of numbers.
fn copy_numbers<R: Scalar>(m: &HashMap<usize, R>) -> (r: HashMap<usize, R>)
    ensures
        r@ == m@,
{
    broadcast use vstd::std_specs::hash::group_hash_axioms;

    let order: Vec<usize> = walk(m);
    let mut out: HashMap<usize, R> = HashMap::new();
    let mut i: usize = 0;
    while i < order.len()
        invariant
            i <= order@.len(),
            lists(order@, m@.dom()),
            forall|k: usize|
                out@.contains_key(k) <==> exists|j: int| 0 <= j < i && #[trigger] order@[j] == k,
            forall|k: usize| #[trigger] out@.contains_key(k) ==> out@[k] == m@[k],
        decreases order.len() - i,
    {
        let k: usize = order[i];
        assert(order@.contains(order@[i as int]));
        if let Some(v) = m.get(&k) {
            out.insert(k, v.dup());
        }
        i += 1;
    }
    assert forall|k: usize| out@.contains_key(k) == m@.contains_key(k) by {
        assert(order@.contains(k) <==> m@.dom().contains(k));
    }
    assert(out@ =~= m@);
    out
}

impl<R: Scalar> MCTS<R> {
    /// The node of an id, if there is one.
    pub open spec fn node_of(&self, id: NodeId) -> Option<Node<R>> {
        if self.transposition_table@.contains_key(id) && self.transposition_table@[id]
            < self.nodes@.len() {
            Some(self.nodes@[self.transposition_table@[id] as int])
        } else {
            None
        }
    }

    /// A search without nodes.
    pub fn new(terminal_value: R, batch_size: usize) -> (r: Self)
        ensures
            r.terminal_value == terminal_value,
            r.batch_size == batch_size,
            r.nodes@.len() == 0,
            forall|id: NodeId| #[trigger] r.node_of(id) is None,
    {
        MCTS { transposition_table: NodeTable::new(), nodes: Vec::new(), terminal_value, batch_size }
    }

    /// Look up a node by its ID.
    pub fn get_node_arc(&self, node_id: NodeId) -> (r: Option<&Node<R>>)
        ensures
            match self.node_of(node_id) {
                Some(n) => r is Some && *r->0 == n,
                None => r is None,
            },
    {
        match self.transposition_table.get(node_id) {
            Some(i) => if i < self.nodes.len() {
                Some(&self.nodes[i])
            } else {
                None
            },
            None => None,
        }
    }

    /// Insert a new node into the table and the list of nodes. Returns its place.
    pub fn insert_node(&mut self, node: Node<R>) -> (r: usize)
        ensures
            r == old(self).nodes@.len(),
            final(self).nodes@ == old(self).nodes@.push(node),
            final(self).transposition_table@ == old(self).transposition_table@.insert(node.id, r),
            final(self).node_of(node.id) == Some(node),
            forall|id: NodeId|
                id != node.id && old(self).node_of(id) is Some ==> #[trigger] final(self).node_of(id)
                    == old(self).node_of(id),
            final(self).terminal_value == old(self).terminal_value,
            final(self).batch_size == old(self).batch_size,
    {
        let index: usize = self.nodes.len();
        self.transposition_table.insert(node.id, index);
        self.nodes.push(node);
        index
    }

    /// Whether everything but one node is as in `other`.
    pub open spec fn same_but(&self, other: &Self, id: NodeId) -> bool {
        &&& self.transposition_table == other.transposition_table
        &&& self.nodes@.len() == other.nodes@.len()
        &&& forall|i: int|
            0 <= i < self.nodes@.len() && !(other.transposition_table@.contains_key(id) && i
                == other.transposition_table@[id])
                ==> #[trigger] self.nodes@[i] == other.nodes@[i]
        &&& self.terminal_value == other.terminal_value
        &&& self.batch_size == other.batch_size
    }

    /// The node of an id, to be changed.
    pub fn with_node_write(&mut self, node_id: NodeId) -> (r: Option<&mut Node<R>>)
        ensures
            match old(self).node_of(node_id) {
                Some(n) => {
                    &&& r is Some
                    &&& *r->0 == n
                    &&& final(self).nodes@ == old(self).nodes@.update(
                        old(self).transposition_table@[node_id] as int,
                        *final(r->0),
                    )
                    &&& *final(self) == (MCTS { nodes: final(self).nodes, ..*old(self) })
                },
                None => r is None && *final(self) == *old(self),
            },
    {
        match self.transposition_table.get(node_id) {
            Some(i) => if i < self.nodes.len() {
                Some(&mut self.nodes[i])
            } else {
                None
            },
            None => None,
        }
    }

    /// Run a function on the node of an id.
    pub fn with_node_read<T, F: FnOnce(&Node<R>) -> T>(&self, node_id: NodeId, f: F) -> (r: Option<
        T,
    >)
        requires
            self.node_of(node_id) is Some ==> call_requires(f, (&self.node_of(node_id)->0,)),
        ensures
            match self.node_of(node_id) {
                Some(n) => r is Some && call_ensures(f, (&n,), r->0),
                None => r is None,
            },
    {
        match self.get_node_arc(node_id) {
            Some(n) => Some(f(n)),
            None => None,
        }
    }

    /// A copy of what the node of an id knows of its actions.
    pub fn node_snapshot(&self, node_id: NodeId) -> (r: Option<Snapshot<R>>)
        ensures
            match self.node_of(node_id) {
                Some(n) => {
                    &&& r is Some
                    &&& r->0.prior_probs@ == n.prior_probs@
                    &&& r->0.edge_visits@ == n.edge_visits@
                    &&& r->0.virtual_losses@ == n.virtual_losses@
                    &&& r->0.edge_penalties@ == n.edge_penalties@
                    &&& r->0.children@ == n.children@
                    &&& r->0.value == n.value
                },
                None => r is None,
            },
    {
        match self.get_node_arc(node_id) {
            Some(n) => Some(
                Snapshot {
                    prior_probs: copy_numbers(&n.prior_probs),
                    edge_visits: copy_counts(&n.edge_visits),
                    virtual_losses: n.virtual_loss_copy(),
                    edge_penalties: copy_numbers(&n.edge_penalties),
                    children: copy_counts(&n.children),
                    value: n.value.dup(),
                },
            ),
            None => None,
        }
    }

    /// The value of a node, or else another one.
    pub open spec fn value_or(&self, id: NodeId, other: R) -> R {
        match self.node_of(id) {
            Some(n) => n.value,
            None => other,
        }
    }

    /// The value of a node, or else another one.
    fn get_value_or(&self, id: NodeId, other: R) -> (r: R)
        ensures
            r == self.value_or(id, other),
    {
        match self.get_node_arc(id) {
            Some(n) => n.value.dup(),
            None => other,
        }
    }

    /// The values of the children, each times the visits of its edge, added up in an order of
    /// the actions. Edges without visits add nothing.
    pub open spec fn weighted_children(&self, n: Node<R>, order: Seq<usize>) -> R
        decreases order.len(),
    {
        if order.len() == 0 {
            zero()
        } else {
            let before = self.weighted_children(n, order.drop_last());
            let a = order.last();
            let v = count_at(n.edge_visits@, a);
            if v == 0 {
                before
            } else {
                plus(
                    before,
                    times(R::spec_count(v), self.value_or(n.children@[a], zero())),
                )
            }
        }
    }

    /// Visits and virtual losses of all edges of a node.
    pub open spec fn edge_load(n: Node<R>) -> nat {
        map_total(n.edge_visits@) + map_total(n.virtual_losses@)
    }

    /// Whether `m` is the node `n` with its visits and its value computed anew, adding up the
    /// children in some order.
    pub open spec fn is_recomputed(&self, n: Node<R>, m: Node<R>) -> bool {
        if Self::edge_load(n) == 0 {
            m == (Node { node_visits: 1, value: n.value_estimate, ..n })
        } else {
            let visits = (1 + Self::edge_load(n)) as usize;
            exists|order: Seq<usize>| #[trigger]
                lists(order, n.children@.dom()) && m == (Node {
                    node_visits: visits,
                    value: over(
                        plus(n.value_estimate, self.weighted_children(n, order)),
                        R::spec_count(visits),
                    ),
                    ..n
                })
        }
    }

    /// Recompute the cached value of a node based on its children's values. Returns it, or 0
    /// where there is no such node.
    ///
    /// The children are added up in the order in which their map is walked, which is not fixed.
    pub fn recompute_value(&mut self, node_id: NodeId) -> (r: R)
        requires
            old(self).node_of(node_id) is Some ==> Self::edge_load(old(self).node_of(node_id)->0)
                < usize::MAX,
        ensures
            match old(self).node_of(node_id) {
                Some(n) => {
                    &&& final(self).node_of(node_id) is Some
                    &&& old(self).is_recomputed(n, final(self).node_of(node_id)->0)
                    &&& r == final(self).node_of(node_id)->0.value
                    &&& final(self).same_but(old(self), node_id)
                },
                None => *final(self) == *old(self) && r == zero::<R>(),
            },
    {
        broadcast use vstd::std_specs::hash::group_hash_axioms;

        let ghost before = *self;
        let (visits, value): (usize, R) = match self.get_node_arc(node_id) {
            None => {
                return R::decimal(0, 0);
            },
            Some(n) => {
                let load: usize = sum_counts(&n.edge_visits) + sum_counts(&n.virtual_losses);
                if load == 0 {
                    (1, n.value_estimate.dup())
                } else {
                    let order: Vec<usize> = walk(&n.children);
                    let mut acc: R = R::decimal(0, 0);
                    let mut i: usize = 0;
                    assert(order@.take(0).len() == 0);
                    while i < order.len()
                        invariant
                            i <= order@.len(),
                            lists(order@, n.children@.dom()),
                            acc == self.weighted_children(*n, order@.take(i as int)),
                        decreases order.len() - i,
                    {
                        let a: usize = order[i];
                        assert(order@.contains(order@[i as int]));
                        assert(order@.take(i + 1).drop_last() =~= order@.take(i as int));
                        assert(order@.take(i + 1).last() == a);
                        let v: usize = get_count(&n.edge_visits, a);
                        if v != 0 {
                            if let Some(c) = n.children.get(&a) {
                                let q: R = self.get_value_or(*c, R::decimal(0, 0));
                                let w: R = R::binary(Binary::Times, &R::count(v), &q);
                                acc = R::binary(Binary::Plus, &acc, &w);
                            }
                        }
                        i += 1;
                    }
                    assert(order@.take(i as int) =~= order@);
                    let sum: R = R::binary(Binary::Plus, &n.value_estimate, &acc);
                    (1 + load, R::binary(Binary::Over, &sum, &R::count(1 + load)))
                }
            },
        };
        let answer: R = value.dup();
        match self.with_node_write(node_id) {
            Some(node) => {
                node.node_visits = visits;
                node.value = value;
            },
            None => {},
        }
        answer
    }

    /// The score of an action: the value of its child, or of the node where there is none, with
    /// the penalty, and its exploration bonus.
    pub open spec fn spec_score(&self, n: Node<R>, a: usize, c_puct: R) -> R {
        let sqrt_total = plus(
            root(R::spec_count(map_total(n.edge_visits@) as usize)),
            R::spec_decimal(1, -8),
        );
        let visits = count_at(n.edge_visits@, a) + count_at(n.virtual_losses@, a);
        let penalty = number_at(n.edge_penalties@, a);
        let q = if n.children@.contains_key(a) {
            plus(self.value_or(n.children@[a], n.value), penalty)
        } else {
            plus(n.value, penalty)
        };
        plus(
            q,
            times(
                times(c_puct, n.prior_probs@[a]),
                over(sqrt_total, plus(one(), R::spec_count(visits as usize))),
            ),
        )
    }

    /// What [`MCTS::puct_scores`] gives.
    pub open spec fn spec_scores(&self, id: NodeId, c_puct: R) -> Map<usize, R> {
        match self.node_of(id) {
            Some(n) => Map::new(
                |a: usize| n.prior_probs@.contains_key(a),
                |a: usize| self.spec_score(n, a, c_puct),
            ),
            None => Map::empty(),
        }
    }

    /// Whether the counts of a node can be added up.
    pub open spec fn countable(&self, id: NodeId) -> bool {
        self.node_of(id) is Some ==> {
            let n = self.node_of(id)->0;
            &&& map_total(n.edge_visits@) <= usize::MAX
            &&& forall|a: usize|
                n.prior_probs@.contains_key(a) ==> #[trigger] count_at(n.edge_visits@, a) + count_at(
                    n.virtual_losses@,
                    a,
                ) <= usize::MAX
        }
    }

    /// Compute PUCT scores for all actions from this node.
    pub fn puct_scores(&self, node_id: NodeId, c_puct: R) -> (r: HashMap<usize, R>)
        requires
            self.countable(node_id),
        ensures
            r@ == self.spec_scores(node_id, c_puct),
    {
        broadcast use vstd::std_specs::hash::group_hash_axioms;

        let mut scores: HashMap<usize, R> = HashMap::new();
        let n: &Node<R> = match self.get_node_arc(node_id) {
            Some(n) => n,
            None => {
                assert(scores@ =~= self.spec_scores(node_id, c_puct));
                return scores;
            },
        };
        let total: usize = sum_counts(&n.edge_visits);
        let sqrt_total: R = R::binary(
            Binary::Plus,
            &R::unary(Unary::Sqrt, &R::count(total)),
            &R::decimal(1, -8),
        );
        let order: Vec<usize> = walk(&n.prior_probs);
        let mut i: usize = 0;
        while i < order.len()
            invariant
                i <= order@.len(),
                lists(order@, n.prior_probs@.dom()),
                self.countable(node_id),
                self.node_of(node_id) == Some(*n),
                total == map_total(n.edge_visits@),
                sqrt_total == plus(root(R::spec_count(total)), R::spec_decimal(1, -8)),
                forall|a: usize|
                    scores@.contains_key(a) <==> exists|j: int|
                        0 <= j < i && #[trigger] order@[j] == a,
                forall|a: usize| #[trigger]
                    scores@.contains_key(a) ==> scores@[a] == self.spec_score(*n, a, c_puct),
            decreases order.len() - i,
        {
            let a: usize = order[i];
            assert(order@.contains(order@[i as int]));
            assert(n.prior_probs@.contains_key(a));
            let seen: usize = get_count(&n.edge_visits, a);
            assert(count_at(n.edge_visits@, a) + count_at(n.virtual_losses@, a) <= usize::MAX);
            let visits: usize = seen + get_count(&n.virtual_losses, a);
            let penalty: R = get_number(&n.edge_penalties, a);
            let base: R = match n.children.get(&a) {
                Some(c) => self.get_value_or(*c, n.value.dup()),
                None => n.value.dup(),
            };
            let q: R = R::binary(Binary::Plus, &base, &penalty);
            let prior: R = get_number(&n.prior_probs, a);
            let bonus: R = R::binary(
                Binary::Over,
                &sqrt_total,
                &R::binary(Binary::Plus, &R::decimal(1, 0), &R::count(visits)),
            );
            let u: R = R::binary(
                Binary::Times,
                &R::binary(Binary::Times, &c_puct, &prior),
                &bonus,
            );
            scores.insert(a, R::binary(Binary::Plus, &q, &u));
            i += 1;
        }
        assert forall|a: usize| scores@.contains_key(a) == n.prior_probs@.contains_key(a) by {
            assert(order@.contains(a) <==> n.prior_probs@.dom().contains(a));
        }
        assert(scores@ =~= self.spec_scores(node_id, c_puct));
        scores
    }

    /// An action with the best score, `None` where there is no action.
    ///
    /// The scores are compared in the order in which their map is walked, which is not fixed; of
    /// equal scores the last one is taken.
    pub fn select_action_puct(&self, node_id: NodeId, c_puct: R) -> (r: Option<usize>)
        requires
            self.countable(node_id),
            comparable(self.spec_scores(node_id, c_puct)),
        ensures
            exists|order: Seq<usize>| #[trigger]
                lists(order, self.spec_scores(node_id, c_puct).dom()) && r == best_of(
                    order,
                    self.spec_scores(node_id, c_puct),
                ),
            r is None <==> self.spec_scores(node_id, c_puct).dom() =~= Set::<usize>::empty(),
            r is Some ==> self.spec_scores(node_id, c_puct).contains_key(r->0),
    {
        broadcast use vstd::std_specs::hash::group_hash_axioms;

        let scores: HashMap<usize, R> = self.puct_scores(node_id, c_puct);
        let order: Vec<usize> = walk(&scores);
        let mut best: Option<usize> = None;
        let mut i: usize = 0;
        assert(order@.take(0).len() == 0);
        while i < order.len()
            invariant
                i <= order@.len(),
                lists(order@, scores@.dom()),
                best == best_of(order@.take(i as int), scores@),
                i > 0 ==> best is Some,
                best is Some ==> scores@.contains_key(best->0),
            decreases order.len() - i,
        {
            let a: usize = order[i];
            assert(order@.contains(order@[i as int]));
            assert(order@.take(i + 1).drop_last() =~= order@.take(i as int));
            assert(order@.take(i + 1).last() == a);
            let keep: bool = match best {
                Some(b) => match (scores.get(&a), scores.get(&b)) {
                    (Some(x), Some(y)) => R::less(x, y),
                    _ => false,
                },
                None => false,
            };
            if !keep {
                best = Some(a);
            }
            i += 1;
        }
        proof {
            assert(order@.take(i as int) =~= order@);
            if order@.len() > 0 {
                assert(order@.contains(order@[0]));
            } else {
                assert forall|a: usize| !scores@.dom().contains(a) by {
                    assert(!order@.contains(a));
                }
            }
        }
        best
    }

    /// An action of the node of an id with the most visits, `None` where there is none.
    pub fn select_action(&self, node_id: NodeId) -> (r: Option<usize>)
        ensures
            match self.node_of(node_id) {
                Some(n) => match r {
                    Some(a) => n.edge_visits@.contains_key(a) && n.edge_visits@[a] > 0 && forall|
                        b: usize,
                    | #[trigger]
                        n.edge_visits@.contains_key(b) ==> n.edge_visits@[b] <= n.edge_visits@[a],
                    None => forall|b: usize| #[trigger]
                        n.edge_visits@.contains_key(b) ==> n.edge_visits@[b] == 0,
                },
                None => r is None,
            },
    {
        match self.get_node_arc(node_id) {
            Some(n) => n.select_action(),
            None => None,
        }
    }

    /// Records a child of the node of an id, if there is such a node.
    pub fn add_child(&mut self, parent_id: NodeId, action: usize, child_id: NodeId)
        ensures
            match old(self).node_of(parent_id) {
                Some(n) => {
                    &&& final(self).node_of(parent_id) is Some
                    &&& final(self).node_of(parent_id)->0.children@ == n.children@.insert(
                        action,
                        child_id,
                    )
                    &&& final(self).node_of(parent_id)->0 == (Node {
                        children: final(self).node_of(parent_id)->0.children,
                        ..n
                    })
                    &&& final(self).same_but(old(self), parent_id)
                },
                None => *final(self) == *old(self),
            },
    {
        broadcast use vstd::std_specs::hash::group_hash_axioms;

        match self.with_node_write(parent_id) {
            Some(parent) => {
                parent.children.insert(action, child_id);
            },
            None => {},
        }
    }
}

/// Whether any two scores can be compared.
pub open spec fn comparable<R: Scalar>(scores: Map<usize, R>) -> bool {
    forall|a: usize, b: usize|
        #![trigger scores[a], scores[b]]
        scores.contains_key(a) && scores.contains_key(b) ==> R::spec_less(scores[a], scores[b])
            || R::spec_less(scores[b], scores[a]) || R::spec_same(scores[a], scores[b])
}

/// The action that a scan in some order ends with: each one takes the place of the best so far,
/// unless its score is less.
pub open spec fn best_of<R: Scalar>(order: Seq<usize>, scores: Map<usize, R>) -> Option<usize>
    decreases order.len(),
{
    if order.len() == 0 {
        None
    } else {
        match best_of(order.drop_last(), scores) {
            Some(b) if R::spec_less(scores[order.last()], scores[b]) => Some(b),
            _ => Some(order.last()),
        }
    }
}

/// None of the first `k` actions of an order scores above the best of them.
proof fn lemma_best_of<R: Scalar>(order: Seq<usize>, scores: Map<usize, R>, k: nat)
    requires
        k <= order.len(),
        can_rank(order, |a: usize| scores[a]),
    ensures
        match best_of(order.take(k as int), scores) {
            Some(b) => order.contains(b) && forall|i: int|
                0 <= i < k ==> !R::spec_less(scores[b], scores[#[trigger] order[i]]),
            None => k == 0,
        },
    decreases k,
{
    let score = |a: usize| scores[a];
    if k > 0 {
        let first = order.take(k as int);
        let x = order[k - 1];
        assert(first.drop_last() =~= order.take(k - 1));
        assert(first.last() == x);
        assert(order.contains(x));
        lemma_best_of(order, scores, (k - 1) as nat);
        match best_of(order.take(k - 1), scores) {
            Some(b) => {
                assert(score(x) == scores[x] && score(b) == scores[b]);
                if !R::spec_less(scores[x], scores[b]) {
                    assert forall|i: int| 0 <= i < k implies !R::spec_less(
                        scores[x],
                        scores[#[trigger] order[i]],
                    ) by {
                        let z = order[i];
                        assert(order.contains(z) && score(z) == scores[z]);
                    }
                }
            },
            None => {
                assert(score(x) == scores[x]);
            },
        }
    }
}

/// Law: the action that is picked scores highest, in whatever order the actions are walked: no
/// other scores above it, where the scores can be compared.
pub proof fn law_shared_puct_takes_highest<R: Scalar>(
    order: Seq<usize>,
    scores: Map<usize, R>,
    other: usize,
)
    requires
        order.contains(other),
        can_rank(order, |a: usize| scores[a]),
    ensures
        match best_of(order, scores) {
            Some(b) => order.contains(b) && !R::spec_less(scores[b], scores[other]),
            None => false,
        },
{
    lemma_best_of(order, scores, order.len());
    assert(order.take(order.len() as int) =~= order);
    let i = order.index_of(other);
    assert(order[i] == other);
}

} // verus!
