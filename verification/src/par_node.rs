//! Nodes of the simulation engine, which breaks ties by chance.

use crate::chance::choose_index;
use crate::moves::peak;
use crate::scalar::{
    minus, one, over, plus, root, times, zero, Binary, Scalar, Unary,
};
use crate::walk::{lists, map_total, sum_small_counts, walk};
use std::collections::HashMap;
use vstd::prelude::*;

verus! {

/// Represents a search node. Children are known by their places among the nodes of the search.
pub struct Node<R> {
    pub priors: HashMap<i32, R>,
    pub value_estimate: R,
    pub node_visits: u32,
    pub children: HashMap<i32, usize>,
    pub edge_visits: HashMap<i32, u32>,
    pub virtual_losses: HashMap<i32, u32>,
    pub edge_penalties: HashMap<i32, R>,
    pub value: R,
    pub terminal_state: bool,
}

/// The same for every key of a map.
pub open spec fn everywhere<V, W>(m: Map<i32, V>, x: W) -> Map<i32, W> {
    Map::new(|a: i32| m.contains_key(a), |a: i32| x)
}

/// The count under a key, 0 where there is none.
pub open spec fn count_at(m: Map<i32, u32>, a: i32) -> u32 {
    if m.contains_key(a) {
        m[a]
    } else {
        0
    }
}

/// The number under a key, 0 where there is none.
pub open spec fn number_at<R: Scalar>(m: Map<i32, R>, a: i32) -> R {
    if m.contains_key(a) {
        m[a]
    } else {
        zero()
    }
}

/// The count under a key, 0 where there is none.
pub fn get_count(m: &HashMap<i32, u32>, a: i32) -> (r: u32)
    ensures
        r == count_at(m@, a),
{
    broadcast use vstd::std_specs::hash::group_hash_axioms;

    match m.get(&a) {
        Some(n) => *n,
        None => 0,
    }
}

/// The number under a key, 0 where there is none.
pub fn get_number<R: Scalar>(m: &HashMap<i32, R>, a: i32) -> (r: R)
    ensures
        r == number_at(m@, a),
{
    broadcast use vstd::std_specs::hash::group_hash_axioms;

    match m.get(&a) {
        Some(x) => x.dup(),
        None => R::decimal(0, 0),
    }
}

/// A count as a number.
fn small_count<R: Scalar>(n: u32) -> (r: R)
    ensures
        r == R::spec_count(n as usize),
{
    R::count(n as usize)
}

impl<R: Scalar> Node<R> {
    /// Visits and virtual losses of all edges.
    pub open spec fn load(self) -> nat {
        map_total(self.edge_visits@) + map_total(self.virtual_losses@)
    }

    /// A node with a prior, and nothing known of its actions yet.
    pub fn new(priors: HashMap<i32, R>, value: R) -> (r: Self)
        ensures
            r.priors == priors,
            r.value_estimate == value,
            r.node_visits == 0,
            r.children@ == Map::<i32, usize>::empty(),
            r.edge_visits@ == everywhere(priors@, 0u32),
            r.virtual_losses@ == everywhere(priors@, 0u32),
            r.edge_penalties@ == everywhere(priors@, zero::<R>()),
            r.value == value,
            !r.terminal_state,
    {
        broadcast use vstd::std_specs::hash::group_hash_axioms;

        let order: Vec<i32> = walk(&priors);
        let mut edge_visits: HashMap<i32, u32> = HashMap::new();
        let mut virtual_losses: HashMap<i32, u32> = HashMap::new();
        let mut edge_penalties: HashMap<i32, R> = HashMap::new();
        let mut i: usize = 0;
        while i < order.len()
            invariant
                i <= order@.len(),
                forall|a: i32|
                    edge_visits@.contains_key(a) <==> exists|j: int|
                        0 <= j < i && #[trigger] order@[j] == a,
                forall|a: i32| #[trigger] edge_visits@.contains_key(a) ==> edge_visits@[a] == 0,
                virtual_losses@ == edge_visits@,
                edge_penalties@ == everywhere(edge_visits@, zero::<R>()),
            decreases order.len() - i,
        {
            edge_visits.insert(order[i], 0);
            virtual_losses.insert(order[i], 0);
            edge_penalties.insert(order[i], R::decimal(0, 0));
            i += 1;
            assert(edge_penalties@ =~= everywhere(edge_visits@, zero::<R>()));
        }
        proof {
            assert forall|a: i32| edge_visits@.contains_key(a) == priors@.contains_key(a) by {
                assert(order@.contains(a) <==> priors@.dom().contains(a));
            }
            assert(edge_visits@ =~= everywhere(priors@, 0u32));
            assert(edge_penalties@ =~= everywhere(priors@, zero::<R>()));
        }
        let children: HashMap<i32, usize> = HashMap::new();
        assert(children@ =~= Map::<i32, usize>::empty());
        let value_estimate: R = value.dup();
        Node {
            priors,
            value_estimate,
            node_visits: 0,
            children,
            edge_visits,
            virtual_losses,
            edge_penalties,
            value,
            terminal_state: false,
        }
    }

    /// The values of the children, each times the visits of its edge, added up in an order of
    /// the actions.
    pub open spec fn weighted(self, child_values: Map<i32, R>, order: Seq<i32>) -> R
        decreases order.len(),
    {
        if order.len() == 0 {
            zero()
        } else {
            let before = self.weighted(child_values, order.drop_last());
            let n = count_at(self.edge_visits@, order.last());
            if n > 0 {
                plus(before, times(R::spec_count(n as usize), child_values[order.last()]))
            } else {
                before
            }
        }
    }

    /// Whether `m` is this node with its visits and value computed anew, adding up the children
    /// in some order.
    pub open spec fn is_recomputed(self, m: Self, child_values: Map<i32, R>) -> bool {
        let visits = (1 + self.load()) as u32;
        if self.load() == 0 || self.children@.dom() =~= Set::<i32>::empty() {
            m == (Node { node_visits: visits, value: self.value_estimate, ..self })
        } else {
            exists|order: Seq<i32>| #[trigger]
                lists(order, self.children@.dom()) && m == (Node {
                    node_visits: visits,
                    value: over(
                        plus(self.value_estimate, self.weighted(child_values, order)),
                        R::spec_count(visits as usize),
                    ),
                    ..self
                })
        }
    }

    /// Computes the visits and the value anew, from the values of the children. They are added
    /// up in the order in which their map is walked, which is not fixed.
    pub fn recompute_value(&mut self, child_values: &HashMap<i32, R>) -> (r: R)
        requires
            old(self).load() < u32::MAX,
            forall|a: i32| #[trigger]
                old(self).children@.contains_key(a) ==> child_values@.contains_key(a),
        ensures
            old(self).is_recomputed(*final(self), child_values@),
            r == final(self).value,
    {
        broadcast use vstd::std_specs::hash::group_hash_axioms;

        let load: u32 = sum_small_counts(&self.edge_visits) + sum_small_counts(
            &self.virtual_losses,
        );
        let order: Vec<i32> = walk(&self.children);
        if order.len() == 0 || load == 0 {
            proof {
                if order@.len() == 0 {
                    assert forall|a: i32| !self.children@.dom().contains(a) by {
                        assert(!order@.contains(a));
                    }
                }
            }
            self.node_visits = 1 + load;
            self.value = self.value_estimate.dup();
            return self.value.dup();
        }
        let mut acc: R = R::decimal(0, 0);
        let mut i: usize = 0;
        assert(order@.take(0).len() == 0);
        while i < order.len()
            invariant
                i <= order@.len(),
                *self == *old(self),
                lists(order@, self.children@.dom()),
                forall|a: i32| #[trigger]
                    self.children@.contains_key(a) ==> child_values@.contains_key(a),
                acc == self.weighted(child_values@, order@.take(i as int)),
            decreases order.len() - i,
        {
            let a: i32 = order[i];
            assert(order@.contains(order@[i as int]));
            assert(self.children@.contains_key(a));
            assert(order@.take(i + 1).drop_last() =~= order@.take(i as int));
            assert(order@.take(i + 1).last() == a);
            let n: u32 = get_count(&self.edge_visits, a);
            if n > 0 {
                if let Some(v) = child_values.get(&a) {
                    acc = R::binary(
                        Binary::Plus,
                        &acc,
                        &R::binary(Binary::Times, &small_count::<R>(n), v),
                    );
                }
            }
            i += 1;
        }
        assert(order@.take(i as int) =~= order@);
        assert(order@.contains(order@[0]));
        let sum: R = R::binary(Binary::Plus, &self.value_estimate, &acc);
        self.node_visits = 1 + load;
        self.value = R::binary(Binary::Over, &sum, &small_count::<R>(1 + load));
        self.value.dup()
    }

    /// The score of an action: the value of its child, or of the node where there is none, with
    /// the penalty, and its exploration bonus.
    pub open spec fn spec_score(self, a: i32, c_puct: R, child_values: Map<i32, R>) -> R {
        let sqrt_total = root(
            plus(R::spec_count(self.load() as usize), R::spec_decimal(1, -8)),
        );
        let visits = plus(
            R::spec_count(count_at(self.edge_visits@, a) as usize),
            R::spec_count(count_at(self.virtual_losses@, a) as usize),
        );
        let child = if child_values.contains_key(a) {
            child_values[a]
        } else {
            self.value
        };
        plus(
            plus(child, number_at(self.edge_penalties@, a)),
            times(times(c_puct, self.priors@[a]), over(sqrt_total, plus(one(), visits))),
        )
    }

    /// What [`Node::puct_scores`] gives.
    pub open spec fn spec_scores(self, c_puct: R, child_values: Map<i32, R>) -> Map<i32, R> {
        Map::new(
            |a: i32| self.priors@.contains_key(a),
            |a: i32| self.spec_score(a, c_puct, child_values),
        )
    }

    /// The scores of all actions, from the values of the children.
    pub fn puct_scores(&self, c_puct: &R, child_values: &HashMap<i32, R>) -> (r: HashMap<i32, R>)
        requires
            self.load() <= u32::MAX,
        ensures
            r@ == self.spec_scores(*c_puct, child_values@),
    {
        broadcast use vstd::std_specs::hash::group_hash_axioms;

        let load: u32 = sum_small_counts(&self.edge_visits) + sum_small_counts(
            &self.virtual_losses,
        );
        let sqrt_total: R = R::unary(
            Unary::Sqrt,
            &R::binary(Binary::Plus, &small_count::<R>(load), &R::decimal(1, -8)),
        );
        let order: Vec<i32> = walk(&self.priors);
        let mut scores: HashMap<i32, R> = HashMap::new();
        let mut i: usize = 0;
        while i < order.len()
            invariant
                i <= order@.len(),
                lists(order@, self.priors@.dom()),
                load == self.load(),
                sqrt_total == root(
                    plus(R::spec_count(load as usize), R::spec_decimal(1, -8)),
                ),
                forall|a: i32|
                    scores@.contains_key(a) <==> exists|j: int|
                        0 <= j < i && #[trigger] order@[j] == a,
                forall|a: i32| #[trigger]
                    scores@.contains_key(a) ==> scores@[a] == self.spec_score(
                        a,
                        *c_puct,
                        child_values@,
                    ),
            decreases order.len() - i,
        {
            let a: i32 = order[i];
            assert(order@.contains(order@[i as int]));
            assert(self.priors@.contains_key(a));
            let visits: R = R::binary(
                Binary::Plus,
                &small_count::<R>(get_count(&self.edge_visits, a)),
                &small_count::<R>(get_count(&self.virtual_losses, a)),
            );
            let child: R = match child_values.get(&a) {
                Some(v) => v.dup(),
                None => self.value.dup(),
            };
            let q: R = R::binary(Binary::Plus, &child, &get_number(&self.edge_penalties, a));
            let bonus: R = R::binary(
                Binary::Over,
                &sqrt_total,
                &R::binary(Binary::Plus, &R::decimal(1, 0), &visits),
            );
            let weight: R = R::binary(Binary::Times, c_puct, &get_number(&self.priors, a));
            let u: R = R::binary(Binary::Times, &weight, &bonus);
            scores.insert(a, R::binary(Binary::Plus, &q, &u));
            i += 1;
        }
        assert forall|a: i32| scores@.contains_key(a) == self.priors@.contains_key(a) by {
            assert(order@.contains(a) <==> self.priors@.dom().contains(a));
        }
        assert(scores@ =~= self.spec_scores(*c_puct, child_values@));
        scores
    }

    /// An action whose score is within 1e-8 of the best, chosen by chance; `None` where there is
    /// none. The best score is found in the order in which the scores are walked.
    pub fn select_action_puct(&self, child_values: &HashMap<i32, R>) -> (r: Option<i32>)
        requires
            self.load() <= u32::MAX,
        ensures
            is_pick(self.spec_scores(R::spec_decimal(11, -1), child_values@), r),
            r is Some ==> self.priors@.contains_key(r->0),
    {
        broadcast use vstd::std_specs::hash::group_hash_axioms;

        let scores: HashMap<i32, R> = self.puct_scores(&R::decimal(11, -1), child_values);
        let order: Vec<i32> = walk(&scores);
        let ghost listed = scores_in(scores@, order@);
        let mut top: R = R::infinity(false);
        let mut i: usize = 0;
        assert(listed.take(0).len() == 0);
        while i < order.len()
            invariant
                i <= order@.len(),
                lists(order@, scores@.dom()),
                listed == scores_in(scores@, order@),
                top == peak(listed.take(i as int)),
            decreases order.len() - i,
        {
            assert(order@.contains(order@[i as int]));
            assert(listed.take(i + 1).drop_last() =~= listed.take(i as int));
            let s: R = get_number(&scores, order[i]);
            assert(s == listed[i as int]);
            top = R::binary(Binary::Max, &top, &s);
            i += 1;
        }
        assert(listed.take(i as int) =~= listed);
        let mut best: Vec<i32> = Vec::new();
        let mut j: usize = 0;
        while j < order.len()
            invariant
                j <= order@.len(),
                lists(order@, scores@.dom()),
                top == peak(scores_in(scores@, order@)),
                forall|k: int|
                    0 <= k < best@.len() ==> is_near_best(scores@, order@, #[trigger] best@[k]),
                forall|k: int|
                    0 <= k < j && is_near_best(scores@, order@, #[trigger] order@[k])
                        ==> best@.contains(order@[k]),
            decreases order.len() - j,
        {
            let a: i32 = order[j];
            assert(order@.contains(order@[j as int]));
            let s: R = get_number(&scores, a);
            let gap: R = R::unary(Unary::Abs, &R::binary(Binary::Minus, &s, &top));
            let ghost before = best@;
            if R::less(&gap, &R::decimal(1, -8)) {
                best.push(a);
                assert(best@[before.len() as int] == a);
            }
            assert forall|k: int|
                0 <= k < j + 1 && is_near_best(scores@, order@, #[trigger] order@[k]) implies
                best@.contains(order@[k]) by {
                if k < j {
                    assert(before.contains(order@[k]));
                    let p = choose|p: int| 0 <= p < before.len() && before[p] == order@[k];
                    assert(best@[p] == order@[k]);
                }
            }
            j += 1;
        }
        let picked: Option<usize> = choose_index(best.len());
        let r: Option<i32> = match picked {
            Some(k) => Some(best[k]),
            None => None,
        };
        proof {
            assert(lists(order@, scores@.dom()));
            if r is None {
                assert forall|a: i32| !#[trigger] is_near_best(scores@, order@, a) by {
                    if is_near_best(scores@, order@, a) {
                        assert(order@.contains(a));
                        let k = choose|k: int| 0 <= k < order@.len() && order@[k] == a;
                        assert(best@.contains(order@[k]));
                    }
                }
            } else {
                assert(is_near_best(scores@, order@, r->0));
            }
        }
        r
    }

    /// An action with the most visits, chosen by chance. A node without children has none to
    /// choose from.
    pub fn select_action(&self) -> (r: i32)
        requires
            exists|a: i32| #[trigger] self.children@.contains_key(a),
            exists|a: i32| #[trigger] self.edge_visits@.contains_key(a),
        ensures
            self.edge_visits@.contains_key(r),
            forall|b: i32| #[trigger]
                self.edge_visits@.contains_key(b) ==> self.edge_visits@[b] <= self.edge_visits@[r],
    {
        broadcast use vstd::std_specs::hash::group_hash_axioms;

        let order: Vec<i32> = walk(&self.edge_visits);
        let mut top: u32 = 0;
        let mut i: usize = 0;
        let ghost mut at: i32 = arbitrary();
        while i < order.len()
            invariant
                i <= order@.len(),
                lists(order@, self.edge_visits@.dom()),
                forall|j: int| 0 <= j < i ==> self.edge_visits@[#[trigger] order@[j]] <= top,
                i == 0 ==> top == 0,
                i > 0 ==> self.edge_visits@.contains_key(at) && self.edge_visits@[at] == top,
            decreases order.len() - i,
        {
            let a: i32 = order[i];
            assert(order@.contains(order@[i as int]));
            let v: u32 = get_count(&self.edge_visits, a);
            if v >= top {
                top = v;
                proof {
                    at = a;
                }
            }
            i += 1;
        }
        let mut best: Vec<i32> = Vec::new();
        let mut j: usize = 0;
        while j < order.len()
            invariant
                j <= order@.len(),
                lists(order@, self.edge_visits@.dom()),
                forall|k: int|
                    0 <= k < best@.len() ==> self.edge_visits@.contains_key(#[trigger] best@[k])
                        && self.edge_visits@[best@[k]] == top,
                forall|k: int|
                    0 <= k < j && self.edge_visits@[#[trigger] order@[k]] == top ==> best@.len()
                        > 0,
            decreases order.len() - j,
        {
            let a: i32 = order[j];
            assert(order@.contains(order@[j as int]));
            if get_count(&self.edge_visits, a) == top {
                best.push(a);
            }
            j += 1;
        }
        proof {
            let a = choose|a: i32| #[trigger] self.edge_visits@.contains_key(a);
            assert(order@.contains(a));
            assert(order@.contains(at));
            let k = choose|k: int| 0 <= k < order@.len() && order@[k] == at;
            assert(self.edge_visits@[order@[k]] == top);
            assert forall|b: i32| #[trigger] self.edge_visits@.contains_key(b) implies
                self.edge_visits@[b] <= top by {
                assert(order@.contains(b));
                let m = choose|m: int| 0 <= m < order@.len() && order@[m] == b;
                assert(self.edge_visits@[order@[m]] <= top);
            }
        }
        match choose_index(best.len()) {
            Some(k) => best[k],
            None => best[0],
        }
    }

    /// Adds virtual losses to an action.
    pub fn add_virtual_loss(&mut self, action: i32, loss: u32)
        requires
            count_at(old(self).virtual_losses@, action) + loss <= u32::MAX,
        ensures
            final(self).virtual_losses@ == old(self).virtual_losses@.insert(
                action,
                (count_at(old(self).virtual_losses@, action) + loss) as u32,
            ),
            *final(self) == (Node { virtual_losses: final(self).virtual_losses, ..*old(self) }),
    {
        broadcast use vstd::std_specs::hash::group_hash_axioms;

        let n: u32 = get_count(&self.virtual_losses, action) + loss;
        self.virtual_losses.insert(action, n);
    }

    /// Takes virtual losses off an action, at most those that it has.
    pub fn revert_virtual_loss(&mut self, action: i32, loss: u32)
        ensures
            final(self).virtual_losses@ == old(self).virtual_losses@.insert(
                action,
                less_saturating(count_at(old(self).virtual_losses@, action), loss),
            ),
            *final(self) == (Node { virtual_losses: final(self).virtual_losses, ..*old(self) }),
    {
        broadcast use vstd::std_specs::hash::group_hash_axioms;

        let n: u32 = get_count(&self.virtual_losses, action);
        self.virtual_losses.insert(
            action,
            if n >= loss {
                n - loss
            } else {
                0
            },
        );
    }

    /// Adds a penalty to an action.
    pub fn apply_penalty(&mut self, action: i32, penalty: &R)
        ensures
            final(self).edge_penalties@ == old(self).edge_penalties@.insert(
                action,
                plus(number_at(old(self).edge_penalties@, action), *penalty),
            ),
            *final(self) == (Node { edge_penalties: final(self).edge_penalties, ..*old(self) }),
    {
        broadcast use vstd::std_specs::hash::group_hash_axioms;

        let p: R = get_number(&self.edge_penalties, action);
        self.edge_penalties.insert(action, R::binary(Binary::Plus, &p, penalty));
    }

    /// Takes a penalty off an action. What is next to 0 becomes 0.
    pub fn revert_penalty(&mut self, action: i32, penalty: &R)
        ensures
            ({
                let left = minus(number_at(old(self).edge_penalties@, action), *penalty);
                final(self).edge_penalties@ == old(self).edge_penalties@.insert(
                    action,
                    if R::spec_less(R::spec_unary(Unary::Abs, left), R::spec_decimal(1, -12)) {
                        zero()
                    } else {
                        left
                    },
                )
            }),
            *final(self) == (Node { edge_penalties: final(self).edge_penalties, ..*old(self) }),
    {
        broadcast use vstd::std_specs::hash::group_hash_axioms;

        let p: R = get_number(&self.edge_penalties, action);
        let left: R = R::binary(Binary::Minus, &p, penalty);
        let kept: R = if R::less(&R::unary(Unary::Abs, &left), &R::decimal(1, -12)) {
            R::decimal(0, 0)
        } else {
            left
        };
        self.edge_penalties.insert(action, kept);
    }
}

/// `n - m`, at least 0.
pub open spec fn less_saturating(n: u32, m: u32) -> u32 {
    if n >= m {
        (n - m) as u32
    } else {
        0
    }
}

/// The scores of some actions.
pub open spec fn scores_in<R: Scalar>(scores: Map<i32, R>, order: Seq<i32>) -> Seq<R> {
    Seq::new(order.len(), |i: int| scores[order[i]])
}

/// Whether the score of an action is within 1e-8 of the best, as found in some order.
pub open spec fn is_near_best<R: Scalar>(scores: Map<i32, R>, order: Seq<i32>, a: i32) -> bool {
    scores.contains_key(a) && R::spec_less(
        R::spec_unary(Unary::Abs, minus(scores[a], peak(scores_in(scores, order)))),
        R::spec_decimal(1, -8),
    )
}

/// Whether an action may be picked by its score: it is next to the best of the scores, as found
/// in some order; or nothing is.
pub open spec fn is_pick<R: Scalar>(scores: Map<i32, R>, r: Option<i32>) -> bool {
    exists|order: Seq<i32>| #[trigger]
        lists(order, scores.dom()) && is_pick_in(scores, order, r)
}

/// Whether an action may be picked by its score, where the best is found in some order.
pub open spec fn is_pick_in<R: Scalar>(
    scores: Map<i32, R>,
    order: Seq<i32>,
    r: Option<i32>,
) -> bool {
    if r is Some {
        is_near_best(scores, order, r->0)
    } else {
        forall|a: i32| !#[trigger] is_near_best(scores, order, a)
    }
}

/// Law: taking virtual losses back undoes adding them, for every action.
pub proof fn law_losses_revert(losses: Map<i32, u32>, action: i32, loss: u32, b: i32)
    requires
        count_at(losses, action) + loss <= u32::MAX,
    ensures
        ({
            let more = losses.insert(action, (count_at(losses, action) + loss) as u32);
            let less = more.insert(action, less_saturating(count_at(more, action), loss));
            count_at(less, b) == count_at(losses, b)
        }),
{
}

} // verus!
