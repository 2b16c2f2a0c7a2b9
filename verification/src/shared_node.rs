//! Nodes that keep what they know of their actions in hash maps.

use crate::node::NodeId;
use crate::scalar::{minus, one, plus, zero, Binary, Scalar};
use crate::walk::{copy_counts, lists, walk};
use std::collections::HashMap;
use vstd::prelude::*;

verus! {

/// A node of the shared search.
pub struct Node<R> {
    pub id: NodeId,
    pub prior_probs: HashMap<usize, R>,
    pub value_estimate: R,
    pub node_visits: usize,
    pub children: HashMap<usize, NodeId>,
    pub edge_visits: HashMap<usize, usize>,
    pub virtual_losses: HashMap<usize, usize>,
    pub edge_penalties: HashMap<usize, R>,
    pub value: R,
    pub terminal_state: bool,
    pub repr: Option<String>,
}

/// The same for every key of a map.
pub open spec fn everywhere<V, W>(m: Map<usize, V>, x: W) -> Map<usize, W> {
    Map::new(|a: usize| m.contains_key(a), |a: usize| x)
}

/// The count under a key, 0 where there is none.
pub open spec fn count_at(m: Map<usize, usize>, a: usize) -> usize {
    if m.contains_key(a) {
        m[a]
    } else {
        0
    }
}

/// The number under a key, 0 where there is none.
pub open spec fn number_at<R: Scalar>(m: Map<usize, R>, a: usize) -> R {
    if m.contains_key(a) {
        m[a]
    } else {
        zero()
    }
}

/// The count under a key, 0 where there is none.
pub fn get_count(m: &HashMap<usize, usize>, a: usize) -> (r: usize)
    ensures
        r == count_at(m@, a),
{
    broadcast use vstd::std_specs::hash::group_hash_axioms;

    match m.get(&a) {
        Some(n) => *n,
        None => 0,
    }
}

/// The number under a key, 0 where there is none.
pub fn get_number<R: Scalar>(m: &HashMap<usize, R>, a: usize) -> (r: R)
    ensures
        r == number_at(m@, a),
{
    broadcast use vstd::std_specs::hash::group_hash_axioms;

    match m.get(&a) {
        Some(x) => x.dup(),
        None => R::decimal(0, 0),
    }
}

/// Virtual losses with one more on an action. The count wraps around.
pub open spec fn loss_added(losses: Map<usize, usize>, action: usize) -> Map<usize, usize> {
    losses.insert(
        action,
        (if losses.contains_key(action) {
            losses[action].wrapping_add(1)
        } else {
            1
        }),
    )
}

/// Virtual losses with one less on an action that has a count of them. The count wraps around.
pub open spec fn loss_reverted(losses: Map<usize, usize>, action: usize) -> Map<usize, usize> {
    if losses.contains_key(action) {
        losses.insert(action, losses[action].wrapping_sub(1))
    } else {
        losses
    }
}

impl<R: Scalar> Node<R> {
    /// A node with a prior, and nothing known of its actions yet.
    pub fn new(prior_probs: HashMap<usize, R>, value: R, id: NodeId, repr: Option<String>) -> (r:
        Self)
        ensures
            r.id == id,
            r.prior_probs == prior_probs,
            r.value_estimate == value,
            r.node_visits == 0,
            r.children@ == Map::<usize, NodeId>::empty(),
            r.edge_visits@ == everywhere(prior_probs@, 0usize),
            r.virtual_losses@ == everywhere(prior_probs@, 0usize),
            r.edge_penalties@ == everywhere(prior_probs@, zero::<R>()),
            r.value == value,
            !r.terminal_state,
            r.repr == repr,
    {
        broadcast use vstd::std_specs::hash::group_hash_axioms;

        let order: Vec<usize> = walk(&prior_probs);
        let mut edge_visits: HashMap<usize, usize> = HashMap::new();
        let mut virtual_losses: HashMap<usize, usize> = HashMap::new();
        let mut edge_penalties: HashMap<usize, R> = HashMap::new();
        let mut i: usize = 0;
        while i < order.len()
            invariant
                i <= order@.len(),
                forall|a: usize|
                    edge_visits@.contains_key(a) <==> exists|j: int|
                        0 <= j < i && #[trigger] order@[j] == a,
                forall|a: usize| #[trigger]
                    edge_visits@.contains_key(a) ==> edge_visits@[a] == 0,
                virtual_losses@ == edge_visits@,
                edge_penalties@ == everywhere(edge_visits@, zero::<R>()),
            decreases order.len() - i,
        {
            edge_visits.insert(order[i], 0);
            virtual_losses.insert(order[i], 0);
            edge_penalties.insert(order[i], R::decimal(0, 0));
            i += 1;
            assert(edge_penalties@ =~= everywhere(edge_visits@, zero::<R>()));
        }
        proof {
            assert forall|a: usize| edge_visits@.contains_key(a) == prior_probs@.contains_key(a) by {
                assert(order@.contains(a) <==> prior_probs@.dom().contains(a));
            }
            assert(edge_visits@ =~= everywhere(prior_probs@, 0usize));
            assert(edge_penalties@ =~= everywhere(prior_probs@, zero::<R>()));
        }
        let children: HashMap<usize, NodeId> = HashMap::new();
        assert(children@ =~= Map::<usize, NodeId>::empty());
        let value_estimate: R = value.dup();
        Node {
            id,
            prior_probs,
            value_estimate,
            node_visits: 0,
            children,
            edge_visits,
            virtual_losses,
            edge_penalties,
            value,
            terminal_state: false,
            repr,
        }
    }

    /// A terminal node.
    pub fn new_terminal(id: NodeId, value: R, repr: Option<String>) -> (r: Self)
        ensures
            r.id == id,
            r.prior_probs@ == Map::<usize, R>::empty(),
            r.value_estimate == value,
            r.node_visits == 0,
            r.children@ == Map::<usize, NodeId>::empty(),
            r.edge_visits@ == Map::<usize, usize>::empty(),
            r.virtual_losses@ == Map::<usize, usize>::empty(),
            r.edge_penalties@ == Map::<usize, R>::empty(),
            r.value == value,
            r.terminal_state,
            r.repr == repr,
    {
        let value_estimate: R = value.dup();
        Node {
            id,
            prior_probs: HashMap::new(),
            value_estimate,
            node_visits: 0,
            children: HashMap::new(),
            edge_visits: HashMap::new(),
            virtual_losses: HashMap::new(),
            edge_penalties: HashMap::new(),
            value,
            terminal_state: true,
            repr,
        }
    }

    /// A copy of the virtual losses.
    pub fn virtual_loss_copy(&self) -> (r: HashMap<usize, usize>)
        ensures
            r@ == self.virtual_losses@,
    {
        copy_counts(&self.virtual_losses)
    }

    /// One more virtual loss on an action.
    pub fn add_virtual_loss(&mut self, action: usize)
        ensures
            final(self).virtual_losses@ == loss_added(old(self).virtual_losses@, action),
            *final(self) == (Node { virtual_losses: final(self).virtual_losses, ..*old(self) }),
    {
        broadcast use vstd::std_specs::hash::group_hash_axioms;

        let n: usize = match self.virtual_losses.get(&action) {
            Some(n) => n.wrapping_add(1),
            None => 1,
        };
        self.virtual_losses.insert(action, n);
    }

    /// One virtual loss less on an action that has a count of them.
    pub fn revert_virtual_loss(&mut self, action: usize)
        ensures
            final(self).virtual_losses@ == loss_reverted(old(self).virtual_losses@, action),
            *final(self) == (Node { virtual_losses: final(self).virtual_losses, ..*old(self) }),
    {
        broadcast use vstd::std_specs::hash::group_hash_axioms;

        let n: usize = match self.virtual_losses.get(&action) {
            Some(n) => n.wrapping_sub(1),
            None => {
                return ;
            },
        };
        self.virtual_losses.insert(action, n);
    }

    /// A penalty of 1 on an action.
    pub fn apply_penalty(&mut self, action: usize)
        ensures
            final(self).edge_penalties@ == old(self).edge_penalties@.insert(
                action,
                minus(number_at(old(self).edge_penalties@, action), one()),
            ),
            *final(self) == (Node { edge_penalties: final(self).edge_penalties, ..*old(self) }),
    {
        broadcast use vstd::std_specs::hash::group_hash_axioms;

        let p: R = get_number(&self.edge_penalties, action);
        self.edge_penalties.insert(action, R::binary(Binary::Minus, &p, &R::decimal(1, 0)));
    }

    /// Takes a penalty of 1 off an action that has one.
    pub fn revert_penalty(&mut self, action: usize)
        ensures
            final(self).edge_penalties@ == (if old(self).edge_penalties@.contains_key(action) {
                old(self).edge_penalties@.insert(
                    action,
                    plus(old(self).edge_penalties@[action], one()),
                )
            } else {
                old(self).edge_penalties@
            }),
            *final(self) == (Node { edge_penalties: final(self).edge_penalties, ..*old(self) }),
    {
        broadcast use vstd::std_specs::hash::group_hash_axioms;

        let p: R = match self.edge_penalties.get(&action) {
            Some(p) => R::binary(Binary::Plus, p, &R::decimal(1, 0)),
            None => {
                return ;
            },
        };
        self.edge_penalties.insert(action, p);
    }

    /// An action with the most visits; `None` where no action has any. Which one of several is
    /// not fixed.
    pub fn select_action(&self) -> (r: Option<usize>)
        ensures
            match r {
                Some(a) => self.edge_visits@.contains_key(a) && self.edge_visits@[a] > 0 && forall|
                    b: usize,
                | #[trigger]
                    self.edge_visits@.contains_key(b) ==> self.edge_visits@[b]
                        <= self.edge_visits@[a],
                None => forall|b: usize| #[trigger]
                    self.edge_visits@.contains_key(b) ==> self.edge_visits@[b] == 0,
            },
    {
        broadcast use vstd::std_specs::hash::group_hash_axioms;

        let order: Vec<usize> = walk(&self.edge_visits);
        let mut best: Option<usize> = None;
        let mut top: usize = 0;
        let mut i: usize = 0;
        while i < order.len()
            invariant
                i <= order@.len(),
                lists(order@, self.edge_visits@.dom()),
                match best {
                    Some(a) => self.edge_visits@.contains_key(a) && self.edge_visits@[a] == top
                        && top > 0,
                    None => top == 0,
                },
                forall|j: int| 0 <= j < i ==> self.edge_visits@[#[trigger] order@[j]] <= top,
            decreases order.len() - i,
        {
            let a: usize = order[i];
            assert(order@.contains(order@[i as int]));
            let v: usize = get_count(&self.edge_visits, a);
            if v > top {
                best = Some(a);
                top = v;
            }
            i += 1;
        }
        assert forall|b: usize| #[trigger] self.edge_visits@.contains_key(b) implies
            self.edge_visits@[b] <= top by {
            assert(order@.contains(b));
            let j = choose|j: int| 0 <= j < order@.len() && order@[j] == b;
            assert(self.edge_visits@[order@[j]] <= top);
        }
        best
    }
}

/// Law: taking a virtual loss back undoes adding it, on an action that has a count of them.
pub proof fn law_shared_loss_reverts(losses: Map<usize, usize>, action: usize)
    requires
        losses.contains_key(action),
    ensures
        loss_reverted(loss_added(losses, action), action) == losses,
{
    assert(loss_reverted(loss_added(losses, action), action) =~= losses);
}

} // verus!
