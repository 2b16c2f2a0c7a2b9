//! A node of the search graph.
//!
//! All per-edge data (priors, visits, virtual losses, penalties, children) is stored in
//! vectors of length `num_actions`, indexed by the action's slot. `valid_actions` is the list
//! that loops over edges walk, so slots of invalid actions are never read.

use crate::environment::{slots_ok, Act};
use crate::scalar::{dup_all, filled, one, over, plus, zero, Binary, Scalar};
use std::collections::HashMap;
use vstd::prelude::*;

verus! {

pub type NodeId = u64;

/// A single node in the search graph.
pub struct Node<A: Act, R: Scalar> {
    pub id: NodeId,
    pub num_actions: usize,
    pub valid_actions: Vec<A>,
    pub prior_probs: Vec<R>,
    pub value_estimate: R,
    pub node_visits: usize,
    pub children: Vec<Option<NodeId>>,
    pub edge_visits: Vec<usize>,
    pub virtual_losses: Vec<usize>,
    pub edge_penalties: Vec<R>,
    pub value: R,
    pub terminal_state: bool,
    pub repr: Option<String>,
}

/// What a node holds.
#[verifier::ext_equal]
pub struct NodeView<A, R> {
    pub id: NodeId,
    pub num_actions: usize,
    pub valid_actions: Seq<A>,
    pub prior_probs: Seq<R>,
    pub value_estimate: R,
    pub node_visits: usize,
    pub children: Seq<Option<NodeId>>,
    pub edge_visits: Seq<usize>,
    pub virtual_losses: Seq<usize>,
    pub edge_penalties: Seq<R>,
    pub value: R,
    pub terminal_state: bool,
    pub repr: Option<Seq<char>>,
}

impl<A: Act, R: Scalar> View for Node<A, R> {
    type V = NodeView<A, R>;

    open spec fn view(&self) -> NodeView<A, R> {
        NodeView {
            id: self.id,
            num_actions: self.num_actions,
            valid_actions: self.valid_actions@,
            prior_probs: self.prior_probs@,
            value_estimate: self.value_estimate,
            node_visits: self.node_visits,
            children: self.children@,
            edge_visits: self.edge_visits@,
            virtual_losses: self.virtual_losses@,
            edge_penalties: self.edge_penalties@,
            value: self.value,
            terminal_state: self.terminal_state,
            repr: match self.repr {
                Some(s) => Some(s@),
                None => None,
            },
        }
    }
}

/// The sum of a sequence of counts.
pub open spec fn total(s: Seq<usize>) -> nat
    decreases s.len(),
{
    if s.len() == 0 {
        0
    } else {
        total(s.drop_last()) + s.last() as nat
    }
}

/// Among the first `k` valid actions, the position of the first one with the most visits;
/// `None` where `k` is 0.
pub open spec fn most_visited<A: Act>(actions: Seq<A>, visits: Seq<usize>, k: nat) -> Option<int>
    decreases k,
{
    if k == 0 {
        None
    } else {
        match most_visited(actions, visits, (k - 1) as nat) {
            Some(b) if visits[actions[b].spec_index() as int] >= visits[actions[k
                - 1].spec_index() as int] => Some(b),
            _ => Some(k - 1),
        }
    }
}

impl<A: Act, R: Scalar> NodeView<A, R> {
    /// The dense storage is sized to the action space, and the valid actions have slots in it.
    pub open spec fn sized(self) -> bool {
        &&& self.prior_probs.len() == self.num_actions
        &&& self.children.len() == self.num_actions
        &&& self.edge_visits.len() == self.num_actions
        &&& self.virtual_losses.len() == self.num_actions
        &&& self.edge_penalties.len() == self.num_actions
        &&& forall|i: int|
            0 <= i < self.valid_actions.len() ==> (#[trigger] self.valid_actions[i]).spec_index()
                < self.num_actions
    }

    /// The node is sized, and the valid actions occur once each and have slots of their own.
    pub open spec fn wf(self) -> bool {
        &&& self.sized()
        &&& slots_ok(self.valid_actions, self.num_actions)
        &&& self.valid_actions.no_duplicates()
    }

    /// Whether a valid action has the slot `k`.
    pub open spec fn has_slot(self, k: int) -> bool {
        exists|i: int|
            0 <= i < self.valid_actions.len() && (#[trigger] self.valid_actions[i]).spec_index()
                == k
    }

    /// A slot of no valid action has no visits and no child.
    #[verifier::opaque]
    pub open spec fn tidy(self) -> bool {
        forall|k: int|
            #![trigger self.edge_visits[k]]
            #![trigger self.children[k]]
            0 <= k < self.num_actions && !self.has_slot(k) ==> self.edge_visits[k] == 0
                && self.children[k] is None
    }

    /// Visits and virtual losses of all edges together.
    pub open spec fn load(self) -> nat {
        total(self.edge_visits) + total(self.virtual_losses)
    }

    /// The node with one more virtual loss on `action`.
    pub open spec fn with_virtual_loss(self, action: A) -> Self {
        let i = action.spec_index() as int;
        if i < self.virtual_losses.len() {
            NodeView {
                virtual_losses: self.virtual_losses.update(
                    i,
                    (self.virtual_losses[i] + 1) as usize,
                ),
                ..self
            }
        } else {
            self
        }
    }

    /// The node with one virtual loss less on `action`, if it has one.
    pub open spec fn without_virtual_loss(self, action: A) -> Self {
        let i = action.spec_index() as int;
        if i < self.virtual_losses.len() && self.virtual_losses[i] > 0 {
            NodeView {
                virtual_losses: self.virtual_losses.update(
                    i,
                    (self.virtual_losses[i] - 1) as usize,
                ),
                ..self
            }
        } else {
            self
        }
    }

    /// The node with `-1 / n` added to the penalty of `action`, for `n` valid actions.
    pub open spec fn with_penalty(self, action: A) -> Self {
        let i = action.spec_index() as int;
        if i < self.edge_penalties.len() {
            NodeView {
                edge_penalties: self.edge_penalties.update(
                    i,
                    plus(
                        self.edge_penalties[i],
                        over(
                            R::spec_decimal(-1, 0),
                            R::spec_count(self.valid_actions.len() as usize),
                        ),
                    ),
                ),
                ..self
            }
        } else {
            self
        }
    }

    /// The node with 1 given back on the penalty of `action`, which stays at most 0.
    pub open spec fn without_penalty(self, action: A) -> Self {
        let i = action.spec_index() as int;
        if i < self.edge_penalties.len() {
            NodeView {
                edge_penalties: self.edge_penalties.update(
                    i,
                    R::spec_binary(Binary::Min, plus(self.edge_penalties[i], one()), zero()),
                ),
                ..self
            }
        } else {
            self
        }
    }

    /// The node with one more visit of `action`.
    pub open spec fn with_visit(self, action: A) -> Self {
        let i = action.spec_index() as int;
        if i < self.edge_visits.len() {
            NodeView {
                edge_visits: self.edge_visits.update(i, (self.edge_visits[i] + 1) as usize),
                ..self
            }
        } else {
            self
        }
    }

    /// The node with `child` recorded as what `action` leads to.
    pub open spec fn with_child(self, action: A, child: NodeId) -> Self {
        let i = action.spec_index() as int;
        if i < self.children.len() {
            NodeView { children: self.children.update(i, Some(child)), ..self }
        } else {
            self
        }
    }

    /// The child that `action` leads to, where it was expanded.
    pub open spec fn child(self, action: A) -> Option<NodeId> {
        let i = action.spec_index() as int;
        if i < self.children.len() {
            self.children[i]
        } else {
            None
        }
    }

    /// The valid action with the most visits, the first of them in the list on a tie; none
    /// where no valid action was visited.
    pub open spec fn spec_select_action(self) -> Option<A> {
        match most_visited(self.valid_actions, self.edge_visits, self.valid_actions.len()) {
            Some(b) if self.edge_visits[self.valid_actions[b].spec_index() as int] > 0 => Some(
                self.valid_actions[b],
            ),
            _ => None,
        }
    }
}

/// Whether `v` is what a node made of `priors` can look like: the valid actions are the keys
/// in some order, each slot holds the prior of an action with that slot and zero where there
/// is none, and nothing was visited yet.
pub open spec fn fresh_node<A: Act, R: Scalar>(
    v: NodeView<A, R>,
    num_actions: usize,
    priors: Map<A, R>,
    value: R,
    id: NodeId,
) -> bool {
    &&& v.id == id
    &&& v.num_actions == num_actions
    &&& v.valid_actions.no_duplicates()
    &&& v.valid_actions.to_set() == priors.dom()
    &&& v.prior_probs.len() == num_actions
    &&& forall|i: int|
        0 <= i < num_actions && (forall|a: A| #[trigger]
            priors.contains_key(a) ==> a.spec_index() != i) ==> #[trigger] v.prior_probs[i]
            == zero::<R>()
    &&& forall|i: int|
        0 <= i < num_actions && (exists|a: A| #[trigger]
            priors.contains_key(a) && a.spec_index() == i) ==> exists|a: A| #[trigger]
            priors.contains_key(a) && a.spec_index() == i && priors[a] == #[trigger] v.prior_probs[i]
    &&& v.value_estimate == value
    &&& v.node_visits == 0
    &&& v.children == Seq::new(num_actions as nat, |i: int| None::<NodeId>)
    &&& v.edge_visits == Seq::new(num_actions as nat, |i: int| 0usize)
    &&& v.virtual_losses == Seq::new(num_actions as nat, |i: int| 0usize)
    &&& v.edge_penalties == Seq::new(num_actions as nat, |i: int| zero::<R>())
    &&& v.value == value
    &&& v.terminal_state == false
}

/// Whether `v` is a node for a finished game.
pub open spec fn terminal_node<A: Act, R: Scalar>(v: NodeView<A, R>, id: NodeId, value: R) -> bool {
    &&& v.id == id
    &&& v.num_actions == 0
    &&& v.valid_actions == Seq::<A>::empty()
    &&& v.prior_probs == Seq::<R>::empty()
    &&& v.value_estimate == value
    &&& v.node_visits == 0
    &&& v.children == Seq::<Option<NodeId>>::empty()
    &&& v.edge_visits == Seq::<usize>::empty()
    &&& v.virtual_losses == Seq::<usize>::empty()
    &&& v.edge_penalties == Seq::<R>::empty()
    &&& v.value == value
    &&& v.terminal_state == true
}

/// Restates over the keys of a map what is known over a list of the keys.
proof fn lemma_fresh_priors<A: Act, R: Scalar>(
    actions: Seq<A>,
    probs: Seq<R>,
    num_actions: usize,
    m: Map<A, R>,
    zero: R,
)
    requires
        actions.to_set() == m.dom(),
        probs.len() == num_actions,
        forall|i: int|
            0 <= i < num_actions && (forall|j: int|
                0 <= j < actions.len() ==> (#[trigger] actions[j]).spec_index() != i)
                ==> #[trigger] probs[i] == zero,
        forall|i: int|
            0 <= i < num_actions && (exists|j: int|
                0 <= j < actions.len() && (#[trigger] actions[j]).spec_index() == i)
                ==> exists|j: int|
                0 <= j < actions.len() && (#[trigger] actions[j]).spec_index() == i
                    && m[actions[j]] == #[trigger] probs[i],
    ensures
        forall|i: int|
            0 <= i < num_actions && (forall|a: A| #[trigger]
                m.contains_key(a) ==> a.spec_index() != i) ==> #[trigger] probs[i] == zero,
        forall|i: int|
            0 <= i < num_actions && (exists|a: A| #[trigger]
                m.contains_key(a) && a.spec_index() == i) ==> exists|a: A| #[trigger]
                m.contains_key(a) && a.spec_index() == i && m[a] == #[trigger] probs[i],
{
    assert forall|j: int| 0 <= j < actions.len() implies m.contains_key(#[trigger] actions[j]) by {
        assert(actions.to_set().contains(actions[j]));
    }
    assert forall|i: int|
        0 <= i < num_actions && (exists|a: A| #[trigger]
            m.contains_key(a) && a.spec_index() == i) implies exists|a: A| #[trigger]
        m.contains_key(a) && a.spec_index() == i && m[a] == #[trigger] probs[i] by {
        let a = choose|a: A| #[trigger] m.contains_key(a) && a.spec_index() == i;
        assert(actions.to_set().contains(a));
        let j = actions.index_of(a);
        assert(actions[j].spec_index() == i);
        let k = choose|k: int|
            0 <= k < actions.len() && (#[trigger] actions[k]).spec_index() == i && m[actions[k]]
                == probs[i];
        assert(m.contains_key(actions[k]));
    }
}

impl<A: Act, R: Scalar> Node<A, R> {
    /// A node that was not visited yet, with one edge for each action of the prior map.
    pub fn new(
        num_actions: usize,
        prior_probs_map: HashMap<A, R>,
        value: R,
        id: NodeId,
        repr: Option<String>,
    ) -> (r: Self)
        requires
            forall|a: A| #[trigger]
                prior_probs_map@.contains_key(a) ==> a.spec_index() < num_actions,
        ensures
            fresh_node(r@, num_actions, prior_probs_map@, value, id),
            r.repr == repr,
    {
        broadcast use vstd::std_specs::hash::group_hash_axioms;

        proof {
            A::key_model();
        }
        let zero: R = R::decimal(0, 0);
        let mut prior_probs: Vec<R> = filled(&zero, num_actions);
        let mut valid_actions: Vec<A> = Vec::with_capacity(prior_probs_map.len());
        let ghost m = prior_probs_map@;

        for entry in it: prior_probs_map.iter()
            invariant
                m == prior_probs_map@,
                prior_probs@.len() == num_actions,
                valid_actions@.len() == it.index(),
                it.seq().len() == m.dom().len(),
                it.seq().no_duplicates(),
                forall|i: int|
                    #![trigger it.seq()[i]]
                    0 <= i < it.seq().len() ==> m.contains_key(*it.seq()[i].0) && m[*it.seq()[i].0]
                        == *it.seq()[i].1,
                forall|k: A| #[trigger] m.contains_key(k) ==> it.seq().contains((&k, &m[k])),
                forall|k: A| #[trigger]
                    m.contains_key(k) ==> valid_actions@.contains(k) || exists|j: int|
                        it.index() <= j < it.seq().len() && *(#[trigger] it.seq()[j]).0 == k,
                forall|i: int|
                    0 <= i < valid_actions@.len() ==> #[trigger] valid_actions@[i] == *it.seq()[i].0,
                forall|a: A| #[trigger] m.contains_key(a) ==> a.spec_index() < num_actions,
                forall|i: int|
                    0 <= i < num_actions && (forall|j: int|
                        0 <= j < valid_actions@.len() ==> (
                        #[trigger] valid_actions@[j]).spec_index() != i) ==> #[trigger] prior_probs@[i]
                        == zero,
                forall|i: int|
                    0 <= i < num_actions && (exists|j: int|
                        0 <= j < valid_actions@.len() && (
                        #[trigger] valid_actions@[j]).spec_index() == i) ==> exists|j: int|
                        0 <= j < valid_actions@.len() && (
                        #[trigger] valid_actions@[j]).spec_index() == i && m[valid_actions@[j]]
                            == #[trigger] prior_probs@[i],
        {
            let action = entry.0;
            let idx: usize = action.to_action_index();
            let ghost before = valid_actions@;
            let ghost before_probs = prior_probs@;
            assert(m.contains_key(*it.seq()[it.index() as int].0));
            prior_probs[idx] = entry.1.dup();
            valid_actions.push(*action);
            proof {
                assert(valid_actions@[before.len() as int] == *action);
                assert forall|k: A| #[trigger] m.contains_key(k) implies valid_actions@.contains(k)
                    || exists|j: int|
                    it.index() + 1 <= j < it.seq().len() && *(#[trigger] it.seq()[j]).0 == k by {
                    if before.contains(k) {
                        assert(valid_actions@[before.index_of(k)] == k);
                    }
                }
                assert forall|i: int|
                    0 <= i < num_actions && (forall|j: int|
                        0 <= j < valid_actions@.len() ==> (
                        #[trigger] valid_actions@[j]).spec_index() != i) implies
                    #[trigger] prior_probs@[i] == zero by {
                    assert(valid_actions@[before.len() as int].spec_index() != i);
                    assert forall|j: int| 0 <= j < before.len() implies (
                    #[trigger] before[j]).spec_index() != i by {
                        assert(valid_actions@[j] == before[j]);
                    }
                    assert(before_probs[i] == zero);
                }
                assert forall|i: int|
                    0 <= i < num_actions && (exists|j: int|
                        0 <= j < valid_actions@.len() && (
                        #[trigger] valid_actions@[j]).spec_index() == i) implies exists|j: int|
                    0 <= j < valid_actions@.len() && (#[trigger] valid_actions@[j]).spec_index()
                        == i && m[valid_actions@[j]] == #[trigger] prior_probs@[i] by {
                    if i == idx {
                        let j = before.len() as int;
                        assert(valid_actions@[j].spec_index() == i && m[valid_actions@[j]]
                            == prior_probs@[i]);
                    } else {
                        let j = choose|j: int|
                            0 <= j < valid_actions@.len() && (
                            #[trigger] valid_actions@[j]).spec_index() == i;
                        assert(j < before.len());
                        assert(before[j] == valid_actions@[j]);
                        assert(before_probs[i] == prior_probs@[i]);
                        let k = choose|k: int|
                            0 <= k < before.len() && (#[trigger] before[k]).spec_index() == i
                                && m[before[k]] == before_probs[i];
                        assert(valid_actions@[k] == before[k]);
                    }
                }
            }
        }
        proof {
            assert(valid_actions@.no_duplicates());
            assert(valid_actions@.to_set() =~= m.dom()) by {
                assert forall|a: A| #[trigger] m.dom().contains(a) implies valid_actions@.contains(
                    a,
                ) by {
                    assert(m.contains_key(a));
                }
            }
            lemma_fresh_priors(valid_actions@, prior_probs@, num_actions, m, zero);
        }
        let mut children: Vec<Option<NodeId>> = Vec::with_capacity(num_actions);
        let mut i: usize = 0;
        while i < num_actions
            invariant
                i <= num_actions,
                children@ == Seq::new(i as nat, |j: int| None::<NodeId>),
            decreases num_actions - i,
        {
            children.push(None);
            i += 1;
            assert(children@ =~= Seq::new(i as nat, |j: int| None::<NodeId>));
        }
        let edge_visits: Vec<usize> = vec![0usize; num_actions];
        let virtual_losses: Vec<usize> = vec![0usize; num_actions];
        let edge_penalties: Vec<R> = filled(&zero, num_actions);
        assert(edge_visits@ =~= Seq::new(num_actions as nat, |i: int| 0usize));
        assert(virtual_losses@ =~= Seq::new(num_actions as nat, |i: int| 0usize));
        Node {
            id,
            num_actions,
            valid_actions,
            prior_probs,
            value_estimate: value.dup(),
            node_visits: 0,
            children,
            edge_visits,
            virtual_losses,
            edge_penalties,
            value,
            terminal_state: false,
            repr,
        }
    }

    /// A node for a finished game: no edges, and the value is what it is.
    pub fn new_terminal(id: NodeId, value: R, repr: Option<String>) -> (r: Self)
        ensures
            terminal_node(r@, id, value),
            r.repr == repr,
    {
        Node {
            id,
            num_actions: 0,
            valid_actions: Vec::new(),
            prior_probs: Vec::new(),
            value_estimate: value.dup(),
            node_visits: 0,
            children: Vec::new(),
            edge_visits: Vec::new(),
            virtual_losses: Vec::new(),
            edge_penalties: Vec::new(),
            value,
            terminal_state: true,
            repr,
        }
    }

    /// Counts a playout that is under way through `action`.
    pub fn add_virtual_loss(&mut self, action: A)
        requires
            action.spec_index() < old(self).virtual_losses@.len() ==> old(
                self,
            ).virtual_losses@[action.spec_index() as int] < usize::MAX,
        ensures
            final(self)@ == old(self)@.with_virtual_loss(action),
    {
        let idx: usize = action.to_action_index();
        if idx < self.virtual_losses.len() {
            let n: usize = self.virtual_losses[idx];
            self.virtual_losses[idx] = n + 1;
        }
    }

    /// Takes back one virtual loss of `action`; a count of 0 stays.
    pub fn revert_virtual_loss(&mut self, action: A)
        ensures
            final(self)@ == old(self)@.without_virtual_loss(action),
    {
        let idx: usize = action.to_action_index();
        if idx < self.virtual_losses.len() {
            let n: usize = self.virtual_losses[idx];
            self.virtual_losses[idx] = n.saturating_sub(1);
            assert(self@ =~= old(self)@.without_virtual_loss(action));
        }
    }

    /// Makes `action` less attractive, by an amount scaled by the number of valid actions.
    pub fn apply_penalty(&mut self, action: A)
        ensures
            final(self)@ == old(self)@.with_penalty(action),
    {
        let n: R = R::count(self.valid_actions.len());
        let penalty_amount: R = R::binary(Binary::Over, &R::decimal(-1, 0), &n);
        let idx: usize = action.to_action_index();
        if idx < self.edge_penalties.len() {
            let p: R = R::binary(Binary::Plus, &self.edge_penalties[idx], &penalty_amount);
            self.edge_penalties[idx] = p;
        }
    }

    /// Gives 1 back on the penalty of `action`, which never becomes positive.
    pub fn revert_penalty(&mut self, action: A)
        ensures
            final(self)@ == old(self)@.without_penalty(action),
    {
        let idx: usize = action.to_action_index();
        if idx < self.edge_penalties.len() {
            let p: R = R::binary(Binary::Plus, &self.edge_penalties[idx], &R::decimal(1, 0));
            self.edge_penalties[idx] = R::binary(Binary::Min, &p, &R::decimal(0, 0));
        }
    }

    /// The most visited valid action, the first in the list on a tie; none where no valid
    /// action was visited.
    pub fn select_action(&self) -> (r: Option<A>)
        requires
            forall|i: int|
                0 <= i < self.valid_actions@.len() ==> (
                #[trigger] self.valid_actions@[i]).spec_index() < self.edge_visits@.len(),
        ensures
            r == self@.spec_select_action(),
    {
        let mut best: Option<(A, usize)> = None;
        let mut i: usize = 0;
        while i < self.valid_actions.len()
            invariant
                i <= self.valid_actions@.len(),
                forall|i: int|
                    0 <= i < self.valid_actions@.len() ==> (
                    #[trigger] self.valid_actions@[i]).spec_index() < self.edge_visits@.len(),
                match most_visited(self.valid_actions@, self.edge_visits@, i as nat) {
                    Some(b) => 0 <= b < i && ({
                        let v = self.edge_visits@[self.valid_actions@[b].spec_index() as int];
                        best == (if v > 0 {
                            Some((self.valid_actions@[b], v))
                        } else {
                            None
                        })
                    }),
                    None => i == 0 && best is None,
                },
            decreases self.valid_actions.len() - i,
        {
            let a: A = self.valid_actions[i];
            let v: usize = self.edge_visits[a.to_action_index()];
            if v > 0 {
                best = match best {
                    Some((b, bv)) => if bv >= v {
                        Some((b, bv))
                    } else {
                        Some((a, v))
                    },
                    None => Some((a, v)),
                };
            }
            i += 1;
        }
        match best {
            Some((a, _)) => Some(a),
            None => None,
        }
    }
}

impl<A: Act, R: Scalar> Clone for Node<A, R> {
    /// A node that holds the same.
    fn clone(&self) -> (r: Self)
        ensures
            r@ == self@,
    {
        let mut valid_actions: Vec<A> = Vec::with_capacity(self.valid_actions.len());
        let mut i: usize = 0;
        while i < self.valid_actions.len()
            invariant
                i <= self.valid_actions@.len(),
                valid_actions@ == self.valid_actions@.take(i as int),
            decreases self.valid_actions.len() - i,
        {
            valid_actions.push(self.valid_actions[i]);
            i += 1;
            assert(valid_actions@ =~= self.valid_actions@.take(i as int));
        }
        assert(valid_actions@ =~= self.valid_actions@);
        let mut children: Vec<Option<NodeId>> = Vec::with_capacity(self.children.len());
        let mut j: usize = 0;
        while j < self.children.len()
            invariant
                j <= self.children@.len(),
                children@ == self.children@.take(j as int),
            decreases self.children.len() - j,
        {
            children.push(self.children[j]);
            j += 1;
            assert(children@ =~= self.children@.take(j as int));
        }
        assert(children@ =~= self.children@);
        let edge_visits: Vec<usize> = self.edge_visits.clone();
        let virtual_losses: Vec<usize> = self.virtual_losses.clone();
        assert(edge_visits@ =~= self.edge_visits@);
        assert(virtual_losses@ =~= self.virtual_losses@);
        let repr: Option<String> = match &self.repr {
            Some(s) => Some(s.clone()),
            None => None,
        };
        Node {
            id: self.id,
            num_actions: self.num_actions,
            valid_actions,
            prior_probs: dup_all(&self.prior_probs),
            value_estimate: self.value_estimate.dup(),
            node_visits: self.node_visits,
            children,
            edge_visits,
            virtual_losses,
            edge_penalties: dup_all(&self.edge_penalties),
            value: self.value.dup(),
            terminal_state: self.terminal_state,
            repr,
        }
    }
}

/// Replacing one count moves the sum by the difference.
pub proof fn lemma_total_update(s: Seq<usize>, i: int, x: usize)
    requires
        0 <= i < s.len(),
    ensures
        total(s.update(i, x)) == total(s) - s[i] + x,
    decreases s.len(),
{
    let t = s.update(i, x);
    if i == s.len() - 1 {
        assert(t.drop_last() =~= s.drop_last());
    } else {
        assert(t.drop_last() =~= s.drop_last().update(i, x));
        lemma_total_update(s.drop_last(), i, x);
    }
}

/// No count is above the sum.
pub proof fn lemma_total_bounds(s: Seq<usize>, i: int)
    requires
        0 <= i < s.len(),
    ensures
        s[i] <= total(s),
    decreases s.len(),
{
    if i < s.len() - 1 {
        lemma_total_bounds(s.drop_last(), i);
    }
}

/// Counts that are all 0 sum to 0.
pub proof fn lemma_total_zeros(s: Seq<usize>)
    requires
        forall|i: int| 0 <= i < s.len() ==> s[i] == 0,
    ensures
        total(s) == 0,
    decreases s.len(),
{
    if s.len() > 0 {
        lemma_total_zeros(s.drop_last());
    }
}

/// The most visited position is one of the first `k`, no other has more visits, and none
/// before it has as many.
pub proof fn lemma_most_visited<A: Act>(actions: Seq<A>, visits: Seq<usize>, k: nat)
    requires
        0 < k <= actions.len(),
    ensures
        most_visited(actions, visits, k) matches Some(b) && 0 <= b < k && (forall|i: int|
            0 <= i < k ==> visits[(#[trigger] actions[i]).spec_index() as int]
                <= visits[actions[b].spec_index() as int]) && (forall|i: int|
            0 <= i < b ==> visits[(#[trigger] actions[i]).spec_index() as int]
                < visits[actions[b].spec_index() as int]),
    decreases k,
{
    if k > 1 {
        lemma_most_visited(actions, visits, (k - 1) as nat);
    } else {
        assert(most_visited(actions, visits, 0) is None);
    }
}

/// Law: a virtual loss that was added and reverted leaves the node as it was.
pub proof fn law_virtual_loss_reverts<A: Act, R: Scalar>(node: NodeView<A, R>, action: A)
    requires
        action.spec_index() < node.virtual_losses.len()
            ==> node.virtual_losses[action.spec_index() as int] < usize::MAX,
    ensures
        node.with_virtual_loss(action).without_virtual_loss(action) == node,
{
    assert(node.with_virtual_loss(action).without_virtual_loss(action) =~= node);
}

/// Law: the selected action is valid, was visited, and no valid action was visited more often;
/// none is selected exactly where no valid action was visited.
pub proof fn law_select_action<A: Act, R: Scalar>(node: NodeView<A, R>)
    ensures
        match node.spec_select_action() {
            Some(a) => node.valid_actions.contains(a) && node.edge_visits[a.spec_index() as int] > 0
                && forall|i: int|
                0 <= i < node.valid_actions.len() ==> node.edge_visits[(
                #[trigger] node.valid_actions[i]).spec_index() as int]
                    <= node.edge_visits[a.spec_index() as int],
            None => forall|i: int|
                0 <= i < node.valid_actions.len() ==> node.edge_visits[(
                #[trigger] node.valid_actions[i]).spec_index() as int] == 0,
        },
{
    if node.valid_actions.len() > 0 {
        lemma_most_visited(node.valid_actions, node.edge_visits, node.valid_actions.len());
    }
}

/// A fresh node is well formed where different actions have different slots, and carries no
/// load.
pub proof fn lemma_fresh_wf<A: Act, R: Scalar>(
    v: NodeView<A, R>,
    num_actions: usize,
    priors: Map<A, R>,
    value: R,
    id: NodeId,
)
    requires
        fresh_node(v, num_actions, priors, value, id),
        forall|a: A| #[trigger] priors.contains_key(a) ==> a.spec_index() < num_actions,
        forall|a: A, b: A| #[trigger]
            priors.contains_key(a) && #[trigger] priors.contains_key(b) && a.spec_index()
                == b.spec_index() ==> a == b,
    ensures
        v.wf(),
        v.load() == 0,
{
    assert forall|i: int| 0 <= i < v.valid_actions.len() implies priors.contains_key(
        #[trigger] v.valid_actions[i],
    ) by {
        assert(v.valid_actions.to_set().contains(v.valid_actions[i]));
    }
    lemma_total_zeros(v.edge_visits);
    lemma_total_zeros(v.virtual_losses);
}

} // verus!
