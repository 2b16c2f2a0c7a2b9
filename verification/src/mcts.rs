//! Monte Carlo tree search.
//!
//! Several improvements of KataGo are implemented here: first-play urgency, a softmax
//! temperature on the root prior, forced playouts and policy target pruning.
//! Wu, D.J. (2020). "Accelerating Self-Play Learning in Go." arXiv:1902.10565.

use crate::environment::{Act, Environment};
use crate::fxtable::{fx_contains, fx_get, fx_insert};
use crate::inference::{InferenceClient, InferenceError};
use crate::node::{fresh_node, terminal_node, total, Node, NodeId, NodeView};
use crate::scalar::{
    clamp, dup_all, filled, one, over, plus, spec_clamp, times, Binary, Scalar, Unary,
};
use crate::search::sound;
use crate::tree::{
    adjust, backed_visits, best_scored, change_slots, chosen_action, edge_score, edge_value,
    effective_priors, expanded_visits, explored_mass, first_play_value, fresh_tuning, mass,
    noise_of,
    normalized, prior_mass, recomputed, scores_of, spec_normalize_prior, weighted_values, Tree,
    Tuning,
};
use rustc_hash::FxHashMap;
use std::collections::HashMap;
use vstd::prelude::*;

verus! {

/// A search: the nodes found so far, the table that finds them, and the settings.
#[verifier::reject_recursive_types(E)]
#[verifier::reject_recursive_types(R)]
pub struct MCTS<E: Environment, R: Scalar> {
    /// The id of the current root of the search tree.
    pub root_id: Option<NodeId>,
    /// Where the node of an id stands in `nodes`.
    pub transposition_table: FxHashMap<NodeId, usize>,
    /// All nodes.
    pub nodes: Vec<Node<E::Act, R>>,
    /// The number of leaves that are evaluated together.
    pub batch_size: usize,
    /// First-play urgency reduction for non-root nodes: an edge without a child is valued at
    /// the node's value less `c_fpu` times the root of the explored prior mass. At the root it
    /// counts as 0.
    pub c_fpu: R,
    /// Softmax temperature on the prior at the root: priors are raised to `1 / T` and
    /// normalized. At 1 it does nothing.
    pub root_softmax_temp: R,
    /// Coefficient of the number of visits that a root edge is forced to have.
    pub k_forced: R,
    /// Noise blended into the root priors while scoring; cleared at the end of a run.
    pub root_noise: Option<HashMap<E::Act, R>>,
    /// The weight of the noise.
    pub root_noise_epsilon: R,
}

impl<E: Environment, R: Scalar> MCTS<E, R> {
    /// The noise registered for the root.
    pub open spec fn noise(&self) -> Option<Map<E::Act, R>> {
        match self.root_noise {
            Some(m) => Some(m@),
            None => None,
        }
    }

    /// The settings that the scores depend on.
    pub open spec fn tuning(&self) -> Tuning<E::Act, R> {
        Tuning {
            c_fpu: self.c_fpu,
            root_softmax_temp: self.root_softmax_temp,
            k_forced: self.k_forced,
            root_noise: self.noise(),
            root_noise_epsilon: self.root_noise_epsilon,
        }
    }

    /// The nodes by their ids.
    pub open spec fn tree(&self) -> Tree<E::Act, R> {
        Map::new(
            |id: NodeId|
                self.transposition_table@.contains_key(id) && self.transposition_table@[id]
                    < self.nodes@.len(),
            |id: NodeId| self.nodes@[self.transposition_table@[id] as int]@,
        )
    }

    /// The table has exactly the ids of the nodes, and finds the last node of each id.
    pub open spec fn table_ok(&self) -> bool {
        &&& forall|id: NodeId| #[trigger]
            self.transposition_table@.contains_key(id) ==> self.transposition_table@[id]
                < self.nodes@.len() && self.nodes@[self.transposition_table@[id] as int].id == id
        &&& forall|i: int|
            0 <= i < self.nodes@.len() ==> self.transposition_table@.contains_key(
                (#[trigger] self.nodes@[i]).id,
            ) && i <= self.transposition_table@[self.nodes@[i].id]
    }

    /// The table is consistent with the nodes, and every node is well formed.
    pub open spec fn wf(&self) -> bool {
        &&& self.table_ok()
        &&& forall|i: int| 0 <= i < self.nodes@.len() ==> (#[trigger] self.nodes@[i])@.wf()
    }

    /// Whether the root, the batch size and the scoring settings are those of `other`.
    pub open spec fn settings_of(&self, other: &Self) -> bool {
        &&& self.root_id == other.root_id
        &&& self.batch_size == other.batch_size
        &&& self.tuning() == other.tuning()
    }

    /// A search without nodes.
    pub fn new(batch_size: usize) -> (r: Self)
        ensures
            r.root_id is None,
            r.transposition_table@ == Map::<NodeId, usize>::empty(),
            r.nodes@.len() == 0,
            r.batch_size == batch_size,
            r.tuning() == fresh_tuning::<E::Act, R>(),
            r.c_fpu == R::spec_decimal(2, -1),
            r.root_softmax_temp == R::spec_decimal(103, -2),
            r.k_forced == R::spec_decimal(2, 0),
            r.root_noise is None,
            r.wf(),
            sound::<E, R>(r.tree()),
    {
        MCTS {
            root_id: None,
            transposition_table: FxHashMap::default(),
            nodes: Vec::new(),
            batch_size,
            c_fpu: R::decimal(2, -1),
            root_softmax_temp: R::decimal(103, -2),
            k_forced: R::decimal(2, 0),
            root_noise: None,
            root_noise_epsilon: R::decimal(0, 0),
        }
    }

    /// A search without nodes, with batches of 8 leaves.
    pub fn default() -> (r: Self)
        ensures
            r.root_id is None,
            r.transposition_table@ == Map::<NodeId, usize>::empty(),
            r.nodes@.len() == 0,
            r.batch_size == 8,
            r.tuning() == fresh_tuning::<E::Act, R>(),
            r.wf(),
    {
        Self::new(8)
    }

    /// Look up a node by its id.
    pub fn get_node_mut(&mut self, node_id: NodeId) -> (r: Option<&mut Node<E::Act, R>>)
        ensures
            match r {
                Some(node) => {
                    let i = old(self).transposition_table@[node_id] as int;
                    &&& old(self).tree().contains_key(node_id)
                    &&& *node == old(self).nodes@[i]
                    &&& final(self).nodes@ == old(self).nodes@.update(i, *final(node))
                    &&& final(self).transposition_table@ == old(self).transposition_table@
                    &&& final(self).settings_of(old(self))
                },
                None => !old(self).tree().contains_key(node_id) && *final(self) == *old(self),
            },
    {
        broadcast use vstd::std_specs::hash::group_hash_axioms;

        match fx_get(&self.transposition_table, &node_id) {
            Some(i) => if i < self.nodes.len() {
                Some(&mut self.nodes[i])
            } else {
                None
            },
            None => None,
        }
    }

    /// Look up a node by its id.
    pub fn get_node_immut(&self, node_id: NodeId) -> (r: Option<&Node<E::Act, R>>)
        ensures
            match r {
                Some(node) => self.tree().contains_key(node_id) && node@ == self.tree()[node_id]
                    && *node == self.nodes@[self.transposition_table@[node_id] as int],
                None => !self.tree().contains_key(node_id),
            },
    {
        broadcast use vstd::std_specs::hash::group_hash_axioms;

        match fx_get(&self.transposition_table, &node_id) {
            Some(i) => if i < self.nodes.len() {
                Some(&self.nodes[i])
            } else {
                None
            },
            None => None,
        }
    }

    /// Insert a new node into the transposition table and the node storage.
    pub fn insert_node(&mut self, node_id: NodeId, node: Node<E::Act, R>)
        ensures
            final(self).nodes@ == old(self).nodes@.push(node),
            final(self).transposition_table@ == old(self).transposition_table@.insert(
                node_id,
                old(self).nodes@.len() as usize,
            ),
            final(self).settings_of(old(self)),
            node.id == node_id && old(self).table_ok() ==> {
                &&& final(self).table_ok()
                &&& final(self).tree() == old(self).tree().insert(node_id, node@)
            },
            node.id == node_id && node@.wf() && old(self).wf() ==> final(self).wf(),
    {
        broadcast use vstd::std_specs::hash::group_hash_axioms;

        let index: usize = self.nodes.len();
        self.nodes.push(node);
        fx_insert(&mut self.transposition_table, node_id, index);
        proof {
            if node.id == node_id && old(self).table_ok() {
                assert(self.tree() =~= old(self).tree().insert(node_id, node@));
            }
        }
    }

    /// Whether a node with this id was found.
    pub fn node_exists(&self, node_id: NodeId) -> (r: bool)
        ensures
            r == self.transposition_table@.contains_key(node_id),
            self.table_ok() ==> r == self.tree().contains_key(node_id),
    {
        broadcast use vstd::std_specs::hash::group_hash_axioms;

        fx_contains(&self.transposition_table, &node_id)
    }

    /// The id of a state.
    pub fn get_hash(&self, env: &E) -> (r: NodeId)
        ensures
            r == env.spec_hash(),
    {
        env.hash()
    }

    /// Make a node for a state: a terminal one for a finished game, else one with an edge for
    /// each prior and the value cut to the range from -1 to 1.
    pub fn create_node(&mut self, env: &E, priors: HashMap<E::Act, R>, value: R) -> (r: NodeId)
        requires
            E::spec_done(env.spec_hash()) || forall|a: E::Act| #[trigger]
                priors@.contains_key(a) ==> a.spec_index() < E::spec_num_actions(env.spec_hash()),
        ensures
            r == env.spec_hash(),
            final(self).settings_of(old(self)),
            final(self).nodes@.len() == old(self).nodes@.len() + 1,
            final(self).nodes@.drop_last() == old(self).nodes@,
            new_node::<E, R>(final(self).nodes@.last()@, r, priors@, value),
            final(self).transposition_table@ == old(self).transposition_table@.insert(
                r,
                old(self).nodes@.len() as usize,
            ),
            old(self).table_ok() ==> {
                &&& final(self).table_ok()
                &&& final(self).tree() == old(self).tree().insert(r, final(self).nodes@.last()@)
            },
    {
        let node_id: NodeId = self.get_hash(env);
        let node: Node<E::Act, R> = if env.done() {
            Node::new_terminal(node_id, value, None)
        } else {
            let v: R = clamp(value, R::decimal(-1, 0), R::decimal(1, 0));
            Node::new(env.num_actions(), priors, v, node_id, None)
        };
        self.insert_node(node_id, node);
        assert(self.nodes@.drop_last() =~= old(self).nodes@);
        node_id
    }

    /// The priors cut down to `actions` and normalized to sum to 1; uniform where they sum
    /// to 0.
    pub fn normalize_prior(&self, priors: HashMap<E::Act, R>, actions: &[E::Act]) -> (r: HashMap<
        E::Act,
        R,
    >)
        ensures
            r@ == spec_normalize_prior(priors@, actions@),
    {
        broadcast use vstd::std_specs::hash::group_hash_axioms;

        proof {
            E::Act::key_model();
        }
        let mut normalized: HashMap<E::Act, R> = HashMap::new();
        let mut total: R = R::decimal(0, 0);
        let mut i: usize = 0;
        while i < actions.len()
            invariant
                i <= actions@.len(),
                total == prior_mass(priors@, actions@, i as nat),
                vstd::std_specs::hash::obeys_key_model::<E::Act>(),
            decreases actions.len() - i,
        {
            if let Some(p) = priors.get(&actions[i]) {
                total = R::binary(Binary::Plus, &total, p);
            }
            i += 1;
        }
        let mut j: usize = 0;
        if R::same(&total, &R::decimal(0, 0)) {
            let uniform: R = R::binary(Binary::Over, &R::decimal(1, 0), &R::count(actions.len()));
            while j < actions.len()
                invariant
                    j <= actions@.len(),
                    uniform == over(one(), R::spec_count(actions@.len() as usize)),
                    vstd::std_specs::hash::obeys_key_model::<E::Act>(),
                    forall|a: E::Act| #[trigger]
                        normalized@.contains_key(a) <==> actions@.take(j as int).contains(a),
                    forall|a: E::Act| #[trigger]
                        normalized@.contains_key(a) ==> normalized@[a] == uniform,
                decreases actions.len() - j,
            {
                normalized.insert(actions[j], uniform.dup());
                proof {
                    lemma_take_contains(actions@, j as int);
                }
                j += 1;
            }
            assert(actions@.take(j as int) =~= actions@);
            assert(normalized@ =~= spec_normalize_prior(priors@, actions@));
        } else {
            while j < actions.len()
                invariant
                    j <= actions@.len(),
                    vstd::std_specs::hash::obeys_key_model::<E::Act>(),
                    forall|a: E::Act| #[trigger]
                        normalized@.contains_key(a) <==> actions@.take(j as int).contains(a)
                            && priors@.contains_key(a),
                    forall|a: E::Act| #[trigger]
                        normalized@.contains_key(a) ==> normalized@[a] == over(priors@[a], total),
                decreases actions.len() - j,
            {
                if let Some(p) = priors.get(&actions[j]) {
                    normalized.insert(actions[j], R::binary(Binary::Over, p, &total));
                }
                proof {
                    lemma_take_contains(actions@, j as int);
                }
                j += 1;
            }
            assert(actions@.take(j as int) =~= actions@);
            assert(normalized@ =~= spec_normalize_prior(priors@, actions@));
        }
        normalized
    }

    /// Compute the visit count and the value of a node anew from its edges.
    pub fn recompute_value(&mut self, node_id: NodeId)
        requires
            old(self).table_ok(),
            old(self).tree().contains_key(node_id) ==> backed_visits(old(self).tree()[node_id])
                < usize::MAX,
        ensures
            final(self).settings_of(old(self)),
            final(self).transposition_table@ == old(self).transposition_table@,
            final(self).nodes@.len() == old(self).nodes@.len(),
            final(self).table_ok(),
            old(self).wf() ==> final(self).wf(),
            final(self).tree() == adjust(
                old(self).tree(),
                node_id,
                |n: NodeView<E::Act, R>| recomputed(old(self).tree(), n),
            ),
    {
        let ghost before = *self;
        let ghost t = self.tree();
        let mut visits: usize = 0;
        let mut acc: R = R::decimal(0, 0);
        let estimate: R;
        match self.get_node_immut(node_id) {
            None => {
                return ;
            },
            Some(parent) => {
                let ghost pv = parent@;
                estimate = parent.value_estimate.dup();
                let mut j: usize = 0;
                while j < parent.virtual_losses.len()
                    invariant
                        pv == parent@,
                        j <= pv.virtual_losses.len(),
                        visits == total(pv.virtual_losses.take(j as int)),
                        backed_visits(pv) < usize::MAX,
                    decreases parent.virtual_losses.len() - j,
                {
                    proof {
                        lemma_total_take(pv.virtual_losses, j as int);
                    }
                    visits += parent.virtual_losses[j];
                    j += 1;
                }
                assert(pv.virtual_losses.take(j as int) =~= pv.virtual_losses);
                let mut i: usize = 0;
                while i < parent.valid_actions.len()
                    invariant
                        t == self.tree(),
                        pv == parent@,
                        i <= pv.valid_actions.len(),
                        visits == total(pv.virtual_losses) + expanded_visits(pv, i as nat),
                        acc == weighted_values(t, pv, i as nat),
                        backed_visits(pv) < usize::MAX,
                    decreases parent.valid_actions.len() - i,
                {
                    let a: E::Act = parent.valid_actions[i];
                    let idx: usize = a.to_action_index();
                    proof {
                        lemma_expanded_mono(pv, (i + 1) as nat, pv.valid_actions.len());
                    }
                    if idx < parent.children.len() {
                        if let Some(child_id) = parent.children[idx] {
                            let ev: usize = if idx < parent.edge_visits.len() {
                                parent.edge_visits[idx]
                            } else {
                                0
                            };
                            visits += ev;
                            if ev != 0 {
                                if let Some(child) = self.get_node_immut(child_id) {
                                    let ep: R = if idx < parent.edge_penalties.len() {
                                        parent.edge_penalties[idx].dup()
                                    } else {
                                        R::decimal(0, 0)
                                    };
                                    let v: R = R::binary(Binary::Plus, &child.value, &ep);
                                    let w: R = R::binary(Binary::Times, &R::count(ev), &v);
                                    acc = R::binary(Binary::Plus, &acc, &w);
                                }
                            }
                        }
                    }
                    i += 1;
                }
            },
        }
        if let Some(node) = self.get_node_mut(node_id) {
            if visits == 0 {
                node.node_visits = 1;
                node.value = estimate;
            } else {
                node.node_visits = 1 + visits;
                node.value = R::binary(
                    Binary::Over,
                    &R::binary(Binary::Plus, &estimate, &acc),
                    &R::count(1 + visits),
                );
            }
        }
        proof {
            lemma_tree_update(&before, self, node_id);
            assert(self.tree()[node_id] =~= recomputed(t, t[node_id]));
            assert(self.tree() =~= adjust(t, node_id, |n: NodeView<E::Act, R>| recomputed(t, n)));
        }
    }

    /// Divides the slots of `actions` by their sum, where that is positive.
    fn normalize_slots(actions: &Vec<E::Act>, buf: &mut Vec<R>)
        requires
            forall|i: int|
                0 <= i < actions@.len() ==> (#[trigger] actions@[i]).spec_index() < old(buf)@.len(),
        ensures
            final(buf)@ == normalized(actions@, old(buf)@),
            final(buf)@.len() == old(buf)@.len(),
    {
        let ghost b0 = buf@;
        let mut sum: R = R::decimal(0, 0);
        let mut i: usize = 0;
        while i < actions.len()
            invariant
                i <= actions@.len(),
                buf@ == b0,
                forall|i: int|
                    0 <= i < actions@.len() ==> (#[trigger] actions@[i]).spec_index() < b0.len(),
                sum == mass(actions@, b0, i as nat),
            decreases actions.len() - i,
        {
            sum = R::binary(Binary::Plus, &sum, &buf[actions[i].to_action_index()]);
            i += 1;
        }
        if R::less(&R::decimal(0, 0), &sum) {
            let ghost f = |a: E::Act, x: R| over(x, sum);
            let mut j: usize = 0;
            while j < actions.len()
                invariant
                    j <= actions@.len(),
                    forall|i: int|
                        0 <= i < actions@.len() ==> (#[trigger] actions@[i]).spec_index() < b0.len(),
                    buf@ == change_slots(actions@, b0, f, j as nat),
                    buf@.len() == b0.len(),
                    f == (|a: E::Act, x: R| over(x, sum)),
                decreases actions.len() - j,
            {
                let idx: usize = actions[j].to_action_index();
                let x: R = R::binary(Binary::Over, &buf[idx], &sum);
                buf[idx] = x;
                j += 1;
            }
        }
    }

    /// The priors that the root is scored with, where they are not just those of the node.
    fn root_priors(&self, node: &Node<E::Act, R>) -> (r: Vec<R>)
        requires
            node@.sized(),
        ensures
            r@ == effective_priors(node@, self.tuning(), true),
            r@.len() == node.num_actions,
    {
        broadcast use vstd::std_specs::hash::group_hash_axioms;

        proof {
            E::Act::key_model();
        }
        let ghost nv = node@;
        let mut buf: Vec<R> = dup_all(&node.prior_probs);
        if let Some(noise) = &self.root_noise {
            let eps: &R = &self.root_noise_epsilon;
            let keep: R = R::binary(Binary::Minus, &R::decimal(1, 0), eps);
            let ghost f = |a: E::Act, x: R|
                crate::tree::blend(nv.prior_probs[a.spec_index() as int], noise_of(noise@, a), *eps);
            let mut i: usize = 0;
            while i < node.valid_actions.len()
                invariant
                    i <= nv.valid_actions.len(),
                    nv == node@,
                    nv.sized(),
                    vstd::std_specs::hash::obeys_key_model::<E::Act>(),
                    keep == crate::scalar::minus(one(), *eps),
                    f == (|a: E::Act, x: R|
                        crate::tree::blend(
                            nv.prior_probs[a.spec_index() as int],
                            noise_of(noise@, a),
                            *eps,
                        )),
                    buf@ == change_slots(nv.valid_actions, nv.prior_probs, f, i as nat),
                    buf@.len() == nv.num_actions,
                decreases node.valid_actions.len() - i,
            {
                let a: E::Act = node.valid_actions[i];
                let idx: usize = a.to_action_index();
                let n: R = match noise.get(&a) {
                    Some(x) => x.dup(),
                    None => R::decimal(0, 0),
                };
                let own: R = R::binary(Binary::Times, &keep, &node.prior_probs[idx]);
                buf[idx] = R::binary(Binary::Plus, &own, &R::binary(Binary::Times, eps, &n));
                i += 1;
            }
            Self::normalize_slots(&node.valid_actions, &mut buf);
        }
        let ghost noisy = buf@;
        if self.tempered() {
            let inv_temp: R = R::binary(Binary::Over, &R::decimal(1, 0), &self.root_softmax_temp);
            let ghost g = |a: E::Act, x: R|
                R::spec_binary(
                    Binary::Power,
                    R::spec_binary(Binary::Max, x, R::spec_decimal(1, -30)),
                    over(one(), self.root_softmax_temp),
                );
            let mut j: usize = 0;
            while j < node.valid_actions.len()
                invariant
                    j <= nv.valid_actions.len(),
                    nv == node@,
                    nv.sized(),
                    inv_temp == over(one(), self.root_softmax_temp),
                    g == (|a: E::Act, x: R|
                        R::spec_binary(
                            Binary::Power,
                            R::spec_binary(Binary::Max, x, R::spec_decimal(1, -30)),
                            over(one(), self.root_softmax_temp),
                        )),
                    buf@ == change_slots(nv.valid_actions, noisy, g, j as nat),
                    buf@.len() == nv.num_actions,
                decreases node.valid_actions.len() - j,
            {
                let idx: usize = node.valid_actions[j].to_action_index();
                let x: R = R::binary(Binary::Max, &buf[idx], &R::decimal(1, -30));
                buf[idx] = R::binary(Binary::Power, &x, &inv_temp);
                j += 1;
            }
            Self::normalize_slots(&node.valid_actions, &mut buf);
        }
        buf
    }

    /// Whether the root temperature is far enough from 1 to be applied.
    fn tempered(&self) -> (r: bool)
        ensures
            r == crate::tree::tempers(self.root_softmax_temp),
    {
        let d: R = R::binary(Binary::Minus, &self.root_softmax_temp, &R::decimal(1, 0));
        R::less(&R::decimal(1, -6), &R::unary(Unary::Abs, &d))
    }

    /// The value of an edge of `node`: that of its child, or `fpu` where the child is not in
    /// the tree, and the penalty.
    pub(crate) fn value_of_edge(&self, node: &Node<E::Act, R>, idx: usize, fpu: &R) -> (r: R)
        requires
            node@.sized(),
            idx < node.num_actions,
        ensures
            forall|a: E::Act|
                a.spec_index() == idx ==> r == #[trigger] edge_value(self.tree(), node@, a, *fpu),
    {
        let penalty: &R = &node.edge_penalties[idx];
        match node.children[idx] {
            Some(child_id) => match self.get_node_immut(child_id) {
                Some(c) => R::binary(Binary::Plus, &c.value, penalty),
                None => R::binary(Binary::Plus, fpu, penalty),
            },
            None => R::binary(Binary::Plus, fpu, penalty),
        }
    }

    /// The sum of the visits of all edges.
    pub(crate) fn total_visits(node: &Node<E::Act, R>) -> (r: usize)
        requires
            total(node.edge_visits@) <= usize::MAX,
        ensures
            r == total(node.edge_visits@),
    {
        let mut sum: usize = 0;
        let mut i: usize = 0;
        while i < node.edge_visits.len()
            invariant
                i <= node.edge_visits@.len(),
                sum == total(node.edge_visits@.take(i as int)),
                total(node.edge_visits@) <= usize::MAX,
            decreases node.edge_visits.len() - i,
        {
            proof {
                lemma_total_take(node.edge_visits@, i as int);
            }
            sum += node.edge_visits[i];
            i += 1;
        }
        assert(node.edge_visits@.take(i as int) =~= node.edge_visits@);
        sum
    }

    /// Compute PUCT scores for all actions from a given node, by slot.
    ///
    /// * An edge without a child in the tree is valued by first-play urgency: the node's value
    ///   less `c_fpu` times the root of the prior mass that was explored. At the root nothing
    ///   is taken off.
    /// * At the root the priors are blended with the registered noise and raised to `1 / T`.
    /// * At the root of a full search (`apply_forced`) an edge with fewer visits than
    ///   `sqrt(k_forced * prior * visits)` scores infinity.
    ///
    /// Slots without a valid action score minus infinity. A missing node has no scores.
    pub fn puct_scores(
        &self,
        node_id: NodeId,
        c_puct: R,
        is_root: bool,
        apply_forced: bool,
    ) -> (r: Vec<R>)
        requires
            self.tree().contains_key(node_id) ==> self.tree()[node_id].sized()
                && self.tree()[node_id].load() <= usize::MAX,
        ensures
            r@ == (if self.tree().contains_key(node_id) {
                scores_of(
                    self.tree(),
                    self.tree()[node_id],
                    self.tuning(),
                    c_puct,
                    is_root,
                    apply_forced,
                )
            } else {
                Seq::empty()
            }),
            self.tree().contains_key(node_id) ==> r@.len() == self.tree()[node_id].num_actions,
            forall|k: int|
                #![trigger self.tree()[node_id].valid_actions[k]]
                self.tree().contains_key(node_id) && self.tree()[node_id].wf() && !is_root && 0 <= k
                    < self.tree()[node_id].valid_actions.len() ==> {
                    let node = self.tree()[node_id];
                    let i = node.valid_actions[k].spec_index() as int;
                    node.children[i] is Some && self.tree().contains_key(node.children[i]->0) ==> r@[i]
                        == plus(
                        plus(self.tree()[node.children[i]->0].value, node.edge_penalties[i]),
                        times(
                            times(c_puct, node.prior_probs[i]),
                            over(
                                plus(
                                    R::spec_unary(
                                        Unary::Sqrt,
                                        R::spec_count(
                                            node.edge_visits.fold_left(
                                                0int,
                                                |sum: int, x: usize| sum + x,
                                            ) as usize,
                                        ),
                                    ),
                                    R::spec_decimal(1, -8),
                                ),
                                plus(
                                    R::spec_decimal(1, 0),
                                    R::spec_count(
                                        (node.edge_visits[i] + node.virtual_losses[i]) as usize,
                                    ),
                                ),
                            ),
                        ),
                    )
                },
    {
        proof {
            if self.tree().contains_key(node_id) && self.tree()[node_id].wf() {
                crate::puct_laws::lemma_expanded_scores(
                    self.tree(),
                    self.tree()[node_id],
                    self.tuning(),
                    c_puct,
                    apply_forced,
                );
            }
        }
        let node: &Node<E::Act, R> = match self.get_node_immut(node_id) {
            Some(n) => n,
            None => {
                return Vec::new();
            },
        };
        let ghost nv = node@;
        let ghost t = self.tree();
        let ghost tuning = self.tuning();
        let total_visits: usize = Self::total_visits(node);
        let sqrt_total: R = R::binary(
            Binary::Plus,
            &R::unary(Unary::Sqrt, &R::count(total_visits)),
            &R::decimal(1, -8),
        );
        let c_fpu_eff: R = if is_root {
            R::decimal(0, 0)
        } else {
            self.c_fpu.dup()
        };
        let mut p_explored: R = R::decimal(0, 0);
        let mut i: usize = 0;
        while i < node.valid_actions.len()
            invariant
                i <= nv.valid_actions.len(),
                nv == node@,
                nv.sized(),
                p_explored == explored_mass(nv, i as nat),
            decreases node.valid_actions.len() - i,
        {
            let idx: usize = node.valid_actions[i].to_action_index();
            if node.edge_visits[idx] > 0 {
                p_explored = R::binary(Binary::Plus, &p_explored, &node.prior_probs[idx]);
            }
            i += 1;
        }
        let fpu_q: R = R::binary(
            Binary::Minus,
            &node.value,
            &R::binary(Binary::Times, &c_fpu_eff, &R::unary(Unary::Sqrt, &p_explored)),
        );
        let priors: Vec<R> = if is_root {
            self.root_priors(node)
        } else {
            dup_all(&node.prior_probs)
        };
        let mut scores: Vec<R> = filled(&R::infinity(false), node.num_actions);
        let ghost base = scores@;
        let ghost f = |a: E::Act, x: R|
            edge_score(t, nv, tuning, c_puct, is_root, apply_forced, a);
        let mut j: usize = 0;
        while j < node.valid_actions.len()
            invariant
                j <= nv.valid_actions.len(),
                nv == node@,
                nv.sized(),
                nv.load() <= usize::MAX,
                t == self.tree(),
                tuning == self.tuning(),
                total_visits == total(nv.edge_visits),
                sqrt_total == plus(
                    crate::scalar::root(R::spec_count(total_visits)),
                    R::spec_decimal(1, -8),
                ),
                fpu_q == first_play_value(nv, tuning, is_root),
                priors@ == effective_priors(nv, tuning, is_root),
                priors@.len() == nv.num_actions,
                f == (|a: E::Act, x: R|
                    edge_score(t, nv, tuning, c_puct, is_root, apply_forced, a)),
                scores@ == change_slots(nv.valid_actions, base, f, j as nat),
                scores@.len() == nv.num_actions,
            decreases node.valid_actions.len() - j,
        {
            let idx: usize = node.valid_actions[j].to_action_index();
            let ev: usize = node.edge_visits[idx];
            proof {
                crate::node::lemma_total_bounds(nv.edge_visits, idx as int);
                crate::node::lemma_total_bounds(nv.virtual_losses, idx as int);
            }
            let adjusted_visits: usize = ev + node.virtual_losses[idx];
            let prior: &R = &priors[idx];
            let mut forced: bool = false;
            if is_root && apply_forced && total_visits > 0 {
                let kp: R = R::binary(Binary::Times, &self.k_forced, prior);
                let n_forced: R = R::unary(
                    Unary::Sqrt,
                    &R::binary(Binary::Times, &kp, &R::count(total_visits)),
                );
                forced = R::less(&R::count(ev), &n_forced);
            }
            if forced {
                scores[idx] = R::infinity(true);
            } else {
                let q_value: R = self.value_of_edge(node, idx, &fpu_q);
                let cp: R = R::binary(Binary::Times, &c_puct, prior);
                let shrink: R = R::binary(
                    Binary::Plus,
                    &R::decimal(1, 0),
                    &R::count(adjusted_visits),
                );
                let u_value: R = R::binary(
                    Binary::Times,
                    &cp,
                    &R::binary(Binary::Over, &sqrt_total, &shrink),
                );
                assert(q_value == edge_value(t, nv, nv.valid_actions[j as int], fpu_q));
                scores[idx] = R::binary(Binary::Plus, &q_value, &u_value);
            }
            j += 1;
        }
        scores
    }

    /// The action with the highest PUCT score at a node; of several that are not below each
    /// other, the last in the list of valid actions.
    pub fn select_action_puct(
        &self,
        node_id: NodeId,
        c_puct: R,
        is_root: bool,
        apply_forced: bool,
    ) -> (r: Option<E::Act>)
        requires
            self.tree().contains_key(node_id) ==> self.tree()[node_id].sized()
                && self.tree()[node_id].load() <= usize::MAX,
        ensures
            r == chosen_action(
                self.tree(),
                self.tuning(),
                node_id,
                c_puct,
                is_root,
                apply_forced,
            ),
    {
        let scores: Vec<R> = self.puct_scores(node_id, c_puct, is_root, apply_forced);
        let node: &Node<E::Act, R> = match self.get_node_immut(node_id) {
            Some(n) => n,
            None => {
                return None;
            },
        };
        let ghost nv = node@;
        let mut best: Option<usize> = None;
        let mut i: usize = 0;
        while i < node.valid_actions.len()
            invariant
                i <= node.valid_actions@.len(),
                nv == node@,
                nv.sized(),
                scores@.len() == node.num_actions,
                match best_scored(nv.valid_actions, scores@, i as nat) {
                    Some(b) => best == Some(b as usize) && 0 <= b < i,
                    None => best is None,
                },
            decreases node.valid_actions.len() - i,
        {
            let cur: &R = &scores[node.valid_actions[i].to_action_index()];
            let keep: bool = match best {
                Some(b) => R::less(cur, &scores[node.valid_actions[b].to_action_index()]),
                None => false,
            };
            if !keep {
                best = Some(i);
            }
            i += 1;
        }
        match best {
            Some(b) => Some(node.valid_actions[b]),
            None => None,
        }
    }

    /// The most visited action of a node.
    pub fn select_action(&self, node: &Node<E::Act, R>) -> (r: Option<E::Act>)
        requires
            forall|i: int|
                0 <= i < node.valid_actions@.len() ==> (
                #[trigger] node.valid_actions@[i]).spec_index() < node.edge_visits@.len(),
        ensures
            r == node@.spec_select_action(),
    {
        node.select_action()
    }

    /// Records where an action of a node leads; nothing happens where the node is missing or
    /// has no slot for the action.
    pub fn add_child(&mut self, parent_id: NodeId, action: E::Act, child_id: NodeId)
        requires
            old(self).table_ok(),
        ensures
            final(self).settings_of(old(self)),
            final(self).transposition_table@ == old(self).transposition_table@,
            final(self).table_ok(),
            old(self).wf() ==> final(self).wf(),
            final(self).tree() == adjust(
                old(self).tree(),
                parent_id,
                |n: NodeView<E::Act, R>| n.with_child(action, child_id),
            ),
    {
        let ghost before = *self;
        let idx: usize = action.to_action_index();
        let mut found: bool = false;
        if let Some(parent) = self.get_node_mut(parent_id) {
            found = true;
            if idx < parent.children.len() {
                parent.children[idx] = Some(child_id);
            }
        }
        proof {
            if found {
                lemma_tree_update(&before, self, parent_id);
                assert(self.tree()[parent_id] =~= before.tree()[parent_id].with_child(
                    action,
                    child_id,
                ));
            }
        }
    }

    /// Whether a state occurs on a path.
    pub fn check_state_repeat(&self, state_hash: NodeId, path: &[(NodeId, E::Act)]) -> (r: bool)
        ensures
            r == on_path(path@, state_hash),
    {
        let mut i: usize = 0;
        while i < path.len()
            invariant
                i <= path@.len(),
                forall|j: int| 0 <= j < i ==> (#[trigger] path@[j]).0 != state_hash,
            decreases path.len() - i,
        {
            if path[i].0 == state_hash {
                assert(path@[i as int].0 == state_hash);
                return true;
            }
            i += 1;
        }
        false
    }

    /// Registers a noise distribution to be blended into the root prior while the next run
    /// scores the root: `(1 - epsilon) * p + epsilon * noise`. The node's priors stay as they
    /// are.
    pub fn perturb_root_prior(&mut self, noise: &HashMap<E::Act, R>, epsilon: R)
        ensures
            final(self).noise() == Some(noise@),
            final(self).root_noise_epsilon == epsilon,
            final(self).root_id == old(self).root_id,
            final(self).batch_size == old(self).batch_size,
            final(self).c_fpu == old(self).c_fpu,
            final(self).root_softmax_temp == old(self).root_softmax_temp,
            final(self).k_forced == old(self).k_forced,
            final(self).nodes == old(self).nodes,
            final(self).transposition_table == old(self).transposition_table,
    {
        broadcast use vstd::std_specs::hash::group_hash_axioms;

        proof {
            E::Act::key_model();
        }
        self.root_noise = Some(copy_map(noise));
        self.root_noise_epsilon = epsilon;
    }

    /// Do inference on a batch of observations.
    pub fn blocking_infer<C: InferenceClient<E, R> + ?Sized>(
        &mut self,
        batch: &[E::Obs],
        client: &C,
    ) -> (r: Result<(Vec<HashMap<E::Act, R>>, Vec<R>), InferenceError>)
        requires
            client.admits(batch@),
        ensures
            *final(self) == *old(self),
            call_ensures(C::infer, (client, batch), r),
            client.answers_all() && r is Ok ==> r->Ok_0.0@.len() == batch@.len() && r->Ok_0.1@.len()
                == batch@.len(),
    {
        client.infer(batch)
    }
}

/// Whether a state is one of those that a path goes through.
pub open spec fn on_path<A>(path: Seq<(NodeId, A)>, id: NodeId) -> bool {
    exists|i: int| 0 <= i < path.len() && (#[trigger] path[i]).0 == id
}

/// A copy of a prior map.
pub(crate) fn copy_map<A: Act, R: Scalar>(m: &HashMap<A, R>) -> (r: HashMap<A, R>)
    ensures
        r@ == m@,
{
    broadcast use vstd::std_specs::hash::group_hash_axioms;

    proof {
        A::key_model();
    }
    let mut out: HashMap<A, R> = HashMap::new();
    for entry in it: m.iter()
        invariant
            vstd::std_specs::hash::obeys_key_model::<A>(),
            forall|i: int|
                #![trigger it.seq()[i]]
                0 <= i < it.seq().len() ==> m@.contains_key(*it.seq()[i].0) && m@[*it.seq()[i].0]
                    == *it.seq()[i].1,
            forall|a: A| #[trigger]
                m@.contains_key(a) ==> out@.contains_key(a) || exists|j: int|
                    it.index() <= j < it.seq().len() && *(#[trigger] it.seq()[j]).0 == a,
            forall|a: A| #[trigger]
                out@.contains_key(a) ==> m@.contains_key(a) && out@[a] == m@[a],
    {
        out.insert(*entry.0, entry.1.dup());
    }
    assert(out@ =~= m@);
    out
}

/// Whether `v` is the node made for the state `id`.
pub open spec fn new_node<E: Environment, R: Scalar>(
    v: NodeView<E::Act, R>,
    id: NodeId,
    priors: Map<E::Act, R>,
    value: R,
) -> bool {
    &&& v.repr is None
    &&& if E::spec_done(id) {
        terminal_node(v, id, value)
    } else {
        fresh_node(
            v,
            E::spec_num_actions(id),
            priors,
            spec_clamp(value, R::spec_decimal(-1, 0), R::spec_decimal(1, 0)),
            id,
        )
    }
}

/// Membership in a prefix that is one longer.
pub proof fn lemma_take_contains<A>(s: Seq<A>, k: int)
    requires
        0 <= k < s.len(),
    ensures
        forall|x: A| #[trigger]
            s.take(k + 1).contains(x) <==> s.take(k).contains(x) || x == s[k],
{
    let t = s.take(k + 1);
    assert(t =~= s.take(k).push(s[k]));
    assert forall|x: A| s.take(k).contains(x) || x == s[k] implies #[trigger] t.contains(x) by {
        if x == s[k] {
            assert(t[k] == x);
        } else {
            let i = s.take(k).index_of(x);
            assert(t[i] == x);
        }
    }
    assert forall|x: A| #[trigger] t.contains(x) implies s.take(k).contains(x) || x == s[k] by {
        let i = t.index_of(x);
        if i < k {
            assert(s.take(k)[i] == x);
        }
    }
}

/// The sum of a prefix that is one longer, and that it is not above the whole sum.
pub proof fn lemma_total_take(s: Seq<usize>, k: int)
    requires
        0 <= k < s.len(),
    ensures
        total(s.take(k + 1)) == total(s.take(k)) + s[k],
        total(s.take(k + 1)) <= total(s),
    decreases s.len(),
{
    assert(s.take(k + 1).drop_last() =~= s.take(k));
    if k + 1 == s.len() {
        assert(s.take(k + 1) =~= s);
    } else {
        lemma_total_take(s.drop_last(), k);
        assert(s.drop_last().take(k + 1) =~= s.take(k + 1));
    }
}

/// Visits of expanded edges only add up.
pub proof fn lemma_expanded_mono<A: Act, R: Scalar>(node: NodeView<A, R>, j: nat, k: nat)
    requires
        j <= k,
    ensures
        expanded_visits(node, j) <= expanded_visits(node, k),
    decreases k,
{
    if j < k {
        lemma_expanded_mono(node, j, (k - 1) as nat);
    }
}

/// Replacing the node of an id by one with the same id replaces it in the tree.
pub proof fn lemma_tree_update<E: Environment, R: Scalar>(
    a: &MCTS<E, R>,
    b: &MCTS<E, R>,
    id: NodeId,
)
    requires
        a.table_ok(),
        a.tree().contains_key(id),
        b.transposition_table@ == a.transposition_table@,
        b.nodes@ == a.nodes@.update(
            a.transposition_table@[id] as int,
            b.nodes@[a.transposition_table@[id] as int],
        ),
        b.nodes@[a.transposition_table@[id] as int].id == id,
    ensures
        b.table_ok(),
        b.tree() == a.tree().insert(id, b.nodes@[a.transposition_table@[id] as int]@),
        a.wf() && b.nodes@[a.transposition_table@[id] as int]@.wf() ==> b.wf(),
{
    let i = a.transposition_table@[id] as int;
    assert forall|k: int| 0 <= k < b.nodes@.len() implies b.transposition_table@.contains_key(
        (#[trigger] b.nodes@[k]).id,
    ) && k <= b.transposition_table@[b.nodes@[k].id] by {
        assert(a.nodes@[k].id == b.nodes@[k].id);
    }
    assert forall|k: NodeId| #[trigger] b.transposition_table@.contains_key(k) implies
        b.transposition_table@[k] < b.nodes@.len() && b.nodes@[b.transposition_table@[k] as int].id
        == k by {
        assert(a.transposition_table@.contains_key(k));
    }
    assert(b.tree() =~= a.tree().insert(id, b.nodes@[i]@));
    if a.wf() && b.nodes@[i]@.wf() {
        assert forall|k: int| 0 <= k < b.nodes@.len() implies (#[trigger] b.nodes@[k])@.wf() by {
            assert(a.nodes@[k]@.wf());
        }
    }
}

} // verus!
