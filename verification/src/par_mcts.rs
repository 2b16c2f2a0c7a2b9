//! The simulation engine: Monte Carlo tree search over a graph with transpositions.

use crate::dashtable::NodeTable;
use crate::par_graph::{
    exps, game_at, has_hash, is_burdened, is_created, is_fresh, lemma_count_in_load,
    lemma_fresh_load, lemma_hits_once, lemma_link_load, lemma_visit_load, lemma_walk_is_distinct,
    norm, normed, spec_normalized, Agent, Environment, Graph,
};
use crate::par_node::{count_at, get_count, Node};
use crate::scalar::{one, sum, Binary, Scalar, Unary};
use crate::walk::{lemma_total_insert, lists, walk};
use std::collections::HashMap;
use vstd::prelude::*;

verus! {

/// Monte Carlo Tree Search (with graph-style transpositions).
pub struct MCTS<R> {
    pub terminal_value: R,
    /// Where the node of a state stands in `nodes`.
    pub transposition_table: NodeTable,
    /// All nodes.
    pub nodes: Vec<Node<R>>,
}

impl<R> View for MCTS<R> {
    type V = Graph<R>;

    open spec fn view(&self) -> Graph<R> {
        Graph { table: self.transposition_table@, nodes: self.nodes@ }
    }
}

/// How one step of a simulation ends.
pub enum Descent {
    /// No action can be picked.
    Stuck,
    /// It comes to a state that has a node.
    Node(usize),
    /// It comes to a state without a node.
    Leaf,
}

impl<R: Scalar> MCTS<R> {
    /// A search without nodes. Terminal states are worth 1.
    pub fn new() -> (r: Self)
        ensures
            r.terminal_value == one::<R>(),
            r@.table == Map::<u64, usize>::empty(),
            r@.nodes.len() == 0,
            r@.wf(),
    {
        let r: Self = MCTS {
            terminal_value: R::decimal(1, 0),
            transposition_table: NodeTable::new(),
            nodes: Vec::new(),
        };
        assert(r@.table =~= Map::<u64, usize>::empty());
        r
    }

    /// The hash of the state of an environment.
    pub fn get_hash<E: Environment<R>>(&self, env: &E) -> (r: u64)
        ensures
            r == env.spec_hash(),
    {
        env.hash_state()
    }

    /// The place of the node of a state.
    pub fn get_node(&self, node_hash: u64) -> (r: Option<usize>)
        ensures
            r == (if self@.table.contains_key(node_hash) {
                Some(self@.table[node_hash])
            } else {
                None
            }),
    {
        self.transposition_table.get(node_hash)
    }

    /// The child of a node under an action.
    pub fn get_child_node(&self, parent: usize, action: i32) -> (r: Option<usize>)
        requires
            parent < self@.nodes.len(),
        ensures
            ({
                let children = self@.nodes[parent as int].children@;
                r == (if children.contains_key(action) {
                    Some(children[action])
                } else {
                    None
                })
            }),
    {
        broadcast use vstd::std_specs::hash::group_hash_axioms;

        match self.nodes[parent].children.get(&action) {
            Some(c) => Some(*c),
            None => None,
        }
    }

    /// Whether a state stands on a path.
    pub fn check_state_repeat(&self, state_hash: u64, path: &Vec<(u64, i32)>) -> (r: bool)
        ensures
            r == has_hash(path@, state_hash),
    {
        let mut i: usize = 0;
        while i < path.len()
            invariant
                i <= path@.len(),
                forall|j: int| 0 <= j < i ==> (#[trigger] path@[j]).0 != state_hash,
            decreases path.len() - i,
        {
            if path[i].0 == state_hash {
                assert(path@[i as int].0 == state_hash);
                return true;
            }
            i += 1;
        }
        false
    }

    /// Whether there is a node.
    pub fn is_expanded(&self, node: &Option<usize>) -> (r: bool)
        ensures
            r == (*node is Some),
    {
        node.is_some()
    }

    /// The values of the children of a node.
    pub fn child_values(&self, place: usize) -> (r: HashMap<i32, R>)
        requires
            self@.wf(),
            place < self@.nodes.len(),
        ensures
            r@ == self@.child_values(self@.nodes[place as int]),
    {
        broadcast use vstd::std_specs::hash::group_hash_axioms;

        let ghost n = self@.nodes[place as int];
        let order: Vec<i32> = walk(&self.nodes[place].children);
        let mut out: HashMap<i32, R> = HashMap::new();
        let mut i: usize = 0;
        while i < order.len()
            invariant
                i <= order@.len(),
                self@.wf(),
                place < self@.nodes.len(),
                n == self@.nodes[place as int],
                lists(order@, n.children@.dom()),
                forall|a: i32|
                    out@.contains_key(a) <==> exists|j: int|
                        0 <= j < i && #[trigger] order@[j] == a,
                forall|a: i32| #[trigger]
                    out@.contains_key(a) ==> out@[a]
                        == self@.nodes[n.children@[a] as int].value,
            decreases order.len() - i,
        {
            let a: i32 = order[i];
            assert(order@.contains(order@[i as int]));
            assert(self@.nodes[place as int].children@.contains_key(a));
            if let Some(c) = self.nodes[place].children.get(&a) {
                out.insert(a, self.nodes[*c].value.dup());
            }
            i += 1;
        }
        assert forall|a: i32| out@.contains_key(a) == n.children@.contains_key(a) by {
            assert(order@.contains(a) <==> n.children@.dom().contains(a));
        }
        assert(out@ =~= self@.child_values(n));
        out
    }

    /// An action whose score is next to the best at a node, chosen by chance.
    pub fn pick(&self, place: usize) -> (r: Option<i32>)
        requires
            self@.wf(),
            place < self@.nodes.len(),
            self@.nodes[place as int].load() <= u32::MAX,
        ensures
            self@.picks(place, r),
    {
        let values: HashMap<i32, R> = self.child_values(place);
        self.nodes[place].select_action_puct(&values)
    }

    /// The priors of some actions: the exponentials of their numbers over the sum of all
    /// exponentials.
    pub fn normalize_prior(&self, logits: &Vec<R>, actions: &Vec<i32>) -> (r: HashMap<i32, R>)
        ensures
            r@ == spec_normalized(logits@, actions@),
    {
        broadcast use vstd::std_specs::hash::group_hash_axioms;

        let mut exp: Vec<R> = Vec::with_capacity(logits.len());
        let mut i: usize = 0;
        while i < logits.len()
            invariant
                i <= logits@.len(),
                exp@.len() == i,
                forall|j: int|
                    0 <= j < i ==> #[trigger] exp@[j] == R::spec_unary(Unary::Exp, logits@[j]),
            decreases logits.len() - i,
        {
            exp.push(R::unary(Unary::Exp, &logits[i]));
            i += 1;
        }
        assert(exp@ =~= exps(logits@));
        let total: R = R::binary(Binary::Max, &sum(&exp), &R::decimal(1, -8));
        let mut priors: HashMap<i32, R> = HashMap::new();
        let mut k: usize = 0;
        while k < actions.len()
            invariant
                k <= actions@.len(),
                exp@ == exps(logits@),
                total == norm(logits@),
                forall|a: i32|
                    priors@.contains_key(a) <==> exists|j: int|
                        0 <= j < k && #[trigger] actions@[j] == a,
                forall|a: i32| #[trigger]
                    priors@.contains_key(a) ==> priors@[a] == normed(logits@, a),
            decreases actions.len() - k,
        {
            let a: i32 = actions[k];
            let e: R = if a >= 0 && (a as usize) < exp.len() {
                exp[a as usize].dup()
            } else {
                R::decimal(0, 0)
            };
            priors.insert(a, R::binary(Binary::Over, &e, &total));
            k += 1;
        }
        assert(priors@ =~= spec_normalized(logits@, actions@));
        priors
    }

    /// A node for the state of an environment.
    pub fn create_node<E: Environment<R>, A: Agent<R>>(&self, env: &E, agent: &A) -> (r: Node<R>)
        ensures
            is_created::<R, E, A>(r, *env, *agent, self.terminal_value),
    {
        if env.done() {
            let none: HashMap<i32, R> = HashMap::new();
            let mut n: Node<R> = Node::new(none, self.terminal_value.dup());
            n.terminal_state = true;
            return n;
        }
        let obs: Vec<R> = env.observation();
        let (logits, value) = agent.infer(&obs);
        let ghost seen = value;
        let actions: Vec<i32> = env.valid_actions();
        let priors: HashMap<i32, R> = self.normalize_prior(&logits, &actions);
        let n: Node<R> = Node::new(priors, value);
        assert(agent.infers(env.spec_observation(), logits@, seen));
        n
    }

    /// Adds a new node for the state of an environment, in place of the one it had. Returns its
    /// place.
    pub fn add_node<E: Environment<R>, A: Agent<R>>(&mut self, env: &E, agent: &A) -> (r: usize)
        requires
            old(self)@.wf(),
        ensures
            final(self)@.wf(),
            final(self)@.has_added::<E, A>(old(self)@, *env, *agent, old(self).terminal_value),
            final(self).terminal_value == old(self).terminal_value,
            r == old(self)@.nodes.len(),
            final(self)@.nodes.last().load() == 0,
    {
        let node: Node<R> = self.create_node(env, agent);
        let place: usize = self.nodes.len();
        proof {
            if env.spec_done() {
                lemma_fresh_load(node, Map::empty(), self.terminal_value);
            } else {
                let (logits, value) = choose|logits: Seq<R>, value: R| #[trigger]
                    agent.infers(env.spec_observation(), logits, value) && is_fresh(
                        node,
                        spec_normalized(logits, env.spec_valid()),
                        value,
                    );
                lemma_fresh_load(node, spec_normalized(logits, env.spec_valid()), value);
            }
        }
        self.transposition_table.insert(env.hash_state(), place);
        self.nodes.push(node);
        assert(self@.nodes.drop_last() =~= old(self)@.nodes);
        assert forall|h: u64| #[trigger] self@.table.contains_key(h) implies self@.table[h]
            < self@.nodes.len() by {
            if h != env.spec_hash() {
                assert(old(self)@.table.contains_key(h));
            }
        }
        assert forall|h: u64, k: u64|
            self@.table.contains_key(h) && self@.table.contains_key(k) && #[trigger] self@.table[h]
                == #[trigger] self@.table[k] implies h == k by {
            if h != env.spec_hash() {
                assert(old(self)@.table.contains_key(h));
            }
            if k != env.spec_hash() {
                assert(old(self)@.table.contains_key(k));
            }
        }
        assert forall|i: int, a: i32|
            0 <= i < self@.nodes.len() && #[trigger] self@.nodes[i].children@.contains_key(
                a,
            ) implies self@.nodes[i].children@[a] < self@.nodes.len() by {
            if i < place {
                assert(old(self)@.nodes[i].children@.contains_key(a));
            }
        }
        place
    }

    /// The place of the node of the state of an environment, which gets one if it has none.
    pub fn ensure_node<E: Environment<R>, A: Agent<R>>(&mut self, env: &E, agent: &A) -> (r: usize)
        requires
            old(self)@.wf(),
        ensures
            final(self)@.wf(),
            final(self)@.has_ensured::<E, A>(
                old(self)@,
                *env,
                *agent,
                old(self).terminal_value,
                r,
            ),
            r < final(self)@.nodes.len(),
            final(self).terminal_value == old(self).terminal_value,
            final(self)@.nodes.len() > old(self)@.nodes.len()
                ==> final(self)@.nodes.last().load() == 0,
    {
        match self.get_node(env.hash_state()) {
            Some(place) => place,
            None => self.add_node(env, agent),
        }
    }

    /// Gives the state of an environment a node, and links it to its parent if that has no child
    /// under the action. The link counts as a visit.
    pub fn expand<E: Environment<R>, A: Agent<R>>(
        &mut self,
        parent: usize,
        action: i32,
        env: &E,
        agent: &A,
    ) -> (r: usize)
        requires
            old(self)@.wf(),
            parent < old(self)@.nodes.len(),
            old(self)@.nodes[parent as int].load() < u32::MAX,
        ensures
            final(self)@.wf(),
            final(self)@.has_expanded::<E, A>(
                old(self)@,
                parent,
                action,
                *env,
                *agent,
                old(self).terminal_value,
                r,
            ),
            r < final(self)@.nodes.len(),
            final(self).terminal_value == old(self).terminal_value,
            final(self)@.nodes.len() >= old(self)@.nodes.len(),
            forall|h: u64| #[trigger]
                old(self)@.table.contains_key(h) ==> final(self)@.table.contains_key(h)
                    && final(self)@.table[h] == old(self)@.table[h],
            forall|i: int|
                0 <= i < final(self)@.nodes.len() ==> (#[trigger] final(self)@.nodes[i]).load()
                    <= (if i < old(self)@.nodes.len() {
                    old(self)@.nodes[i].load() + 1
                } else {
                    0
                }),
    {
        broadcast use vstd::std_specs::hash::group_hash_axioms;

        let leaf: usize = self.ensure_node(env, agent);
        let ghost mid = self@;
        proof {
            assert(mid.nodes.len() > old(self)@.nodes.len() ==> forall|i: int|
                0 <= i < old(self)@.nodes.len() ==> mid.nodes.drop_last()[i] == #[trigger]
                    mid.nodes[i]);
            assert(mid.nodes[parent as int] == old(self)@.nodes[parent as int]);
            lemma_count_in_load(mid.nodes[parent as int], action);
        }
        if self.get_child_node(parent, action).is_none() {
            let visits: u32 = get_count(&self.nodes[parent].edge_visits, action) + 1;
            self.nodes[parent].children.insert(action, leaf);
            self.nodes[parent].edge_visits.insert(action, visits);
            proof {
                assert(self@.nodes =~= mid.nodes.update(
                    parent as int,
                    self@.nodes[parent as int],
                ));
                lemma_link_load(
                    mid.nodes[parent as int],
                    self@.nodes[parent as int],
                    action,
                    leaf,
                );
                assert(self@.same_but(mid, parent as int));
            }
        }
        assert forall|i: int, a: i32|
            0 <= i < self@.nodes.len() && #[trigger] self@.nodes[i].children@.contains_key(
                a,
            ) implies self@.nodes[i].children@[a] < self@.nodes.len() by {
            if i != parent || a != action {
                assert(mid.nodes[i].children@.contains_key(a));
            }
        }
        proof {
            assert(mid.has_ensured::<E, A>(
                old(self)@,
                *env,
                *agent,
                self.terminal_value,
                leaf,
            ));
            assert(self@.has_linked(mid, parent, action, leaf));
        }
        leaf
    }

    /// Counts one visit of an action at a state, takes one virtual loss back, and computes the
    /// value of its node anew.
    fn back(&mut self, hash: u64, action: i32)
        requires
            old(self)@.wf(),
            forall|i: int|
                0 <= i < old(self)@.nodes.len() && old(self)@.table.contains_key(hash)
                    && old(self)@.table[hash] == i ==> (#[trigger] old(self)@.nodes[i]).load() + 1
                    < u32::MAX,
        ensures
            final(self)@.wf(),
            final(self)@.has_backed(old(self)@, (hash, action)),
            final(self).terminal_value == old(self).terminal_value,
            final(self)@.table == old(self)@.table,
            final(self)@.nodes.len() == old(self)@.nodes.len(),
            forall|i: int|
                0 <= i < final(self)@.nodes.len() ==> (#[trigger] final(self)@.nodes[i]).load()
                    <= old(self)@.nodes[i].load() + (if old(self)@.table.contains_key(hash)
                    && old(self)@.table[hash] == i {
                    1int
                } else {
                    0
                }),
    {
        broadcast use vstd::std_specs::hash::group_hash_axioms;

        if let Some(place) = self.get_node(hash) {
            let ghost before = self@;
            let ghost n = before.nodes[place as int];
            let values: HashMap<i32, R> = self.child_values(place);
            proof {
                lemma_count_in_load(n, action);
            }
            let visits: u32 = get_count(&self.nodes[place].edge_visits, action) + 1;
            let mut node: &mut Node<R> = &mut self.nodes[place];
            node.edge_visits.insert(action, visits);
            node.revert_virtual_loss(action, 1);
            let ghost m = *node;
            proof {
                lemma_visit_load(n, m, action);
                assert(crate::par_graph::is_visited(n, m, action));
            }
            node.recompute_value(&values);
            proof {
                let last = self@.nodes[place as int];
                assert(last.edge_visits == m.edge_visits);
                assert(last.virtual_losses == m.virtual_losses);
                assert(last.children == n.children);
                assert(self@.nodes =~= before.nodes.update(place as int, last));
                assert(self@.same_but(before, place as int));
                assert(m.is_recomputed(last, before.child_values(n)));
                assert forall|i: int, a: i32|
                    0 <= i < self@.nodes.len() && #[trigger] self@.nodes[i].children@.contains_key(
                        a,
                    ) implies self@.nodes[i].children@[a] < self@.nodes.len() by {
                    assert(before.nodes[i].children@.contains_key(a));
                }
            }
        }
    }

    /// Counts a path, from its last step to its first. Where it came back to a state, its last
    /// step is penalized.
    pub fn backpropagate(&mut self, search_path: &Vec<(u64, i32)>, repeat_detected: bool)
        requires
            old(self)@.wf(),
            forall|i: int|
                0 <= i < old(self)@.nodes.len() ==> (#[trigger] old(self)@.nodes[i]).load()
                    + old(self)@.hits(search_path@, i) < u32::MAX,
        ensures
            final(self)@.wf(),
            final(self)@.has_backpropagated(old(self)@, search_path@, repeat_detected),
            final(self).terminal_value == old(self).terminal_value,
            final(self)@.table == old(self)@.table,
            final(self)@.nodes.len() == old(self)@.nodes.len(),
            forall|i: int|
                0 <= i < final(self)@.nodes.len() ==> (#[trigger] final(self)@.nodes[i]).load()
                    <= old(self)@.nodes[i].load() + old(self)@.hits(search_path@, i),
    {
        let ghost start = self@;
        let n: usize = search_path.len();
        if repeat_detected && n > 0 {
            let (hash, action) = search_path[n - 1];
            if let Some(place) = self.get_node(hash) {
                self.nodes[place].apply_penalty(action, &R::decimal(-1, 0));
                proof {
                    let m = self@.nodes[place as int];
                    assert(self@.nodes =~= start.nodes.update(place as int, m));
                    assert(self@.same_but(start, place as int));
                    assert forall|i: int, a: i32|
                        0 <= i < self@.nodes.len()
                            && #[trigger] self@.nodes[i].children@.contains_key(
                            a,
                        ) implies self@.nodes[i].children@[a] < self@.nodes.len() by {
                        assert(start.nodes[i].children@.contains_key(a));
                    }
                }
            }
        }
        let ghost mid = self@;
        proof {
            assert(repeat_detected ==> mid.has_penalized(start, search_path@));
            assert forall|i: int| 0 <= i < mid.nodes.len() implies (
            #[trigger] mid.nodes[i]).load() == start.nodes[i].load() by {}
            lemma_same_hits(start, mid, search_path@);
        }
        let mut k: usize = n;
        assert(search_path@.skip(n as int).len() == 0);
        while k > 0
            invariant
                k <= n == search_path@.len(),
                self@.wf(),
                self.terminal_value == old(self).terminal_value,
                self@.table == mid.table,
                self@.nodes.len() == mid.nodes.len(),
                self@.has_backed_all(mid, search_path@.skip(k as int)),
                forall|i: int|
                    0 <= i < mid.nodes.len() ==> (#[trigger] self@.nodes[i]).load()
                        <= mid.nodes[i].load() + mid.hits(search_path@.skip(k as int), i),
                forall|i: int|
                    0 <= i < mid.nodes.len() ==> (#[trigger] mid.nodes[i]).load() + mid.hits(
                        search_path@,
                        i,
                    ) < u32::MAX,
            decreases k,
        {
            let (hash, action) = search_path[k - 1];
            let ghost rest = search_path@.skip(k as int);
            let ghost more = search_path@.skip(k - 1);
            let ghost before = self@;
            proof {
                assert(more.drop_first() =~= rest);
                assert(more[0] == (hash, action));
                assert forall|i: int|
                    0 <= i < self@.nodes.len() && self@.table.contains_key(hash)
                        && self@.table[hash] == i implies (#[trigger] self@.nodes[i]).load() + 1
                    < u32::MAX by {
                    assert(mid.hits(more, i) == mid.hits(rest, i) + 1);
                    lemma_hits_skip(mid, search_path@, k - 1, i);
                    assert(mid.nodes[i].load() + mid.hits(search_path@, i) < u32::MAX);
                }
            }
            self.back(hash, action);
            proof {
                assert(before.has_backed_all(mid, more.drop_first()));
                assert(self@.has_backed(before, more[0]));
                assert(self@.has_backed_all(mid, more));
            }
            k -= 1;
        }
        proof {
            assert(search_path@.skip(0) =~= search_path@);
        }
    }

    /// One playout from a root: walks to the end of the graph by picked actions, expands it
    /// there, and counts the way. Where no action can be picked, nothing is done, and `false` is
    /// returned.
    pub fn playout<E: Environment<R>, A: Agent<R>>(
        &mut self,
        env: &E,
        agent: &A,
        root: usize,
    ) -> (r: bool)
        requires
            old(self)@.wf(),
            root < old(self)@.nodes.len(),
            old(self)@.has_room(2),
            !env.spec_done(),
        ensures
            final(self)@.wf(),
            r ==> exists|path: Seq<(u64, i32)>, repeat: bool, mid: Graph<R>| #[trigger]
                final(self)@.has_played::<E, A>(
                    old(self)@,
                    *env,
                    *agent,
                    old(self).terminal_value,
                    root,
                    path,
                    repeat,
                    mid,
                ),
            !r ==> final(self)@ == old(self)@ && old(self)@.is_stuck::<E>(*env, root),
            final(self).terminal_value == old(self).terminal_value,
            final(self)@.nodes.len() >= old(self)@.nodes.len(),
            forall|i: int|
                0 <= i < final(self)@.nodes.len() ==> (#[trigger] final(self)@.nodes[i]).load()
                    <= (if i < old(self)@.nodes.len() {
                    old(self)@.nodes[i].load() + 2
                } else {
                    1
                }),
    {
        let ghost start = self@;
        let mut game: E = env.copy();
        let mut path: Vec<(u64, i32)> = Vec::new();
        let mut parent: usize = root;
        let mut node: Option<usize> = Some(root);
        let mut repeat: bool = false;
        while node.is_some() && !repeat && (path.len() == 0 || !game.done())
            invariant
                self@ == start,
                *self == *old(self),
                start.wf(),
                root < start.nodes.len(),
                start.has_room(2),
                game == game_at::<R, E>(*env, path@),
                start.is_walked::<E>(*env, root, path@),
                node == start.node_at(root, path@),
                node is Some ==> node->0 < start.nodes.len(),
                parent < start.nodes.len(),
                path@.len() > 0 ==> start.node_at(root, path@.drop_last()) == Some(parent),
                repeat ==> path@.len() > 0 && start.goes_on::<E>(*env, root, path@) && has_hash(
                    path@,
                    game.spec_hash(),
                ),
            ensures
                path@.len() > 0,
                repeat || !start.goes_on::<E>(*env, root, path@),
            decreases 0x1_0000_0000_0000_0000 - path@.len(), (if repeat {
                0int
            } else {
                1
            }),
        {
            let place: usize = match node {
                Some(n) => n,
                None => root,
            };
            let hash: u64 = self.get_hash(&game);
            match self.pick(place) {
                None => {
                    assert(start.goes_on::<E>(*env, root, path@));
                    return false;
                },
                Some(act) => {
                    if self.check_state_repeat(hash, &path) {
                        repeat = true;
                    } else {
                        let ghost before = path@;
                        path.push((hash, act));
                        parent = place;
                        node = self.get_child_node(parent, act);
                        game.step(act);
                        proof {
                            assert(path@.drop_last() =~= before);
                            assert(path@.last() == (hash, act));
                            if node is Some {
                                assert(start.nodes[parent as int].children@.contains_key(act));
                            }
                        }
                    }
                },
            }
        }
        proof {
            lemma_walk_is_distinct::<R, E>(start, *env, root, path@);
        }
        if !repeat && !game.done() {
            let (_, act) = path[path.len() - 1];
            let leaf: usize = self.expand(parent, act, &game, agent);
            assert(self@.has_expanded::<E, A>(
                start,
                parent,
                act,
                game,
                *agent,
                self.terminal_value,
                leaf,
            ));
        }
        let ghost mid = self@;
        proof {
            assert forall|i: int| 0 <= i < mid.nodes.len() implies (
            #[trigger] mid.nodes[i]).load() + mid.hits(path@, i) < u32::MAX by {
                lemma_hits_once(mid, path@, i);
                if i < start.nodes.len() {
                    assert(start.nodes[i].load() + 2 < u32::MAX);
                }
            }
        }
        self.backpropagate(&path, repeat);
        proof {
            assert forall|i: int| 0 <= i < self@.nodes.len() implies (
            #[trigger] self@.nodes[i]).load() <= (if i < start.nodes.len() {
                start.nodes[i].load() + 2
            } else {
                1
            }) by {
                lemma_hits_once(mid, path@, i);
                assert(mid.nodes[i].load() + mid.hits(path@, i) < u32::MAX);
            }
            assert(self@.has_played::<E, A>(
                start,
                *env,
                *agent,
                self.terminal_value,
                root,
                path@,
                repeat,
                mid,
            ));
        }
        true
    }

    /// Searches from the state of an environment. Returns the place of its node; `None` where at
    /// some node no action can be picked.
    pub fn run<E: Environment<R>, A: Agent<R>>(
        &mut self,
        env: &E,
        agent: &A,
        num_steps: usize,
    ) -> (r: Option<usize>)
        requires
            old(self)@.wf(),
            old(self)@.has_room(2 * num_steps as int),
            2 * num_steps < u32::MAX,
        ensures
            final(self)@.wf(),
            final(self).terminal_value == old(self).terminal_value,
            match r {
                Some(root) => final(self)@.has_searched::<E, A>(
                    old(self)@,
                    *env,
                    *agent,
                    old(self).terminal_value,
                    root,
                    if env.spec_done() {
                        0
                    } else {
                        num_steps as nat
                    },
                ),
                None => !env.spec_done() && exists|root: usize, k: nat|
                    k < num_steps && #[trigger] final(self)@.has_searched::<E, A>(
                        old(self)@,
                        *env,
                        *agent,
                        old(self).terminal_value,
                        root,
                        k,
                    ) && final(self)@.is_stuck::<E>(*env, root),
            },
            forall|i: int|
                0 <= i < final(self)@.nodes.len() ==> (#[trigger] final(self)@.nodes[i]).load()
                    <= (if i < old(self)@.nodes.len() {
                    old(self)@.nodes[i].load() + 2 * num_steps
                } else {
                    2 * num_steps
                }),
    {
        let ghost tv = self.terminal_value;
        let root: usize = self.ensure_node(env, agent);
        let ghost first = self@;
        proof {
            assert(first.nodes.len() > old(self)@.nodes.len() ==> forall|i: int|
                0 <= i < old(self)@.nodes.len() ==> first.nodes.drop_last()[i] == #[trigger]
                    first.nodes[i]);
        }
        if env.done() {
            assert(self@.has_run::<E, A>(first, *env, *agent, tv, root, 0));
            return Some(root);
        }
        let mut k: usize = 0;
        while k < num_steps
            invariant
                k <= num_steps,
                self@.wf(),
                !env.spec_done(),
                self.terminal_value == tv,
                tv == old(self).terminal_value,
                root < self@.nodes.len(),
                self@.nodes.len() >= old(self)@.nodes.len(),
                old(self)@.has_room(2 * num_steps as int),
                first.has_ensured::<E, A>(old(self)@, *env, *agent, tv, root),
                self@.has_run::<E, A>(first, *env, *agent, tv, root, k as nat),
                forall|i: int|
                    0 <= i < self@.nodes.len() ==> (#[trigger] self@.nodes[i]).load() <= (if i
                        < old(self)@.nodes.len() {
                        old(self)@.nodes[i].load() + 2 * k
                    } else {
                        2 * k
                    }),
                2 * num_steps < u32::MAX,
            decreases num_steps - k,
        {
            if !self.playout(env, agent, root) {
                assert(self@.has_searched::<E, A>(old(self)@, *env, *agent, tv, root, k as nat));
                return None;
            }
            k += 1;
        }
        Some(root)
    }

    /// One step of a simulation: picks an action at a node, notes it on the path, burdens it with
    /// a virtual loss, and takes it.
    pub fn descend<E: Environment<R>>(
        &mut self,
        env: &mut E,
        path: &mut Vec<(u64, i32)>,
        place: usize,
    ) -> (r: Descent)
        requires
            old(self)@.wf(),
            place < old(self)@.nodes.len(),
            old(self)@.nodes[place as int].load() < u32::MAX,
        ensures
            final(self)@.wf(),
            final(self).terminal_value == old(self).terminal_value,
            final(self)@.table == old(self)@.table,
            final(self)@.nodes.len() == old(self)@.nodes.len(),
            r is Stuck ==> {
                &&& old(self)@.picks(place, None)
                &&& *final(self) == *old(self)
                &&& *final(env) == *old(env)
                &&& final(path)@ == old(path)@
            },
            !(r is Stuck) ==> {
                let action = final(path)@.last().1;
                &&& final(path)@ == old(path)@.push((old(env).spec_hash(), action))
                &&& old(self)@.picks(place, Some(action))
                &&& *final(env) == old(env).spec_next(action)
                &&& final(self)@.same_but(old(self)@, place as int)
                &&& is_burdened(
                    old(self)@.nodes[place as int],
                    final(self)@.nodes[place as int],
                    action,
                )
                &&& final(self)@.nodes[place as int].load() == old(
                    self,
                )@.nodes[place as int].load() + 1
                &&& r == (if old(self)@.table.contains_key(final(env).spec_hash()) {
                    Descent::Node(old(self)@.table[final(env).spec_hash()])
                } else {
                    Descent::Leaf
                })
            },
    {
        broadcast use vstd::std_specs::hash::group_hash_axioms;

        let ghost before = self@;
        match self.pick(place) {
            None => Descent::Stuck,
            Some(action) => {
                let hash: u64 = self.get_hash(&*env);
                path.push((hash, action));
                proof {
                    lemma_count_in_load(before.nodes[place as int], action);
                }
                self.nodes[place].add_virtual_loss(action, 1);
                proof {
                    let n = before.nodes[place as int];
                    let m = self@.nodes[place as int];
                    assert(self@.nodes =~= before.nodes.update(place as int, m));
                    lemma_total_insert(
                        n.virtual_losses@,
                        action,
                        (count_at(n.virtual_losses@, action) + 1) as u32,
                    );
                    assert forall|i: int, a: i32|
                        0 <= i < self@.nodes.len()
                            && #[trigger] self@.nodes[i].children@.contains_key(
                            a,
                        ) implies self@.nodes[i].children@[a] < self@.nodes.len() by {
                        assert(before.nodes[i].children@.contains_key(a));
                    }
                    assert(self@.table == before.table);
                    assert(self@.wf());
                }
                env.step(action);
                match self.get_node(env.hash_state()) {
                    Some(next) => Descent::Node(next),
                    None => Descent::Leaf,
                }
            },
        }
    }

    /// Ends a simulation: unless the state is terminal it gets a new node, which becomes the
    /// child of the last node of the path. Then the path is counted.
    pub fn settle<E: Environment<R>, A: Agent<R>>(
        &mut self,
        env: &E,
        agent: &A,
        path: &Vec<(u64, i32)>,
    )
        requires
            old(self)@.wf(),
            old(self)@.has_room(path@.len() as int),
            path@.len() < u32::MAX,
        ensures
            final(self)@.wf(),
            final(self).terminal_value == old(self).terminal_value,
            exists|mid: Graph<R>|
                #![trigger final(self)@.has_backpropagated(mid, path@, false)]
                final(self)@.has_backpropagated(mid, path@, false) && if env.spec_done() {
                    mid == old(self)@
                } else {
                    mid.has_grown::<E, A>(old(self)@, *env, *agent, old(self).terminal_value, path@)
                },
    {
        broadcast use vstd::std_specs::hash::group_hash_axioms;

        let ghost start = self@;
        let n: usize = path.len();
        if !env.done() {
            let leaf: usize = self.add_node(env, agent);
            let ghost mid = self@;
            proof {
                assert(forall|i: int|
                    0 <= i < start.nodes.len() ==> mid.nodes.drop_last()[i] == #[trigger]
                        mid.nodes[i]);
            }
            if n > 0 {
                let (hash, action) = path[n - 1];
                if let Some(parent) = self.get_node(hash) {
                    self.nodes[parent].children.insert(action, leaf);
                    proof {
                        assert(self@.nodes =~= mid.nodes.update(
                            parent as int,
                            self@.nodes[parent as int],
                        ));
                        assert forall|i: int, a: i32|
                            0 <= i < self@.nodes.len()
                                && #[trigger] self@.nodes[i].children@.contains_key(
                                a,
                            ) implies self@.nodes[i].children@[a] < self@.nodes.len() by {
                            if i != parent || a != action {
                                assert(mid.nodes[i].children@.contains_key(a));
                            }
                        }
                        assert(self@.same_but(mid, parent as int));
                    }
                }
            }
            proof {
                assert(mid.has_added::<E, A>(start, *env, *agent, self.terminal_value));
                assert forall|i: int| 0 <= i < self@.nodes.len() implies (
                #[trigger] self@.nodes[i]).load() == mid.nodes[i].load() by {}
                assert forall|i: int| 0 <= i < self@.nodes.len() implies (
                #[trigger] self@.nodes[i]).load() + n < u32::MAX by {
                    if i < start.nodes.len() {
                        assert(mid.nodes[i] == start.nodes[i]);
                        assert(start.nodes[i].load() + n < u32::MAX);
                    }
                }
            }
        }
        proof {
            let g = self@;
            assert forall|i: int| 0 <= i < g.nodes.len() implies (
            #[trigger] g.nodes[i]).load() + g.hits(path@, i) < u32::MAX by {
                lemma_hits_len(g, path@, i);
                assert(g.nodes[i].load() + n < u32::MAX);
            }
        }
        self.backpropagate(path, false);
    }

    /// An action with the most visits at a node, chosen by chance.
    pub fn choose_action(&self, root: usize) -> (r: i32)
        requires
            root < self@.nodes.len(),
            exists|a: i32| #[trigger] self@.nodes[root as int].children@.contains_key(a),
            exists|a: i32| #[trigger] self@.nodes[root as int].edge_visits@.contains_key(a),
        ensures
            ({
                let visits = self@.nodes[root as int].edge_visits@;
                visits.contains_key(r) && forall|b: i32| #[trigger]
                    visits.contains_key(b) ==> visits[b] <= visits[r]
            }),
    {
        self.nodes[root].select_action()
    }
}

/// Graphs with the same table count a path alike.
proof fn lemma_same_hits<R: Scalar>(g: Graph<R>, f: Graph<R>, path: Seq<(u64, i32)>)
    requires
        g.table == f.table,
    ensures
        forall|i: int| #[trigger] g.hits(path, i) == f.hits(path, i),
    decreases path.len(),
{
    if path.len() > 0 {
        lemma_same_hits(g, f, path.drop_first());
        assert forall|i: int| #[trigger] g.hits(path, i) == f.hits(path, i) by {
            assert(g.hits(path.drop_first(), i) == f.hits(path.drop_first(), i));
        }
    }
}

/// A path counts at most as often as it is long.
proof fn lemma_hits_len<R: Scalar>(g: Graph<R>, path: Seq<(u64, i32)>, place: int)
    ensures
        g.hits(path, place) <= path.len(),
    decreases path.len(),
{
    if path.len() > 0 {
        lemma_hits_len(g, path.drop_first(), place);
    }
}

/// The end of a path counts at most as often as the path.
proof fn lemma_hits_skip<R: Scalar>(g: Graph<R>, path: Seq<(u64, i32)>, k: int, place: int)
    requires
        0 <= k <= path.len(),
    ensures
        g.hits(path.skip(k), place) <= g.hits(path, place),
    decreases k,
{
    if k > 0 {
        lemma_hits_skip(g, path, k - 1, place);
        assert(path.skip(k - 1).drop_first() =~= path.skip(k));
    } else {
        assert(path.skip(0) =~= path);
    }
}

} // verus!
