//! The graph that the simulation engine searches, and what its operations do to it.

use crate::par_node::{count_at, is_pick, less_saturating, number_at, Node};
use crate::scalar::{over, plus, spec_sum, zero, larger, Scalar, Unary};
use crate::walk::{lemma_total_insert, lemma_total_zero};
use vstd::prelude::*;

verus! {

/// The interface of an environment: states, known by their hashes, and numbered actions.
pub trait Environment<R: Scalar>: Sized {
    /// The hash of the state.
    closed spec fn spec_hash(&self) -> u64 {
        arbitrary()
    }

    /// Whether the state is terminal.
    closed spec fn spec_done(&self) -> bool {
        arbitrary()
    }

    /// The valid actions.
    closed spec fn spec_valid(&self) -> Seq<i32> {
        arbitrary()
    }

    /// What is seen of the state.
    closed spec fn spec_observation(&self) -> Seq<R> {
        arbitrary()
    }

    /// The environment after an action.
    closed spec fn spec_next(&self, action: i32) -> Self {
        arbitrary()
    }

    /// The hash of the state.
    fn hash_state(&self) -> (r: u64)
        ensures
            r == self.spec_hash(),
    ;

    /// Whether the state is terminal.
    fn done(&self) -> (r: bool)
        ensures
            r == self.spec_done(),
    ;

    /// The valid actions.
    fn valid_actions(&self) -> (r: Vec<i32>)
        ensures
            r@ == self.spec_valid(),
    ;

    /// Takes an action.
    fn step(&mut self, action: i32)
        ensures
            *final(self) == old(self).spec_next(action),
    ;

    /// The same environment once more.
    fn copy(&self) -> (r: Self)
        ensures
            r == *self,
    ;

    /// What is seen of the state.
    fn observation(&self) -> (r: Vec<R>)
        ensures
            r@ == self.spec_observation(),
    ;
}

/// The interface of an agent: a number for each action, and a value, from what is seen.
pub trait Agent<R: Scalar> {
    /// Whether the agent may infer these numbers and this value.
    closed spec fn infers(&self, obs: Seq<R>, logits: Seq<R>, value: R) -> bool {
        arbitrary()
    }

    /// Infers numbers and a value.
    fn infer(&self, obs: &Vec<R>) -> (r: (Vec<R>, R))
        ensures
            self.infers(obs@, r.0@, r.1),
    ;
}

/// The nodes of a search, and which of them stands for a state.
#[verifier::reject_recursive_types(R)]
pub ghost struct Graph<R> {
    pub table: Map<u64, usize>,
    pub nodes: Seq<Node<R>>,
}

/// Whether a state stands on a path.
pub open spec fn has_hash(path: Seq<(u64, i32)>, hash: u64) -> bool {
    exists|i: int| 0 <= i < path.len() && (#[trigger] path[i]).0 == hash
}

/// The environment after the actions of a path.
pub open spec fn game_at<R: Scalar, E: Environment<R>>(env: E, path: Seq<(u64, i32)>) -> E
    decreases path.len(),
{
    if path.len() == 0 {
        env
    } else {
        game_at::<R, E>(env, path.drop_last()).spec_next(path.last().1)
    }
}

/// The exponentials of some numbers.
pub open spec fn exps<R: Scalar>(logits: Seq<R>) -> Seq<R> {
    Seq::new(logits.len(), |i: int| R::spec_unary(Unary::Exp, logits[i]))
}

/// What the exponentials are divided by: their sum, at least 1e-8.
pub open spec fn norm<R: Scalar>(logits: Seq<R>) -> R {
    larger(spec_sum(exps(logits)), R::spec_decimal(1, -8))
}

/// The prior of an action: 0 where there is no number for it.
pub open spec fn normed<R: Scalar>(logits: Seq<R>, a: i32) -> R {
    over(
        if 0 <= a < logits.len() {
            R::spec_unary(Unary::Exp, logits[a as int])
        } else {
            zero()
        },
        norm(logits),
    )
}

/// The priors of some actions.
pub open spec fn spec_normalized<R: Scalar>(logits: Seq<R>, actions: Seq<i32>) -> Map<i32, R> {
    Map::new(|a: i32| actions.contains(a), |a: i32| normed(logits, a))
}

/// Whether a node is fresh: it has a prior and an estimate, and was never visited.
pub open spec fn is_fresh<R: Scalar>(n: Node<R>, priors: Map<i32, R>, value: R) -> bool {
    &&& n.priors@ == priors
    &&& n.value_estimate == value
    &&& n.value == value
    &&& n.node_visits == 0
    &&& n.children@ == Map::<i32, usize>::empty()
    &&& n.edge_visits@ == crate::par_node::everywhere(priors, 0u32)
    &&& n.virtual_losses@ == crate::par_node::everywhere(priors, 0u32)
    &&& n.edge_penalties@ == crate::par_node::everywhere(priors, zero::<R>())
}

/// Whether a node is one that a state gets: a terminal one, or one with the priors and the value
/// that the agent infers.
pub open spec fn is_created<R: Scalar, E: Environment<R>, A: Agent<R>>(
    n: Node<R>,
    env: E,
    agent: A,
    terminal_value: R,
) -> bool {
    if env.spec_done() {
        n.terminal_state && is_fresh(n, Map::empty(), terminal_value)
    } else {
        !n.terminal_state && exists|logits: Seq<R>, value: R| #[trigger]
            agent.infers(env.spec_observation(), logits, value) && is_fresh(
                n,
                spec_normalized(logits, env.spec_valid()),
                value,
            )
    }
}

/// Whether `m` is the node `n` with a child linked under an action that had none, and one visit
/// more of that action.
pub open spec fn is_linked<R: Scalar>(n: Node<R>, m: Node<R>, action: i32, child: usize) -> bool {
    &&& m.children@ == n.children@.insert(action, child)
    &&& m.edge_visits@ == n.edge_visits@.insert(
        action,
        (count_at(n.edge_visits@, action) + 1) as u32,
    )
    &&& m == (Node { children: m.children, edge_visits: m.edge_visits, ..n })
}

/// Whether `m` is the node `n` with the child under an action replaced.
pub open spec fn is_relinked<R: Scalar>(n: Node<R>, m: Node<R>, action: i32, child: usize) -> bool {
    &&& m.children@ == n.children@.insert(action, child)
    &&& m == (Node { children: m.children, ..n })
}

/// Whether `m` is the node `n` with a penalty added to an action.
pub open spec fn is_penalized<R: Scalar>(n: Node<R>, m: Node<R>, action: i32, penalty: R) -> bool {
    &&& m.edge_penalties@ == n.edge_penalties@.insert(
        action,
        plus(number_at(n.edge_penalties@, action), penalty),
    )
    &&& m == (Node { edge_penalties: m.edge_penalties, ..n })
}

/// Whether `m` is the node `n` with a virtual loss added to an action.
pub open spec fn is_burdened<R: Scalar>(n: Node<R>, m: Node<R>, action: i32) -> bool {
    &&& m.virtual_losses@ == n.virtual_losses@.insert(
        action,
        (count_at(n.virtual_losses@, action) + 1) as u32,
    )
    &&& m == (Node { virtual_losses: m.virtual_losses, ..n })
}

/// Whether `m` is the node `n` with one visit more of an action, and one virtual loss less.
pub open spec fn is_visited<R: Scalar>(n: Node<R>, m: Node<R>, action: i32) -> bool {
    &&& m.edge_visits@ == n.edge_visits@.insert(
        action,
        (count_at(n.edge_visits@, action) + 1) as u32,
    )
    &&& m.virtual_losses@ == n.virtual_losses@.insert(
        action,
        less_saturating(count_at(n.virtual_losses@, action), 1),
    )
    &&& m == (Node { edge_visits: m.edge_visits, virtual_losses: m.virtual_losses, ..n })
}

/// Whether `m` is the node `n` with one visit more of an action, and its value computed anew
/// from the values of its children.
pub open spec fn is_revalued<R: Scalar>(
    n: Node<R>,
    m: Node<R>,
    action: i32,
    child_values: Map<i32, R>,
) -> bool {
    exists|v: Node<R>| #[trigger] is_visited(n, v, action) && v.is_recomputed(m, child_values)
}

impl<R: Scalar> Graph<R> {
    /// Every state has a node of its own, and every child is a node.
    pub open spec fn wf(self) -> bool {
        &&& forall|h: u64| #[trigger] self.table.contains_key(h) ==> self.table[h]
            < self.nodes.len()
        &&& forall|h: u64, k: u64|
            self.table.contains_key(h) && self.table.contains_key(k) && #[trigger] self.table[h]
                == #[trigger] self.table[k] ==> h == k
        &&& forall|i: int, a: i32|
            0 <= i < self.nodes.len() && #[trigger] self.nodes[i].children@.contains_key(a)
                ==> self.nodes[i].children@[a] < self.nodes.len()
    }

    /// No node has so many visits and virtual losses that `k` more cannot be counted.
    pub open spec fn has_room(self, k: int) -> bool {
        forall|i: int|
            0 <= i < self.nodes.len() ==> (#[trigger] self.nodes[i]).load() + k < u32::MAX
    }

    /// The values of the children of a node.
    pub open spec fn child_values(self, n: Node<R>) -> Map<i32, R> {
        Map::new(
            |a: i32| n.children@.contains_key(a),
            |a: i32| self.nodes[n.children@[a] as int].value,
        )
    }

    /// Whether an action may be picked at a node; or none can be.
    pub open spec fn picks(self, place: usize, r: Option<i32>) -> bool {
        let n = self.nodes[place as int];
        is_pick(n.spec_scores(R::spec_decimal(11, -1), self.child_values(n)), r)
    }

    /// The node at the end of a path.
    pub open spec fn node_at(self, start: usize, path: Seq<(u64, i32)>) -> Option<usize>
        decreases path.len(),
    {
        if path.len() == 0 {
            Some(start)
        } else {
            match self.node_at(start, path.drop_last()) {
                Some(p) => if self.nodes[p as int].children@.contains_key(path.last().1) {
                    Some(self.nodes[p as int].children@[path.last().1])
                } else {
                    None
                },
                None => None,
            }
        }
    }

    /// Whether a path was walked: at each of its states, none of which occurs twice and none of
    /// which but the first is terminal, an action was picked by its score.
    pub open spec fn is_walked<E: Environment<R>>(
        self,
        env: E,
        start: usize,
        path: Seq<(u64, i32)>,
    ) -> bool
        decreases path.len(),
    {
        path.len() > 0 ==> {
            let init = path.drop_last();
            let (hash, action) = path.last();
            &&& self.is_walked::<E>(env, start, init)
            &&& self.goes_on::<E>(env, start, init)
            &&& self.picks(self.node_at(start, init)->0, Some(action))
            &&& hash == game_at::<R, E>(env, init).spec_hash()
            &&& !has_hash(init, hash)
        }
    }

    /// Whether a path can go on: it has come to a node of the graph, and not to its end.
    pub open spec fn goes_on<E: Environment<R>>(
        self,
        env: E,
        start: usize,
        path: Seq<(u64, i32)>,
    ) -> bool {
        self.node_at(start, path) is Some && (path.len() > 0 ==> !game_at::<R, E>(
            env,
            path,
        ).spec_done())
    }

    /// Whether a path ends where it should: at a state that was passed before, at a terminal
    /// one, or at one without a node.
    pub open spec fn is_ended<E: Environment<R>>(
        self,
        env: E,
        start: usize,
        path: Seq<(u64, i32)>,
        repeat: bool,
    ) -> bool {
        &&& path.len() > 0
        &&& repeat <==> self.goes_on::<E>(env, start, path) && has_hash(
            path,
            game_at::<R, E>(env, path).spec_hash(),
        )
        &&& !repeat ==> !self.goes_on::<E>(env, start, path)
    }

    /// Whether `self` is `before` with a node for the state of an environment, at `place`.
    pub open spec fn has_ensured<E: Environment<R>, A: Agent<R>>(
        self,
        before: Self,
        env: E,
        agent: A,
        terminal_value: R,
        place: usize,
    ) -> bool {
        if before.table.contains_key(env.spec_hash()) {
            self == before && place == before.table[env.spec_hash()]
        } else {
            self.has_added::<E, A>(before, env, agent, terminal_value) && place
                == before.nodes.len()
        }
    }

    /// Whether `self` is `before` with a new node for the state of an environment.
    pub open spec fn has_added<E: Environment<R>, A: Agent<R>>(
        self,
        before: Self,
        env: E,
        agent: A,
        terminal_value: R,
    ) -> bool {
        &&& self.nodes.len() == before.nodes.len() + 1
        &&& self.nodes.drop_last() == before.nodes
        &&& is_created::<R, E, A>(self.nodes.last(), env, agent, terminal_value)
        &&& self.table == before.table.insert(env.spec_hash(), before.nodes.len() as usize)
    }

    /// Whether `self` is `before` but for one node.
    pub open spec fn same_but(self, before: Self, place: int) -> bool {
        &&& self.table == before.table
        &&& 0 <= place < before.nodes.len()
        &&& self.nodes == before.nodes.update(place, self.nodes[place])
    }

    /// Whether `self` is `before` with a node linked under an action that had no child.
    pub open spec fn has_linked(
        self,
        before: Self,
        parent: usize,
        action: i32,
        child: usize,
    ) -> bool {
        if before.nodes[parent as int].children@.contains_key(action) {
            self == before
        } else {
            &&& self.same_but(before, parent as int)
            &&& is_linked(
                before.nodes[parent as int],
                self.nodes[parent as int],
                action,
                child,
            )
        }
    }

    /// Whether `self` is `before` with the end of a path expanded: its state has a node, which
    /// is linked to its parent.
    pub open spec fn has_expanded<E: Environment<R>, A: Agent<R>>(
        self,
        before: Self,
        parent: usize,
        action: i32,
        env: E,
        agent: A,
        terminal_value: R,
        leaf: usize,
    ) -> bool {
        exists|mid: Self| #[trigger]
            mid.has_ensured::<E, A>(before, env, agent, terminal_value, leaf)
                && self.has_linked(mid, parent, action, leaf)
    }

    /// Whether `self` is `before` with a new node for the state of an environment, which became
    /// the child of the last node of a path.
    pub open spec fn has_grown<E: Environment<R>, A: Agent<R>>(
        self,
        before: Self,
        env: E,
        agent: A,
        terminal_value: R,
        path: Seq<(u64, i32)>,
    ) -> bool {
        exists|mid: Self| #[trigger]
            mid.has_added::<E, A>(before, env, agent, terminal_value) && self.has_relinked(
                mid,
                path,
                before.nodes.len() as usize,
            )
    }

    /// Whether `self` is `before` with the child of the last node of a path replaced.
    pub open spec fn has_relinked(
        self,
        before: Self,
        path: Seq<(u64, i32)>,
        child: usize,
    ) -> bool {
        if path.len() > 0 && before.table.contains_key(path.last().0) {
            let parent = before.table[path.last().0] as int;
            self.same_but(before, parent) && is_relinked(
                before.nodes[parent],
                self.nodes[parent],
                path.last().1,
                child,
            )
        } else {
            self == before
        }
    }

    /// Whether `self` is `before` with one more visit of an action at a state, if it has a node,
    /// and the value of that node computed anew.
    pub open spec fn has_backed(self, before: Self, step: (u64, i32)) -> bool {
        if before.table.contains_key(step.0) {
            let place = before.table[step.0] as int;
            self.same_but(before, place) && is_revalued(
                before.nodes[place],
                self.nodes[place],
                step.1,
                before.child_values(before.nodes[place]),
            )
        } else {
            self == before
        }
    }

    /// Whether `self` is `before` with the steps of a path backed, from the last to the first.
    pub open spec fn has_backed_all(self, before: Self, path: Seq<(u64, i32)>) -> bool
        decreases path.len(),
    {
        if path.len() == 0 {
            self == before
        } else {
            exists|mid: Self|
                mid.has_backed_all(before, path.drop_first()) && #[trigger] self.has_backed(
                    mid,
                    path[0],
                )
        }
    }

    /// Whether `self` is `before` with a penalty of -1 for the last step of a path, if its state
    /// has a node.
    pub open spec fn has_penalized(self, before: Self, path: Seq<(u64, i32)>) -> bool {
        if path.len() > 0 && before.table.contains_key(path.last().0) {
            let place = before.table[path.last().0] as int;
            self.same_but(before, place) && is_penalized(
                before.nodes[place],
                self.nodes[place],
                path.last().1,
                R::spec_decimal(-1, 0),
            )
        } else {
            self == before
        }
    }

    /// Whether `self` is `before` with a path backpropagated: where a state was repeated, its
    /// last step is penalized first.
    pub open spec fn has_backpropagated(
        self,
        before: Self,
        path: Seq<(u64, i32)>,
        repeat: bool,
    ) -> bool {
        exists|mid: Self| #[trigger]
            self.has_backed_all(mid, path) && if repeat {
                mid.has_penalized(before, path)
            } else {
                mid == before
            }
    }

    /// Whether `self` is `before` after a playout along a path: walked from a root to its end,
    /// expanded there, and backpropagated.
    pub open spec fn has_played<E: Environment<R>, A: Agent<R>>(
        self,
        before: Self,
        env: E,
        agent: A,
        terminal_value: R,
        start: usize,
        path: Seq<(u64, i32)>,
        repeat: bool,
        mid: Self,
    ) -> bool {
        &&& before.is_walked::<E>(env, start, path)
        &&& before.is_ended::<E>(env, start, path, repeat)
        &&& if !repeat && !game_at::<R, E>(env, path).spec_done() {
            exists|leaf: usize| #[trigger]
                mid.has_expanded::<E, A>(
                    before,
                    before.node_at(start, path.drop_last())->0,
                    path.last().1,
                    game_at::<R, E>(env, path),
                    agent,
                    terminal_value,
                    leaf,
                )
        } else {
            mid == before
        }
        &&& self.has_backpropagated(mid, path, repeat)
    }

    /// Whether `self` is `before` after some number of playouts.
    pub open spec fn has_run<E: Environment<R>, A: Agent<R>>(
        self,
        before: Self,
        env: E,
        agent: A,
        terminal_value: R,
        start: usize,
        playouts: nat,
    ) -> bool
        decreases playouts,
    {
        if playouts == 0 {
            self == before
        } else {
            exists|last: Self, path: Seq<(u64, i32)>, repeat: bool, mid: Self|
                last.has_run::<E, A>(
                    before,
                    env,
                    agent,
                    terminal_value,
                    start,
                    (playouts - 1) as nat,
                ) && #[trigger] self.has_played::<E, A>(
                    last,
                    env,
                    agent,
                    terminal_value,
                    start,
                    path,
                    repeat,
                    mid,
                )
        }
    }

    /// Whether `self` is `before` after a search from a root: the state of the environment has a
    /// node there, and some number of playouts were made.
    pub open spec fn has_searched<E: Environment<R>, A: Agent<R>>(
        self,
        before: Self,
        env: E,
        agent: A,
        terminal_value: R,
        start: usize,
        playouts: nat,
    ) -> bool {
        exists|first: Self| #[trigger]
            first.has_ensured::<E, A>(before, env, agent, terminal_value, start)
                && self.has_run::<E, A>(first, env, agent, terminal_value, start, playouts)
    }

    /// Whether a path leads from a root to a node where no action can be picked.
    pub open spec fn is_stuck<E: Environment<R>>(self, env: E, start: usize) -> bool {
        exists|path: Seq<(u64, i32)>|
            self.is_walked::<E>(env, start, path) && #[trigger] self.goes_on::<E>(
                env,
                start,
                path,
            ) && self.picks(self.node_at(start, path)->0, None)
    }

    /// How many steps of a path are counted at a node.
    pub open spec fn hits(self, path: Seq<(u64, i32)>, place: int) -> nat
        decreases path.len(),
    {
        if path.len() == 0 {
            0
        } else {
            self.hits(path.drop_first(), place) + if self.table.contains_key(path[0].0)
                && self.table[path[0].0] == place {
                1nat
            } else {
                0
            }
        }
    }
}

/// Whether a node is kept: its prior, its estimate and its children, whatever was counted.
pub open spec fn is_kept<R: Scalar>(n: Node<R>, m: Node<R>) -> bool {
    &&& m.priors == n.priors
    &&& m.value_estimate == n.value_estimate
    &&& m.terminal_state == n.terminal_state
    &&& n.children@.submap_of(m.children@)
}

impl<R: Scalar> Graph<R> {
    /// Whether all that `before` holds is kept.
    pub open spec fn keeps(self, before: Self) -> bool {
        &&& before.table.submap_of(self.table)
        &&& before.nodes.len() <= self.nodes.len()
        &&& forall|i: int|
            0 <= i < before.nodes.len() ==> is_kept(before.nodes[i], #[trigger] self.nodes[i])
    }
}

/// What is kept twice is kept.
proof fn lemma_keeps_trans<R: Scalar>(a: Graph<R>, b: Graph<R>, c: Graph<R>)
    requires
        b.keeps(a),
        c.keeps(b),
    ensures
        c.keeps(a),
{
    lemma_submap_trans(a.table, b.table, c.table);
    assert forall|i: int| 0 <= i < a.nodes.len() implies is_kept(
        a.nodes[i],
        #[trigger] c.nodes[i],
    ) by {
        assert(is_kept(a.nodes[i], b.nodes[i]));
        lemma_submap_trans(a.nodes[i].children@, b.nodes[i].children@, c.nodes[i].children@);
    }
}

/// A part of a part of a map is a part of it.
proof fn lemma_submap_trans<K, V>(a: Map<K, V>, b: Map<K, V>, c: Map<K, V>)
    requires
        a.submap_of(b),
        b.submap_of(c),
    ensures
        a.submap_of(c),
{
    assert forall|k: K| #[trigger] a.dom().contains(k) implies c.dom().contains(k) && a[k]
        == c[k] by {
        assert(b.dom().contains(k));
    }
}

/// A change of one node keeps all others.
proof fn lemma_same_but_keeps<R: Scalar>(before: Graph<R>, after: Graph<R>, place: int)
    requires
        after.same_but(before, place),
        is_kept(before.nodes[place], after.nodes[place]),
    ensures
        after.keeps(before),
{
}

/// A new node for a state without one keeps all others.
proof fn lemma_ensured_keeps<R: Scalar, E: Environment<R>, A: Agent<R>>(
    before: Graph<R>,
    after: Graph<R>,
    env: E,
    agent: A,
    terminal_value: R,
    place: usize,
)
    requires
        after.has_ensured::<E, A>(before, env, agent, terminal_value, place),
    ensures
        after.keeps(before),
{
    if !before.table.contains_key(env.spec_hash()) {
        assert forall|i: int| 0 <= i < before.nodes.len() implies is_kept(
            before.nodes[i],
            #[trigger] after.nodes[i],
        ) by {
            assert(after.nodes.drop_last()[i] == after.nodes[i]);
        }
    }
}

/// Backing a path keeps all nodes.
proof fn lemma_backed_keeps<R: Scalar>(
    before: Graph<R>,
    after: Graph<R>,
    path: Seq<(u64, i32)>,
)
    requires
        after.has_backed_all(before, path),
    ensures
        after.keeps(before),
    decreases path.len(),
{
    if path.len() > 0 {
        let mid = choose|mid: Graph<R>|
            mid.has_backed_all(before, path.drop_first()) && #[trigger] after.has_backed(
                mid,
                path[0],
            );
        lemma_backed_keeps(before, mid, path.drop_first());
        if mid.table.contains_key(path[0].0) {
            lemma_same_but_keeps(mid, after, mid.table[path[0].0] as int);
        }
        lemma_keeps_trans(before, mid, after);
    }
}

/// A playout keeps all nodes.
proof fn lemma_played_keeps<R: Scalar, E: Environment<R>, A: Agent<R>>(
    before: Graph<R>,
    after: Graph<R>,
    env: E,
    agent: A,
    terminal_value: R,
    start: usize,
    path: Seq<(u64, i32)>,
    repeat: bool,
    mid: Graph<R>,
)
    requires
        after.has_played::<E, A>(before, env, agent, terminal_value, start, path, repeat, mid),
    ensures
        after.keeps(before),
{
    let game = game_at::<R, E>(env, path);
    if !repeat && !game.spec_done() {
        let parent = before.node_at(start, path.drop_last())->0;
        let leaf = choose|leaf: usize| #[trigger]
            mid.has_expanded::<E, A>(
                before,
                parent,
                path.last().1,
                game,
                agent,
                terminal_value,
                leaf,
            );
        let first = choose|first: Graph<R>| #[trigger]
            first.has_ensured::<E, A>(before, game, agent, terminal_value, leaf)
                && mid.has_linked(first, parent, path.last().1, leaf);
        lemma_ensured_keeps::<R, E, A>(before, first, game, agent, terminal_value, leaf);
        if !first.nodes[parent as int].children@.contains_key(path.last().1) {
            lemma_same_but_keeps(first, mid, parent as int);
        }
        lemma_keeps_trans(before, first, mid);
    }
    let inner = choose|inner: Graph<R>| #[trigger]
        after.has_backed_all(inner, path) && if repeat {
            inner.has_penalized(mid, path)
        } else {
            inner == mid
        };
    if repeat && mid.table.contains_key(path.last().0) {
        lemma_same_but_keeps(mid, inner, mid.table[path.last().0] as int);
    }
    lemma_keeps_trans(before, mid, inner);
    lemma_backed_keeps(inner, after, path);
    lemma_keeps_trans(before, inner, after);
}

/// Law: however long a search goes on, the states it knew keep their nodes, and the nodes their
/// priors, estimates and children.
pub proof fn law_search_keeps_nodes<R: Scalar, E: Environment<R>, A: Agent<R>>(
    before: Graph<R>,
    after: Graph<R>,
    env: E,
    agent: A,
    terminal_value: R,
    start: usize,
    playouts: nat,
)
    requires
        after.has_searched::<E, A>(before, env, agent, terminal_value, start, playouts),
    ensures
        after.keeps(before),
{
    let first = choose|first: Graph<R>| #[trigger]
        first.has_ensured::<E, A>(before, env, agent, terminal_value, start) && after.has_run::<
            E,
            A,
        >(first, env, agent, terminal_value, start, playouts);
    lemma_ensured_keeps::<R, E, A>(before, first, env, agent, terminal_value, start);
    lemma_run_keeps::<R, E, A>(first, after, env, agent, terminal_value, start, playouts);
    lemma_keeps_trans(before, first, after);
}

/// Playouts keep all nodes.
proof fn lemma_run_keeps<R: Scalar, E: Environment<R>, A: Agent<R>>(
    before: Graph<R>,
    after: Graph<R>,
    env: E,
    agent: A,
    terminal_value: R,
    start: usize,
    playouts: nat,
)
    requires
        after.has_run::<E, A>(before, env, agent, terminal_value, start, playouts),
    ensures
        after.keeps(before),
    decreases playouts,
{
    if playouts > 0 {
        let (last, path, repeat, mid) = choose|
            last: Graph<R>,
            path: Seq<(u64, i32)>,
            repeat: bool,
            mid: Graph<R>,
        |
            last.has_run::<E, A>(
                before,
                env,
                agent,
                terminal_value,
                start,
                (playouts - 1) as nat,
            ) && #[trigger] after.has_played::<E, A>(
                last,
                env,
                agent,
                terminal_value,
                start,
                path,
                repeat,
                mid,
            );
        lemma_run_keeps::<R, E, A>(
            before,
            last,
            env,
            agent,
            terminal_value,
            start,
            (playouts - 1) as nat,
        );
        lemma_played_keeps::<R, E, A>(
            last,
            after,
            env,
            agent,
            terminal_value,
            start,
            path,
            repeat,
            mid,
        );
        lemma_keeps_trans(before, last, after);
    }
}

/// A path without repetitions counts at most once at each node.
pub proof fn lemma_hits_once<R: Scalar>(g: Graph<R>, path: Seq<(u64, i32)>, place: int)
    requires
        g.wf(),
        forall|i: int, j: int|
            0 <= i < j < path.len() ==> (#[trigger] path[i]).0 != (#[trigger] path[j]).0,
    ensures
        g.hits(path, place) <= 1,
        g.hits(path, place) == 1 ==> exists|i: int|
            0 <= i < path.len() && g.table.contains_key((#[trigger] path[i]).0)
                && g.table[path[i].0] == place,
    decreases path.len(),
{
    if path.len() > 0 {
        let rest = path.drop_first();
        assert forall|i: int, j: int| 0 <= i < j < rest.len() implies (#[trigger] rest[i]).0 != (
        #[trigger] rest[j]).0 by {
            assert(rest[i] == path[i + 1]);
            assert(rest[j] == path[j + 1]);
        }
        lemma_hits_once(g, rest, place);
        if g.hits(rest, place) == 1 {
            let i = choose|i: int|
                0 <= i < rest.len() && g.table.contains_key((#[trigger] rest[i]).0)
                    && g.table[rest[i].0] == place;
            assert(path[i + 1] == rest[i]);
            assert(path[0].0 != path[i + 1].0);
        } else if g.hits(path, place) == 1 {
            assert(g.table.contains_key(path[0].0));
        }
    }
}

/// The states of a walked path are all different.
pub proof fn lemma_walk_is_distinct<R: Scalar, E: Environment<R>>(
    g: Graph<R>,
    env: E,
    start: usize,
    path: Seq<(u64, i32)>,
)
    requires
        g.is_walked::<E>(env, start, path),
    ensures
        forall|i: int, j: int|
            0 <= i < j < path.len() ==> (#[trigger] path[i]).0 != (#[trigger] path[j]).0,
    decreases path.len(),
{
    if path.len() > 0 {
        let init = path.drop_last();
        lemma_walk_is_distinct::<R, E>(g, env, start, init);
        assert forall|i: int, j: int| 0 <= i < j < path.len() implies (#[trigger] path[i]).0 != (
        #[trigger] path[j]).0 by {
            assert(init[i] == path[i]);
            if j < init.len() {
                assert(init[j] == path[j]);
            }
        }
    }
}

/// A visit adds at most 1 to what a node counts.
pub proof fn lemma_visit_load<R: Scalar>(n: Node<R>, m: Node<R>, action: i32)
    requires
        is_visited(n, m, action),
        n.load() < u32::MAX,
    ensures
        m.load() <= n.load() + 1,
{
    broadcast use vstd::std_specs::hash::group_hash_axioms;

    lemma_total_insert(
        n.edge_visits@,
        action,
        (count_at(n.edge_visits@, action) + 1) as u32,
    );
    lemma_total_insert(
        n.virtual_losses@,
        action,
        less_saturating(count_at(n.virtual_losses@, action), 1),
    );
}

/// A link adds 1 to what a node counts.
pub proof fn lemma_link_load<R: Scalar>(n: Node<R>, m: Node<R>, action: i32, child: usize)
    requires
        is_linked(n, m, action, child),
        n.load() < u32::MAX,
    ensures
        m.load() == n.load() + 1,
{
    broadcast use vstd::std_specs::hash::group_hash_axioms;

    lemma_total_insert(
        n.edge_visits@,
        action,
        (count_at(n.edge_visits@, action) + 1) as u32,
    );
}

/// A fresh node counts nothing.
pub proof fn lemma_fresh_load<R: Scalar>(n: Node<R>, priors: Map<i32, R>, value: R)
    requires
        is_fresh(n, priors, value),
    ensures
        n.load() == 0,
{
    broadcast use vstd::std_specs::hash::group_hash_axioms;

    lemma_total_zero(n.edge_visits@);
    lemma_total_zero(n.virtual_losses@);
}

/// A count is at most what the node counts in all.
pub proof fn lemma_count_in_load<R: Scalar>(n: Node<R>, action: i32)
    ensures
        count_at(n.edge_visits@, action) <= n.load(),
        count_at(n.virtual_losses@, action) <= n.load(),
{
    broadcast use vstd::std_specs::hash::group_hash_axioms;

    lemma_total_insert(n.edge_visits@, action, 0u32);
    lemma_total_insert(n.virtual_losses@, action, 0u32);
}

} // verus!
