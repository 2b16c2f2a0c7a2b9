//! Looking into a search: what it believes of the actions of a node, and the line it would play.

use crate::environment::{Act, Environment};
use crate::mcts::MCTS;
use crate::node::{Node, NodeView};
use crate::reward::{done_score, not_done_score, spec_done_score, spec_not_done_score};
use crate::scalar::{one, plus, times, zero, Binary, Scalar};
use crate::tree::Tree;
use std::collections::HashMap;
use vstd::prelude::*;

verus! {

/// What the search believes of an action.
pub struct EdgeStat<A, R> {
    pub action: A,
    pub prior: R,
    pub visits: usize,
    /// The value of the child, or of the node itself where there is none yet.
    pub q: R,
    pub expanded: bool,
    pub terminal: bool,
}

/// What the search believes of the valid action at `i` of a node.
pub open spec fn spec_edge_stat<A: Act, R: Scalar>(
    tree: Tree<A, R>,
    node: NodeView<A, R>,
    i: int,
) -> EdgeStat<A, R> {
    let a = node.valid_actions[i];
    let k = a.spec_index() as int;
    let known = match node.child(a) {
        Some(c) => tree.contains_key(c),
        None => false,
    };
    let child = node.child(a)->0;
    EdgeStat {
        action: a,
        prior: node.prior_probs[k],
        visits: node.edge_visits[k],
        q: if known {
            tree[child].value
        } else {
            node.value
        },
        expanded: known,
        terminal: known && tree[child].terminal_state,
    }
}

/// What the search believes of the valid actions of a node, in their order.
pub open spec fn spec_edge_rows<A: Act, R: Scalar>(
    tree: Tree<A, R>,
    node: NodeView<A, R>,
) -> Seq<EdgeStat<A, R>> {
    Seq::new(node.valid_actions.len(), |i: int| spec_edge_stat(tree, node, i))
}

/// Where a row goes in a ranking: behind all rows with at least as many visits.
pub open spec fn rank_of<A, R>(ranked: Seq<EdgeStat<A, R>>, visits: usize) -> int
    decreases ranked.len(),
{
    if ranked.len() == 0 {
        0
    } else if ranked.last().visits >= visits {
        ranked.len() as int
    } else {
        rank_of(ranked.drop_last(), visits)
    }
}

/// Rows by their visits, the most first; rows with as many visits stay in their order.
pub open spec fn ranking<A, R>(rows: Seq<EdgeStat<A, R>>) -> Seq<EdgeStat<A, R>>
    decreases rows.len(),
{
    if rows.len() == 0 {
        rows
    } else {
        let init = ranking(rows.drop_last());
        init.insert(rank_of(init, rows.last().visits), rows.last())
    }
}

/// The place of a row is one of the ranking.
proof fn lemma_rank_range<A, R>(ranked: Seq<EdgeStat<A, R>>, visits: usize)
    ensures
        0 <= rank_of(ranked, visits) <= ranked.len(),
        forall|i: int|
            rank_of(ranked, visits) <= i < ranked.len() ==> (#[trigger] ranked[i]).visits < visits,
        rank_of(ranked, visits) > 0 ==> ranked[rank_of(ranked, visits) - 1].visits >= visits,
    decreases ranked.len(),
{
    if ranked.len() > 0 && ranked.last().visits < visits {
        lemma_rank_range(ranked.drop_last(), visits);
        assert forall|i: int| rank_of(ranked, visits) <= i < ranked.len() implies (
        #[trigger] ranked[i]).visits < visits by {
            if i < ranked.len() - 1 {
                assert(ranked.drop_last()[i] == ranked[i]);
            }
        }
    }
}

/// Law: a ranking has the rows it was made of, and no row is behind one with fewer visits.
pub proof fn law_ranking_sorts<A, R>(rows: Seq<EdgeStat<A, R>>)
    ensures
        ranking(rows).to_multiset() == rows.to_multiset(),
        ranking(rows).len() == rows.len(),
        forall|i: int, j: int|
            0 <= i < j < rows.len() ==> (#[trigger] ranking(rows)[i]).visits >= (
            #[trigger] ranking(rows)[j]).visits,
    decreases rows.len(),
{
    broadcast use vstd::seq_lib::group_to_multiset_ensures;

    if rows.len() > 0 {
        let init = ranking(rows.drop_last());
        let last = rows.last();
        let k = rank_of(init, last.visits);
        law_ranking_sorts(rows.drop_last());
        lemma_rank_range(init, last.visits);
        vstd::seq_lib::to_multiset_insert(init, k, last);
        assert(rows =~= rows.drop_last().push(last));
        assert(rows.to_multiset() =~= rows.drop_last().to_multiset().insert(last));
        let all = ranking(rows);
        assert forall|i: int, j: int| 0 <= i < j < rows.len() implies (#[trigger] all[i]).visits >= (
        #[trigger] all[j]).visits by {
            let oi = if i < k {
                i
            } else {
                i - 1
            };
            let oj = if j < k {
                j
            } else {
                j - 1
            };
            if i == k {
                assert(all[j] == init[oj]);
            } else if j == k {
                assert(all[i] == init[oi]);
                assert(init[oi].visits >= init[k - 1].visits);
            } else {
                assert(all[i] == init[oi] && all[j] == init[oj]);
            }
        }
    }
}

/// The first valid action with the most visits, if any has one.
pub open spec fn spec_most_visited<A: Act, R: Scalar>(node: NodeView<A, R>, k: nat) -> Option<A>
    decreases k,
{
    if k == 0 {
        None
    } else {
        let best = spec_most_visited(node, (k - 1) as nat);
        let a = node.valid_actions[k - 1];
        let v = node.edge_visits[a.spec_index() as int];
        match best {
            Some(b) if v <= node.edge_visits[b.spec_index() as int] => Some(b),
            None if v == 0 => None,
            _ => Some(a),
        }
    }
}

/// What [`MCTS::principal_variation`] gives.
pub open spec fn spec_principal_variation<A: Act, R: Scalar>(
    tree: Tree<A, R>,
    node: NodeView<A, R>,
    max_depth: nat,
) -> Seq<A>
    decreases max_depth,
{
    if max_depth == 0 {
        Seq::empty()
    } else {
        match spec_most_visited(node, node.valid_actions.len()) {
            None => Seq::empty(),
            Some(a) => match node.child(a) {
                Some(c) if tree.contains_key(c) && !tree[c].terminal_state => seq![a]
                    + spec_principal_variation(tree, tree[c], (max_depth - 1) as nat),
                _ => seq![a],
            },
        }
    }
}

/// The most visited action is a valid one.
proof fn lemma_most_visited<A: Act, R: Scalar>(node: NodeView<A, R>, k: nat)
    requires
        k <= node.valid_actions.len(),
    ensures
        match spec_most_visited(node, k) {
            Some(a) => node.valid_actions.contains(a) && node.edge_visits[a.spec_index() as int]
                > 0,
            None => true,
        },
    decreases k,
{
    if k > 0 {
        lemma_most_visited(node, (k - 1) as nat);
        assert(node.valid_actions.contains(node.valid_actions[k - 1]));
    }
}

/// Law: every action of the line is one that was visited, and the line is no longer than asked
/// for.
pub proof fn law_line_was_visited<A: Act, R: Scalar>(
    tree: Tree<A, R>,
    node: NodeView<A, R>,
    max_depth: nat,
)
    ensures
        spec_principal_variation(tree, node, max_depth).len() <= max_depth,
        spec_principal_variation(tree, node, max_depth).len() > 0 ==> ({
            let first = spec_principal_variation(tree, node, max_depth)[0];
            &&& node.valid_actions.contains(first)
            &&& node.edge_visits[first.spec_index() as int] > 0
        }),
    decreases max_depth,
{
    if max_depth > 0 {
        lemma_most_visited(node, node.valid_actions.len());
        match spec_most_visited(node, node.valid_actions.len()) {
            None => {},
            Some(a) => {
                match node.child(a) {
                    Some(c) if tree.contains_key(c) && !tree[c].terminal_state => {
                        law_line_was_visited(tree, tree[c], (max_depth - 1) as nat);
                    },
                    _ => {},
                }
            },
        }
    }
}

/// The first valid action with the most visits, if any has one.
fn most_visited_of<A: Act, R: Scalar>(node: &Node<A, R>) -> (r: Option<A>)
    requires
        node@.sized(),
    ensures
        r == spec_most_visited(node@, node@.valid_actions.len()),
{
    let mut best: Option<A> = None;
    let mut top: usize = 0;
    let mut i: usize = 0;
    while i < node.valid_actions.len()
        invariant
            i <= node.valid_actions@.len(),
            node@.sized(),
            best == spec_most_visited(node@, i as nat),
            match best {
                Some(b) => top == node.edge_visits@[b.spec_index() as int] && top > 0,
                None => top == 0,
            },
        decreases node.valid_actions.len() - i,
    {
        let a: A = node.valid_actions[i];
        assert(node@.valid_actions[i as int].spec_index() < node@.num_actions);
        let v: usize = node.edge_visits[a.to_action_index()];
        if v > top {
            best = Some(a);
            top = v;
        }
        i += 1;
    }
    best
}

impl<E: Environment, R: Scalar> MCTS<E, R> {
    /// What the search believes of the valid action at `i`.
    fn edge_stat(&self, node: &Node<E::Act, R>, i: usize) -> (r: EdgeStat<E::Act, R>)
        requires
            node@.sized(),
            i < node@.valid_actions.len(),
        ensures
            r == spec_edge_stat(self.tree(), node@, i as int),
    {
        let action: E::Act = node.valid_actions[i];
        assert(node@.valid_actions[i as int].spec_index() < node@.num_actions);
        let k: usize = action.to_action_index();
        let prior: R = node.prior_probs[k].dup();
        let visits: usize = node.edge_visits[k];
        if let Some(c) = node.children[k] {
            if let Some(child) = self.get_node_immut(c) {
                return EdgeStat {
                    action,
                    prior,
                    visits,
                    q: child.value.dup(),
                    expanded: true,
                    terminal: child.terminal_state,
                };
            }
        }
        EdgeStat { action, prior, visits, q: node.value.dup(), expanded: false, terminal: false }
    }

    /// Per-edge search statistics at `node`, the most visited actions first. `top_k` limits
    /// their number; 0 gives all.
    pub fn edge_stats(&self, node: &Node<E::Act, R>, top_k: usize) -> (r: Vec<EdgeStat<E::Act, R>>)
        requires
            node@.sized(),
        ensures
            ({
                let all = ranking(spec_edge_rows(self.tree(), node@));
                r@ == (if top_k > 0 && top_k < all.len() {
                    all.take(top_k as int)
                } else {
                    all
                })
            }),
    {
        let ghost rows = spec_edge_rows(self.tree(), node@);
        let mut ranked: Vec<EdgeStat<E::Act, R>> = Vec::with_capacity(node.valid_actions.len());
        let mut i: usize = 0;
        assert(rows.take(0).len() == 0);
        while i < node.valid_actions.len()
            invariant
                i <= node.valid_actions@.len(),
                node@.sized(),
                rows == spec_edge_rows(self.tree(), node@),
                ranked@ == ranking(rows.take(i as int)),
                ranked@.len() == i,
            decreases node.valid_actions.len() - i,
        {
            let row: EdgeStat<E::Act, R> = self.edge_stat(node, i);
            assert(row == rows[i as int]);
            assert(rows.take(i + 1).drop_last() =~= rows.take(i as int));
            let mut k: usize = ranked.len();
            assert(ranked@.take(k as int) =~= ranked@);
            while k > 0 && ranked[k - 1].visits < row.visits
                invariant
                    k <= ranked@.len(),
                    rank_of(ranked@, row.visits) == rank_of(ranked@.take(k as int), row.visits),
                decreases k,
            {
                assert(ranked@.take(k as int).drop_last() =~= ranked@.take(k - 1));
                assert(ranked@.take(k as int).last() == ranked@[k - 1]);
                k -= 1;
            }
            proof {
                if k > 0 {
                    assert(ranked@.take(k as int).last() == ranked@[k - 1]);
                }
                assert(rank_of(ranked@, row.visits) == k);
            }
            ranked.insert(k, row);
            i += 1;
        }
        assert(rows.take(i as int) =~= rows);
        if top_k > 0 && top_k < ranked.len() {
            ranked.truncate(top_k);
        }
        ranked
    }

    /// The line from `node` that follows the most visited actions through the tree, up to
    /// `max_depth` actions.
    pub fn principal_variation(&self, node: &Node<E::Act, R>, max_depth: usize) -> (r: Vec<E::Act>)
        requires
            node@.sized(),
            self.wf(),
        ensures
            r@ == spec_principal_variation(self.tree(), node@, max_depth as nat),
    {
        let mut line: Vec<E::Act> = Vec::new();
        let mut cur: &Node<E::Act, R> = node;
        let ghost all = spec_principal_variation(self.tree(), node@, max_depth as nat);
        let mut left: usize = max_depth;
        assert(line@ + spec_principal_variation(self.tree(), cur@, left as nat) =~= all);
        while left > 0
            invariant_except_break
                cur@.sized(),
                line@ + spec_principal_variation(self.tree(), cur@, left as nat) == all,
            invariant
                self.wf(),
            ensures
                line@ == all,
            decreases left,
        {
            let a: E::Act = match most_visited_of(cur) {
                Some(a) => a,
                None => {
                    assert(line@ =~= all);
                    break ;
                },
            };
            proof {
                lemma_most_visited(cur@, cur@.valid_actions.len());
                let p = choose|p: int| 0 <= p < cur@.valid_actions.len() && cur@.valid_actions[p] == a;
                assert(cur@.valid_actions[p].spec_index() < cur@.num_actions);
            }
            let ghost before = line@;
            line.push(a);
            assert(before + seq![a] =~= line@);
            let child: Option<&Node<E::Act, R>> = match cur.children[a.to_action_index()] {
                Some(c) => self.get_node_immut(c),
                None => None,
            };
            match child {
                Some(next) => {
                    if next.terminal_state {
                        assert(line@ =~= all);
                        break ;
                    }
                    let ghost rest = spec_principal_variation(
                        self.tree(),
                        next@,
                        (left - 1) as nat,
                    );
                    assert(before + (seq![a] + rest) =~= line@ + rest);
                    cur = next;
                },
                None => {
                    assert(line@ =~= all);
                    break ;
                },
            }
            left -= 1;
            assert(left == 0 ==> line@ + spec_principal_variation(self.tree(), cur@, 0) =~= line@);
        }
        line
    }
}

/// The priors of the valid actions of a node.
pub fn valid_priors<A: Act, R: Scalar>(node: &Node<A, R>) -> (r: HashMap<A, R>)
    requires
        node@.sized(),
    ensures
        r@ == Map::new(
            |a: A| node@.valid_actions.contains(a),
            |a: A| node@.prior_probs[a.spec_index() as int],
        ),
{
    broadcast use vstd::std_specs::hash::group_hash_axioms;

    proof {
        A::key_model();
    }
    let mut out: HashMap<A, R> = HashMap::new();
    let mut i: usize = 0;
    while i < node.valid_actions.len()
        invariant
            vstd::std_specs::hash::obeys_key_model::<A>(),
            i <= node.valid_actions@.len(),
            node@.sized(),
            forall|a: A|
                out@.contains_key(a) <==> exists|j: int|
                    0 <= j < i && #[trigger] node.valid_actions@[j] == a,
            forall|a: A| #[trigger]
                out@.contains_key(a) ==> out@[a] == node@.prior_probs[a.spec_index() as int],
        decreases node.valid_actions.len() - i,
    {
        let a: A = node.valid_actions[i];
        assert(node@.valid_actions[i as int].spec_index() < node@.num_actions);
        out.insert(a, node.prior_probs[a.to_action_index()].dup());
        i += 1;
    }
    assert(out@ =~= Map::new(
        |a: A| node@.valid_actions.contains(a),
        |a: A| node@.prior_probs[a.spec_index() as int],
    ));
    out
}

/// The visits of the valid actions of a node.
pub open spec fn spec_valid_visits<A: Act, R>(node: NodeView<A, R>) -> Map<A, usize> {
    Map::new(
        |a: A| node.valid_actions.contains(a),
        |a: A| node.edge_visits[a.spec_index() as int],
    )
}

/// The visits of the valid actions of a node.
pub fn valid_visits<A: Act, R: Scalar>(node: &Node<A, R>) -> (r: HashMap<A, usize>)
    requires
        node@.sized(),
    ensures
        r@ == spec_valid_visits(node@),
{
    broadcast use vstd::std_specs::hash::group_hash_axioms;

    proof {
        A::key_model();
    }
    let mut out: HashMap<A, usize> = HashMap::new();
    let mut i: usize = 0;
    while i < node.valid_actions.len()
        invariant
            vstd::std_specs::hash::obeys_key_model::<A>(),
            i <= node.valid_actions@.len(),
            node@.sized(),
            forall|a: A|
                out@.contains_key(a) <==> exists|j: int|
                    0 <= j < i && #[trigger] node.valid_actions@[j] == a,
            forall|a: A| #[trigger]
                out@.contains_key(a) ==> out@[a] == node@.edge_visits[a.spec_index() as int],
        decreases node.valid_actions.len() - i,
    {
        let a: A = node.valid_actions[i];
        assert(node@.valid_actions[i as int].spec_index() < node@.num_actions);
        out.insert(a, node.edge_visits[a.to_action_index()]);
        i += 1;
    }
    assert(out@ =~= Map::new(
        |a: A| node@.valid_actions.contains(a),
        |a: A| node@.edge_visits[a.spec_index() as int],
    ));
    out
}

/// How a search values a reached goal.
#[derive(Clone, Copy, Debug, PartialEq, Eq, Structural)]
pub enum TerminalMode {
    /// 1 for beating the reference, 0 for a tie, -1 for less.
    Ternary,
    /// The margin over the reference.
    Margin,
    /// The margin over the reference, in the upper half of the range.
    Band,
}

/// What [`mode_value`] gives.
pub open spec fn spec_mode_value<R: Scalar>(
    mode: TerminalMode,
    done: bool,
    reference_depth: R,
    depth: R,
    tau: R,
) -> R {
    if !done {
        spec_not_done_score()
    } else {
        match mode {
            TerminalMode::Band => plus(
                R::spec_decimal(5, -1),
                times(R::spec_decimal(5, -1), spec_done_score(reference_depth, depth, tau)),
            ),
            TerminalMode::Margin => spec_done_score(reference_depth, depth, tau),
            TerminalMode::Ternary => if R::spec_less(depth, reference_depth) {
                one()
            } else if R::spec_same(depth, reference_depth) {
                zero()
            } else {
                R::spec_decimal(-1, 0)
            },
        }
    }
}

/// The value of a state at the end of a line of play, in one of the modes.
pub fn mode_value<R: Scalar>(
    mode: TerminalMode,
    done: bool,
    reference_depth: &R,
    depth: &R,
    tau: &R,
) -> (r: R)
    ensures
        r == spec_mode_value(mode, done, *reference_depth, *depth, *tau),
{
    if !done {
        return not_done_score();
    }
    match mode {
        TerminalMode::Band => R::binary(
            Binary::Plus,
            &R::decimal(5, -1),
            &R::binary(
                Binary::Times,
                &R::decimal(5, -1),
                &done_score(reference_depth, depth, tau),
            ),
        ),
        TerminalMode::Margin => done_score(reference_depth, depth, tau),
        TerminalMode::Ternary => if R::less(depth, reference_depth) {
            R::decimal(1, 0)
        } else if R::same(depth, reference_depth) {
            R::decimal(0, 0)
        } else {
            R::decimal(-1, 0)
        },
    }
}

/// The mode that two switches stand for; the band goes before the margin.
pub fn terminal_mode(band: bool, margin: bool) -> (r: TerminalMode)
    ensures
        r == (if band {
            TerminalMode::Band
        } else if margin {
            TerminalMode::Margin
        } else {
            TerminalMode::Ternary
        }),
{
    if band {
        TerminalMode::Band
    } else if margin {
        TerminalMode::Margin
    } else {
        TerminalMode::Ternary
    }
}

} // verus!
