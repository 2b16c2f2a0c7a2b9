//! What an inspected search tells: the rows of its root, their order, and the line of play that it
//! expects.

use crate::environment::Act;
use crate::inspect::{
    rank_of, ranking, spec_edge_rows, spec_mode_value, spec_most_visited,
    spec_principal_variation, spec_valid_visits, EdgeStat, TerminalMode,
};
use crate::node::NodeView;
use crate::pruning_laws::is_first_most_visited;
use crate::reward::spec_done_score;
use crate::scalar::{plus, times, Scalar};
use crate::tree::Tree;
use vstd::prelude::*;

verus! {

/// Law: a row tells of a valid action its prior, its visits, and the value of its child, or of the
/// node where the child is not in the tree.
pub proof fn law_rows_tell_of_children<A: Act, R: Scalar>(
    tree: Tree<A, R>,
    node: NodeView<A, R>,
    i: int,
)
    requires
        node.sized(),
        0 <= i < node.valid_actions.len(),
    ensures
        ({
            let rows = spec_edge_rows(tree, node);
            let k = node.valid_actions[i].spec_index() as int;
            let known = node.children[k] is Some && tree.contains_key(node.children[k]->0);
            &&& rows.len() == node.valid_actions.len()
            &&& rows[i].action == node.valid_actions[i]
            &&& rows[i].prior == node.prior_probs[k]
            &&& rows[i].visits == node.edge_visits[k]
            &&& rows[i].expanded == known
            &&& known ==> rows[i].q == tree[node.children[k]->0].value
            &&& known ==> rows[i].terminal == tree[node.children[k]->0].terminal_state
            &&& !known ==> rows[i].q == node.value && !rows[i].terminal
        }),
{
}

proof fn lemma_filter_none<A>(s: Seq<A>, f: spec_fn(A) -> bool)
    requires
        forall|i: int| 0 <= i < s.len() ==> !f(#[trigger] s[i]),
    ensures
        s.filter(f).len() == 0,
    decreases s.len(),
{
    reveal(Seq::filter);
    if s.len() > 0 {
        assert forall|i: int| 0 <= i < s.drop_last().len() implies !f(
            #[trigger] s.drop_last()[i],
        ) by {
            assert(s[i] == s.drop_last()[i]);
        }
        lemma_filter_none(s.drop_last(), f);
        assert(!f(s[s.len() - 1]));
    }
}

proof fn lemma_filter_one<A>(x: A, f: spec_fn(A) -> bool)
    ensures
        seq![x].filter(f) == (if f(x) {
            seq![x]
        } else {
            Seq::<A>::empty()
        }),
{
    reveal_with_fuel(Seq::filter, 2);
    let s = seq![x];
    assert(s.drop_last() =~= Seq::<A>::empty());
    assert(s.filter(f) =~= (if f(x) {
        seq![x]
    } else {
        Seq::<A>::empty()
    }));
}

proof fn lemma_rank_behind<A, R>(ranked: Seq<EdgeStat<A, R>>, visits: usize)
    ensures
        0 <= rank_of(ranked, visits) <= ranked.len(),
        forall|i: int|
            rank_of(ranked, visits) <= i < ranked.len() ==> (#[trigger] ranked[i]).visits < visits,
    decreases ranked.len(),
{
    if ranked.len() > 0 && ranked.last().visits < visits {
        lemma_rank_behind(ranked.drop_last(), visits);
        assert forall|i: int| rank_of(ranked, visits) <= i < ranked.len() implies (
        #[trigger] ranked[i]).visits < visits by {
            if i < ranked.len() - 1 {
                assert(ranked.drop_last()[i] == ranked[i]);
            }
        }
    }
}

/// Law: rows with as many visits stay in their order in a ranking.
pub proof fn law_ranking_is_stable<A, R>(rows: Seq<EdgeStat<A, R>>, visits: usize)
    ensures
        ranking(rows).filter(|r: EdgeStat<A, R>| r.visits == visits) == rows.filter(
            |r: EdgeStat<A, R>| r.visits == visits,
        ),
    decreases rows.len(),
{
    let f = |r: EdgeStat<A, R>| r.visits == visits;
    if rows.len() > 0 {
        let init = ranking(rows.drop_last());
        let x = rows.last();
        let k = rank_of(init, x.visits);
        law_ranking_is_stable(rows.drop_last(), visits);
        lemma_rank_behind(init, x.visits);
        let a = init.take(k);
        let b = init.skip(k);
        assert(init =~= a + b);
        assert(ranking(rows) =~= a + seq![x] + b);
        Seq::filter_distributes_over_add(a, b, f);
        Seq::filter_distributes_over_add(a + seq![x], b, f);
        Seq::filter_distributes_over_add(a, seq![x], f);
        lemma_filter_one(x, f);
        assert(rows =~= rows.drop_last() + seq![x]);
        Seq::filter_distributes_over_add(rows.drop_last(), seq![x], f);
        if f(x) {
            assert forall|i: int| 0 <= i < b.len() implies !f(#[trigger] b[i]) by {
                assert(b[i] == init[k + i]);
            }
            lemma_filter_none(b, f);
            assert(ranking(rows).filter(f) =~= rows.filter(f));
        } else {
            assert(ranking(rows).filter(f) =~= rows.filter(f));
        }
    }
}

proof fn lemma_most_visited_first<A: Act, R: Scalar>(node: NodeView<A, R>, k: nat, m: int)
    requires
        k <= node.valid_actions.len(),
        is_first_most_visited(node, m),
        node.edge_visits[node.valid_actions[m].spec_index() as int] > 0,
    ensures
        m < k ==> spec_most_visited(node, k) == Some(node.valid_actions[m]),
        m >= k ==> match spec_most_visited(node, k) {
            Some(a) => node.edge_visits[a.spec_index() as int]
                < node.edge_visits[node.valid_actions[m].spec_index() as int],
            None => true,
        },
    decreases k,
{
    if k > 0 {
        lemma_most_visited_first(node, (k - 1) as nat, m);
        let a = node.valid_actions[k - 1];
        assert(node.edge_visits[a.spec_index() as int]
            <= node.edge_visits[node.valid_actions[m].spec_index() as int]);
    }
}

proof fn lemma_nothing_visited<A: Act, R: Scalar>(node: NodeView<A, R>, k: nat)
    requires
        k <= node.valid_actions.len(),
        forall|i: int|
            0 <= i < node.valid_actions.len() ==> node.edge_visits[(
            #[trigger] node.valid_actions[i]).spec_index() as int] == 0,
    ensures
        spec_most_visited(node, k) is None,
    decreases k,
{
    if k > 0 {
        lemma_nothing_visited(node, (k - 1) as nat);
        assert(node.edge_visits[node.valid_actions[k - 1].spec_index() as int] == 0);
    }
}

/// Law: the line that a search expects begins with the first of the most visited actions and goes
/// on with the line from its child. It ends where the child is not in the tree or at its end, where
/// nothing was visited, and at the length asked for.
pub proof fn law_line_goes_on_below<A: Act, R: Scalar>(
    tree: Tree<A, R>,
    node: NodeView<A, R>,
    max_depth: nat,
    m: int,
)
    requires
        node.sized(),
        is_first_most_visited(node, m),
        max_depth > 0,
    ensures
        ({
            let a = node.valid_actions[m];
            let k = a.spec_index() as int;
            let line = spec_principal_variation(tree, node, max_depth);
            let child = node.children[k];
            &&& node.edge_visits[k] == 0 ==> line.len() == 0
            &&& node.edge_visits[k] > 0 ==> line[0] == a
            &&& node.edge_visits[k] > 0 ==> line.skip(1) == (if child is Some && tree.contains_key(
                child->0,
            ) && !tree[child->0].terminal_state {
                spec_principal_variation(tree, tree[child->0], (max_depth - 1) as nat)
            } else {
                Seq::<A>::empty()
            })
        }),
        spec_principal_variation(tree, node, 0).len() == 0,
{
    let a = node.valid_actions[m];
    let k = a.spec_index() as int;
    let line = spec_principal_variation(tree, node, max_depth);
    if node.edge_visits[k] > 0 {
        lemma_most_visited_first(node, node.valid_actions.len(), m);
        let child = node.children[k];
        if child is Some && tree.contains_key(child->0) && !tree[child->0].terminal_state {
            let rest = spec_principal_variation(tree, tree[child->0], (max_depth - 1) as nat);
            assert(line == seq![a] + rest);
            assert(line.skip(1) =~= rest);
        } else {
            assert(line == seq![a]);
            assert(line.skip(1) =~= Seq::<A>::empty());
        }
    } else {
        lemma_nothing_visited(node, node.valid_actions.len());
    }
}

/// Law: the visits of a node are told for its valid actions, and for no other.
pub proof fn law_visits_of_valid_actions<A: Act, R: Scalar>(node: NodeView<A, R>, a: A)
    ensures
        spec_valid_visits(node).contains_key(a) <==> node.valid_actions.contains(a),
        node.valid_actions.contains(a) ==> spec_valid_visits(node)[a]
            == node.edge_visits[a.spec_index() as int],
{
}

/// Law: a state that is not at its goal is worth -1 in every mode. A reached goal is worth 1, 0 or
/// -1 as it is shallower than the reference, as deep or neither, or its score, or its score brought
/// to the upper half.
pub proof fn law_modes_of_terminal_values<R: Scalar>(
    mode: TerminalMode,
    reference: R,
    depth: R,
    tau: R,
)
    ensures
        spec_mode_value(mode, false, reference, depth, tau) == R::spec_decimal(-1, 0),
        spec_mode_value(TerminalMode::Margin, true, reference, depth, tau) == spec_done_score(
            reference,
            depth,
            tau,
        ),
        spec_mode_value(TerminalMode::Band, true, reference, depth, tau) == plus(
            R::spec_decimal(5, -1),
            times(R::spec_decimal(5, -1), spec_done_score(reference, depth, tau)),
        ),
        R::spec_less(depth, reference) ==> spec_mode_value(
            TerminalMode::Ternary,
            true,
            reference,
            depth,
            tau,
        ) == R::spec_decimal(1, 0),
        !R::spec_less(depth, reference) && R::spec_same(depth, reference) ==> spec_mode_value(
            TerminalMode::Ternary,
            true,
            reference,
            depth,
            tau,
        ) == R::spec_decimal(0, 0),
        !R::spec_less(depth, reference) && !R::spec_same(depth, reference) ==> spec_mode_value(
            TerminalMode::Ternary,
            true,
            reference,
            depth,
            tau,
        ) == R::spec_decimal(-1, 0),
{
}

} // verus!
