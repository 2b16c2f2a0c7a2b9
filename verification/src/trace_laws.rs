//! What the steps of a search leave in its tree: the root, the leaves and the paths to them.

use crate::advance::next_root;
use crate::environment::{Act, Environment};
use crate::evaluator::{is_line, state_after};
use crate::flight::{lemma_backpropagated, nodes_wf, path_in, simple, Path};
use crate::inference::Oracle;
use crate::mcts::{new_node, on_path};
use crate::node::{NodeId, NodeView};
use crate::rounds::{
    are_picks, are_replies, are_rounds, is_pick, is_reply, is_round, is_run_in_rounds, is_whole,
    pick_ends, rounds_from, rounds_of, Lead, Pick, Round,
};
use crate::run::rules_of;
use crate::scalar::{over, plus, Scalar};
use crate::search::{
    backpropagated, is_playout, lemma_with_losses, path_end, sound, with_losses,
};
use crate::search_laws::{
    law_playout_is_a_line_of_play, law_return_costs_its_edge, law_way_down_leaves_one_loss,
};
use crate::trace::{
    are_answers, are_steps, are_waves, is_expanded, is_full, is_rooted, is_searched, is_settled,
    is_step, is_wave, path_ends, selected, Rules, Step, Wave,
};
use crate::tree::{spec_normalize_prior, Tree, Tuning};
use vstd::prelude::*;

verus! {

/// Law: a root without a node gets one from an answer to its state alone, with the prior cut down
/// to its actions; a root with a node stays as it is. No other node changes.
pub proof fn law_root_gets_its_answer<E: Environment, R: Scalar>(
    oracle: Oracle<E::Act, R>,
    before: Tree<E::Act, R>,
    after: Tree<E::Act, R>,
    root: NodeId,
    id: NodeId,
)
    requires
        is_rooted::<E, R>(oracle, before, after, root),
    ensures
        after.contains_key(root),
        id != root ==> after.contains_key(id) == before.contains_key(id) && after[id] == before[id],
        before.contains_key(root) ==> after[root] == before[root],
        !before.contains_key(root) ==> exists|priors: Map<E::Act, R>, value: R| #[trigger]
            (oracle.answers)(seq![root], seq![(priors, value)]) && new_node::<E, R>(
                after[root],
                root,
                spec_normalize_prior(priors, E::spec_actions(root)),
                value,
            ),
{
    if !before.contains_key(root) {
        let (priors, value) = choose|priors: Map<E::Act, R>, value: R| #[trigger]
            new_node::<E, R>(
                after[root],
                root,
                spec_normalize_prior(priors, E::spec_actions(root)),
                value,
            ) && (oracle.answers)(seq![root], seq![(priors, value)]) && after == before.insert(
                root,
                after[root],
            );
        assert((oracle.answers)(seq![root], seq![(priors, value)]));
    }
}

/// Law: a playout that waits for an answer has left one virtual loss on each edge of its path, and
/// no visit yet; every other node is as it was.
pub proof fn law_waiting_playout_holds_losses<E: Environment, R: Scalar>(
    rules: Rules<E::Act, R>,
    before: Tree<E::Act, R>,
    path: Path<E::Act>,
    after: Tree<E::Act, R>,
    i: int,
    id: NodeId,
)
    requires
        is_step::<E, R>(rules, before, Step::Select(path), after),
        0 <= i < path.len(),
        before[path[i].0].wf(),
    ensures
        path[0].0 == rules.root,
        !E::spec_done(path_end::<E>(rules.root, path)),
        ({
            let k = path[i].1.spec_index() as int;
            let x = before[path[i].0];
            let y = after[path[i].0];
            &&& y.virtual_losses == x.virtual_losses.update(k, (x.virtual_losses[k] + 1) as usize)
            &&& y.edge_visits == x.edge_visits
            &&& y.value == x.value
            &&& y.children == x.children
        }),
        after.contains_key(id) == before.contains_key(id),
        (forall|j: int| 0 <= j < path.len() ==> (#[trigger] path[j]).0 != id) ==> after[id]
            == before[id],
{
    let node = before[path[i].0];
    let m = node.valid_actions.index_of(path[i].1);
    assert(node.valid_actions[m] == path[i].1);
    law_way_down_leaves_one_loss(before, path, i, id);
}

/// Law: a settled playout has the state at its end in the tree, as a new node of its answer if it
/// was not there, and linked to the node before it, unless that had a child for the action. Each
/// edge of the path has one visit more and one virtual loss less.
pub proof fn law_answer_reaches_the_tree<E: Environment, R: Scalar>(
    before: Tree<E::Act, R>,
    after: Tree<E::Act, R>,
    root: NodeId,
    path: Path<E::Act>,
    repeat: bool,
    priors: Map<E::Act, R>,
    value: R,
    i: int,
)
    requires
        is_settled::<E, R>(before, after, root, path, repeat, priors, value),
        simple(path),
        0 <= i < path.len(),
        forall|j: int|
            0 <= j < path.len() ==> before.contains_key((#[trigger] path[j]).0)
                && before[path[j].0].sized() && path[j].1.spec_index()
                < before[path[j].0].num_actions,
        forall|j: int| 0 <= j < path.len() ==> (#[trigger] path[j]).0 != path_end::<E>(root, path),
    ensures
        ({
            let leaf = path_end::<E>(root, path);
            let k = path[i].1.spec_index() as int;
            let x = before[path[i].0];
            let y = after[path[i].0];
            &&& after.contains_key(leaf)
            &&& before.contains_key(leaf) ==> after[leaf] == before[leaf]
            &&& !before.contains_key(leaf) ==> new_node::<E, R>(
                after[leaf],
                leaf,
                spec_normalize_prior(priors, E::spec_actions(leaf)),
                value,
            )
            &&& y.edge_visits == x.edge_visits.update(k, (x.edge_visits[k] + 1) as usize)
            &&& x.virtual_losses[k] > 0 ==> y.virtual_losses == x.virtual_losses.update(
                k,
                (x.virtual_losses[k] - 1) as usize,
            )
            &&& i == path.len() - 1 && x.children[k] is None ==> y.children[k] == Some(leaf)
            &&& x.children[k] is Some ==> y.children[k] == x.children[k]
        }),
{
    let leaf = path_end::<E>(root, path);
    let last = path[path.len() - 1];
    let mid = choose|mid: Tree<E::Act, R>| #[trigger]
        is_expanded::<E, R>(before, mid, path.last().0, path.last().1, leaf, priors, value)
            && after == backpropagated(mid, path, repeat);
    assert(before.contains_key(last.0));
    assert(mid.contains_key(leaf));
    assert forall|j: int| 0 <= j < path.len() implies mid.contains_key((#[trigger] path[j]).0) by {
        assert(before.contains_key(path[j].0));
    }
    lemma_backpropagated(mid, path, repeat);
    let x = before[path[i].0];
    let z = mid[path[i].0];
    let y = after[path[i].0];
    assert(path[i].0 != leaf);
    if i < path.len() - 1 {
        assert(path[i].0 != path[path.len() - 1].0);
        assert(z == x);
    } else {
        assert(z == x.linked_child(last.1, leaf));
    }
    let w = z.without_virtual_loss(path[i].1).with_visit(path[i].1);
    assert(y == (NodeView {
        node_visits: y.node_visits,
        value: y.value,
        edge_penalties: y.edge_penalties,
        ..w
    }));
    assert(!on_path(path, leaf));
    assert(after[leaf] == mid[leaf]);
    assert(after.contains_key(leaf) == after.dom().contains(leaf));
    assert(mid.contains_key(leaf) == mid.dom().contains(leaf));
    assert(last.0 != leaf);
}

/// Law: moving the root along an action leads to the child that is recorded for it, and to none
/// where the root is not in the tree or has no child there.
pub proof fn law_root_moves_to_recorded_child<A: Act, R: Scalar>(
    root: Option<NodeId>,
    tree: Tree<A, R>,
    a: A,
)
    ensures
        root is None ==> next_root(root, tree, a) is None,
        root is Some && !tree.contains_key(root->0) ==> next_root(root, tree, a) is None,
        root is Some && tree.contains_key(root->0) && a.spec_index()
            < tree[root->0].children.len() ==> next_root(root, tree, a)
            == tree[root->0].children[a.spec_index() as int],
{
}

/// Law: a line of play leads where its parts lead, one after the other, and one action leads to the
/// next state.
pub proof fn law_lines_join<E: Environment>(start: u64, a: Seq<E::Act>, b: Seq<E::Act>, x: E::Act)
    ensures
        state_after::<E>(start, Seq::<E::Act>::empty()) == start,
        state_after::<E>(start, seq![x]) == E::spec_next(start, x),
        state_after::<E>(start, a + b) == state_after::<E>(state_after::<E>(start, a), b),
    decreases b.len(),
{
    reveal_with_fuel(state_after, 2);
    assert(seq![x].drop_last() =~= Seq::<E::Act>::empty());
    if b.len() > 0 {
        law_lines_join::<E>(start, a, b.drop_last(), x);
        assert((a + b).drop_last() =~= a + b.drop_last());
        assert((a + b).last() == b.last());
    } else {
        assert(a + b =~= a);
    }
}

/// Law: every action of a line of play is valid in the state that the actions before it lead to,
/// and that state is not at its end.
pub proof fn law_lines_are_legal<E: Environment>(start: u64, actions: Seq<E::Act>, i: int)
    requires
        is_line::<E>(start, actions),
        0 <= i < actions.len(),
    ensures
        E::spec_actions(state_after::<E>(start, actions.take(i))).contains(actions[i]),
        !E::spec_done(state_after::<E>(start, actions.take(i))),
        state_after::<E>(start, actions.take(i + 1)) == E::spec_next(
            state_after::<E>(start, actions.take(i)),
            actions[i],
        ),
{
    assert(actions.take(i + 1).drop_last() =~= actions.take(i));
}

/// Law: a search in rounds makes as many whole batches as fit its steps, and none from a state at
/// its end.
pub proof fn law_rounds_are_rounded_down<E: Environment>(root: NodeId, steps: usize, batch: usize)
    requires
        batch > 0,
    ensures
        rounds_of(steps, batch) * batch <= steps < rounds_of(steps, batch) * batch + batch,
        E::spec_done(root) ==> rounds_from::<E>(root, steps, batch) == 0,
        !E::spec_done(root) ==> rounds_from::<E>(root, steps, batch) == rounds_of(steps, batch),
{
    let n = steps / batch;
    assert(n * batch <= steps < n * batch + batch) by (nonlinear_arith)
        requires
            batch > 0,
            n == steps / batch,
    ;
}

/// A playout is a path through its tree.
proof fn lemma_playout_path<E: Environment, R: Scalar>(
    rules: Rules<E::Act, R>,
    tree: Tree<E::Act, R>,
    path: Path<E::Act>,
)
    requires
        path.len() > 0,
        is_playout::<E, R>(tree, rules.tuning, rules.c_puct, rules.forced, rules.root, path),
    ensures
        path_in(tree, rules.root, path),
{
}

/// Law: a playout that comes back to a state on its path is backed up at once: each edge of the
/// path has one visit more, and the last one is charged one over the number of actions there. No
/// virtual loss stays.
pub proof fn law_return_is_backed_at_once<E: Environment, R: Scalar>(
    rules: Rules<E::Act, R>,
    before: Tree<E::Act, R>,
    path: Path<E::Act>,
    after: Tree<E::Act, R>,
    i: int,
)
    requires
        is_step::<E, R>(rules, before, Step::Repeat(path), after),
        nodes_wf(before),
        0 <= i < path.len(),
        forall|id: NodeId| #[trigger] before.contains_key(id) ==> before[id].load() < usize::MAX,
    ensures
        exists|j: int|
            0 <= j < path.len() && (#[trigger] path[j]).0 == path_end::<E>(rules.root, path),
        ({
            let k = path[i].1.spec_index() as int;
            let x = before[path[i].0];
            let y = after[path[i].0];
            &&& y.edge_visits == x.edge_visits.update(k, (x.edge_visits[k] + 1) as usize)
            &&& y.virtual_losses == x.virtual_losses
            &&& i == path.len() - 1 ==> y.edge_penalties == x.edge_penalties.update(
                k,
                plus(
                    x.edge_penalties[k],
                    over(R::spec_decimal(-1, 0), R::spec_count(x.valid_actions.len() as usize)),
                ),
            )
            &&& i < path.len() - 1 ==> y.edge_penalties == x.edge_penalties
        }),
{
    lemma_playout_path::<E, R>(rules, before, path);
    assert forall|j: int| 0 <= j < path.len() implies before.contains_key(
        (#[trigger] path[j]).0,
    ) && before[path[j].0].wf() by {}
    assert(before[path[path.len() - 1].0].wf());
    law_return_costs_its_edge(before, rules.root, path, true, path[i].0);
    crate::flight::law_playout_leaves_no_loss(before, rules.root, path, true, path[i].0);
    let t = with_losses(before, path);
    lemma_with_losses(before, path);
    assert(forall|id: NodeId| t.contains_key(id) == t.dom().contains(id));
    assert(forall|id: NodeId| before.contains_key(id) == before.dom().contains(id));
    lemma_backpropagated(t, path, true);
    let y = after[path[i].0];
    let w = t[path[i].0].without_virtual_loss(path[i].1).with_visit(path[i].1);
    assert(y == (NodeView {
        node_visits: y.node_visits,
        value: y.value,
        edge_penalties: y.edge_penalties,
        ..w
    }));
    let node = before[path[i].0];
    let m = node.valid_actions.index_of(path[i].1);
    assert(node.valid_actions[m] == path[i].1);
    if i < path.len() - 1 {
        assert(path[i].0 != path[path.len() - 1].0);
    }
}

/// Law: a playout to a state at its end settles at once: that state has a node, with the value that
/// the rules give it if it is new, and each edge of the path has one visit more.
pub proof fn law_finished_playout_settles<E: Environment, R: Scalar>(
    rules: Rules<E::Act, R>,
    before: Tree<E::Act, R>,
    path: Path<E::Act>,
    value: R,
    after: Tree<E::Act, R>,
    i: int,
)
    requires
        is_step::<E, R>(rules, before, Step::Finish(path, value), after),
        nodes_wf(before),
        0 <= i < path.len(),
    ensures
        ({
            let leaf = path_end::<E>(rules.root, path);
            let k = path[i].1.spec_index() as int;
            let x = before[path[i].0];
            let y = after[path[i].0];
            &&& E::spec_done(leaf)
            &&& (rules.finishes)(leaf, value)
            &&& after.contains_key(leaf)
            &&& !before.contains_key(leaf) ==> after[leaf].value == value
                && after[leaf].terminal_state && after[leaf].valid_actions.len() == 0
            &&& before.contains_key(leaf) ==> after[leaf] == before[leaf]
            &&& y.edge_visits == x.edge_visits.update(k, (x.edge_visits[k] + 1) as usize)
        }),
{
    let leaf = path_end::<E>(rules.root, path);
    lemma_playout_path::<E, R>(rules, before, path);
    let t = with_losses(before, path);
    lemma_with_losses(before, path);
    assert(forall|id: NodeId| t.contains_key(id) == t.dom().contains(id));
    assert(forall|id: NodeId| before.contains_key(id) == before.dom().contains(id));
    assert forall|j: int| 0 <= j < path.len() implies t.contains_key((#[trigger] path[j]).0)
        && t[path[j].0].sized() && path[j].1.spec_index() < t[path[j].0].num_actions by {
        let node = before[path[j].0];
        assert(before.contains_key(path[j].0));
        let m = node.valid_actions.index_of(path[j].1);
        assert(node.valid_actions[m] == path[j].1);
        assert(t[path[j].0] == node.with_virtual_loss(path[j].1));
    }
    assert forall|j: int| 0 <= j < path.len() implies (#[trigger] path[j]).0 != leaf by {}
    law_answer_reaches_the_tree::<E, R>(
        t,
        after,
        rules.root,
        path,
        false,
        Map::empty(),
        value,
        i,
    );
    assert(!on_path(path, leaf));
}

/// Law: answers are put into a tree one after another, each to the playout with its number.
pub proof fn law_answers_go_in_order<E: Environment, R: Scalar>(
    root: NodeId,
    before: Tree<E::Act, R>,
    paths: Seq<Path<E::Act>>,
    answers: Seq<(Map<E::Act, R>, R)>,
    after: Tree<E::Act, R>,
) -> (trees: Seq<Tree<E::Act, R>>)
    requires
        are_answers::<E, R>(root, before, paths, answers, after),
    ensures
        trees.len() == answers.len() + 1,
        trees[0] == before,
        trees.last() == after,
        forall|i: int|
            0 <= i < answers.len() ==> is_settled::<E, R>(
                #[trigger] trees[i],
                trees[i + 1],
                root,
                paths[i],
                false,
                answers[i].0,
                answers[i].1,
            ),
    decreases answers.len(),
{
    if answers.len() == 0 {
        seq![before]
    } else {
        let mid = choose|mid: Tree<E::Act, R>|
            are_answers::<E, R>(root, before, paths, answers.drop_last(), mid)
                && #[trigger] is_settled::<E, R>(
                mid,
                after,
                root,
                paths[answers.len() - 1],
                false,
                answers.last().0,
                answers.last().1,
            );
        let first = law_answers_go_in_order::<E, R>(root, before, paths, answers.drop_last(), mid);
        let trees = first.push(after);
        assert forall|i: int| 0 <= i < answers.len() implies is_settled::<E, R>(
            #[trigger] trees[i],
            trees[i + 1],
            root,
            paths[i],
            false,
            answers[i].0,
            answers[i].1,
        ) by {
            if i < answers.len() - 1 {
                assert(trees[i] == first[i]);
                assert(trees[i + 1] == first[i + 1]);
                assert(answers.drop_last()[i] == answers[i]);
            } else {
                assert(trees[i] == mid);
            }
        }
        trees
    }
}

/// Law: the paths that wait after some steps are those of the playouts that were selected, in their
/// order.
pub proof fn law_selected_paths_wait<A, R>(steps: Seq<Step<A, R>>, step: Step<A, R>)
    ensures
        selected(Seq::<Step<A, R>>::empty()).len() == 0,
        step is Select ==> selected(steps.push(step)) == selected(steps).push(step->Select_0),
        step !is Select ==> selected(steps.push(step)) == selected(steps),
{
    assert(steps.push(step).drop_last() =~= steps);
}

proof fn lemma_waves_in_order<E: Environment, R: Scalar>(
    rules: Rules<E::Act, R>,
    before: Tree<E::Act, R>,
    waves: Seq<Wave<E::Act, R>>,
    batch: nat,
    after: Tree<E::Act, R>,
) -> (trees: Seq<Tree<E::Act, R>>)
    requires
        are_waves::<E, R>(rules, before, waves, batch, after),
    ensures
        trees.len() == waves.len() + 1,
        trees[0] == before,
        trees.last() == after,
        forall|i: int|
            0 <= i < waves.len() ==> is_wave::<E, R>(rules, #[trigger] trees[i], waves[i], trees[i
                + 1]),
        forall|i: int|
            0 <= i < waves.len() ==> is_full::<E, R>(rules, #[trigger] waves[i], batch),
    decreases waves.len(),
{
    if waves.len() == 0 {
        seq![before]
    } else {
        let init = waves.drop_last();
        let mid = choose|mid: Tree<E::Act, R>|
            are_waves::<E, R>(rules, before, init, batch, mid) && #[trigger] is_wave::<E, R>(
                rules,
                mid,
                waves.last(),
                after,
            );
        let first = lemma_waves_in_order::<E, R>(rules, before, init, batch, mid);
        let trees = first.push(after);
        assert forall|i: int| 0 <= i < waves.len() implies is_wave::<E, R>(
            rules,
            #[trigger] trees[i],
            waves[i],
            trees[i + 1],
        ) by {
            if i < init.len() {
                assert(trees[i] == first[i]);
                assert(trees[i + 1] == first[i + 1]);
                assert(init[i] == waves[i]);
            } else {
                assert(trees[i] == mid);
            }
        }
        assert forall|i: int| 0 <= i < waves.len() implies is_full::<E, R>(
            rules,
            #[trigger] waves[i],
            batch,
        ) by {
            if i < init.len() {
                assert(init[i] == waves[i]);
            }
        }
        trees
    }
}

/// Law: a search makes the batches that it is asked for, one after another from its root. Each has
/// all its playouts, and the states that they select are answered in one call, in their order, with
/// an answer for each where the client is complete.
pub proof fn law_search_makes_its_batches<E: Environment, R: Scalar>(
    rules: Rules<E::Act, R>,
    before: Tree<E::Act, R>,
    after: Tree<E::Act, R>,
    count: nat,
    batch: nat,
) -> (r: (Seq<Tree<E::Act, R>>, Seq<Wave<E::Act, R>>))
    requires
        is_searched::<E, R>(rules, before, after, count, batch),
    ensures
        r.1.len() == count,
        r.0.len() == count + 1,
        is_rooted::<E, R>(rules.oracle, before, r.0[0], rules.root),
        r.0.last() == after,
        forall|i: int|
            0 <= i < count ==> is_wave::<E, R>(rules, #[trigger] r.0[i], r.1[i], r.0[i + 1]),
        forall|i: int|
            0 <= i < count ==> {
                let paths = selected((#[trigger] r.1[i]).steps);
                &&& r.1[i].steps.len() == batch
                &&& r.1[i].answers.len() <= paths.len()
                &&& rules.oracle.complete ==> r.1[i].answers.len() == paths.len()
                &&& paths.len() > 0 ==> (rules.oracle.answers)(
                    Seq::new(paths.len(), |j: int| path_end::<E>(rules.root, paths[j])),
                    r.1[i].answers,
                )
            },
{
    reveal(is_searched);
    let (first, waves) = choose|first: Tree<E::Act, R>, waves: Seq<Wave<E::Act, R>>|
        is_rooted::<E, R>(rules.oracle, before, first, rules.root) && #[trigger] are_waves::<E, R>(
            rules,
            first,
            waves,
            batch,
            after,
        ) && waves.len() == count;
    let trees = lemma_waves_in_order::<E, R>(rules, first, waves, batch, after);
    assert forall|i: int| 0 <= i < count implies {
        let paths = selected((#[trigger] waves[i]).steps);
        &&& waves[i].steps.len() == batch
        &&& waves[i].answers.len() <= paths.len()
        &&& rules.oracle.complete ==> waves[i].answers.len() == paths.len()
        &&& paths.len() > 0 ==> (rules.oracle.answers)(
            Seq::new(paths.len(), |j: int| path_end::<E>(rules.root, paths[j])),
            waves[i].answers,
        )
    } by {
        let paths = selected(waves[i].steps);
        assert(is_full::<E, R>(rules, waves[i], batch));
        assert(Seq::new(paths.len(), |j: int| path_end::<E>(rules.root, paths[j])) =~= path_ends::<
            E,
        >(rules.root, paths));
    }
    (trees, waves)
}

/// Law: a playout of a round leaves one virtual loss on each edge of its path, and is marked as a
/// return exactly where its last action leads, along an edge of the tree, to a state on its path.
pub proof fn law_round_picks_its_playouts<E: Environment, R: Scalar>(
    lead: Lead<E::Act, R>,
    before: Tree<E::Act, R>,
    pick: Pick<E::Act>,
    after: Tree<E::Act, R>,
    i: int,
)
    requires
        is_pick::<E, R>(lead, before, pick, after),
        sound::<E, R>(before),
        0 <= i < pick.path.len(),
        before[pick.path[i].0].wf(),
    ensures
        pick.path[0].0 == lead.root,
        ({
            let k = pick.path[i].1.spec_index() as int;
            let x = before[pick.path[i].0];
            let y = after[pick.path[i].0];
            &&& y.virtual_losses == x.virtual_losses.update(k, (x.virtual_losses[k] + 1) as usize)
            &&& y.edge_visits == x.edge_visits
            &&& i + 1 < pick.path.len() ==> pick.path[i + 1].0 == E::spec_next(
                pick.path[i].0,
                pick.path[i].1,
            )
        }),
        pick.repeat <==> before[pick.path.last().0].child(pick.path.last().1) is Some && exists|
            j: int,
        |
            0 <= j < pick.path.len() && (#[trigger] pick.path[j]).0 == E::spec_next(
                pick.path.last().0,
                pick.path.last().1,
            ),
{
    let node = before[pick.path[i].0];
    let m = node.valid_actions.index_of(pick.path[i].1);
    assert(node.valid_actions[m] == pick.path[i].1);
    law_way_down_leaves_one_loss(before, pick.path, i, lead.root);
    law_playout_is_a_line_of_play::<E, R>(
        before,
        lead.tuning,
        lead.c_puct,
        false,
        lead.root,
        pick.path,
        i,
    );
    crate::search_laws::law_playout_repeats_where_it_was::<E, R>(
        before,
        lead.tuning,
        lead.c_puct,
        false,
        lead.root,
        pick.path,
    );
}

/// Law: the replies of a round are put into a tree one after another, each to the playout with its
/// number; a playout without a path changes nothing.
pub proof fn law_replies_go_in_order<E: Environment, R: Scalar>(
    root: NodeId,
    before: Tree<E::Act, R>,
    picks: Seq<Pick<E::Act>>,
    replies: Seq<(Map<E::Act, R>, R)>,
    after: Tree<E::Act, R>,
) -> (trees: Seq<Tree<E::Act, R>>)
    requires
        are_replies::<E, R>(root, before, picks, replies, after),
    ensures
        trees.len() == replies.len() + 1,
        trees[0] == before,
        trees.last() == after,
        forall|i: int|
            #![trigger trees[i]]
            0 <= i < replies.len() ==> if picks[i].path.len() == 0 {
                trees[i + 1] == trees[i]
            } else {
                is_settled::<E, R>(
                    trees[i],
                    trees[i + 1],
                    root,
                    picks[i].path,
                    picks[i].repeat,
                    replies[i].0,
                    replies[i].1,
                )
            },
    decreases replies.len(),
{
    if replies.len() == 0 {
        seq![before]
    } else {
        let init = replies.drop_last();
        let mid = choose|mid: Tree<E::Act, R>|
            are_replies::<E, R>(root, before, picks, init, mid) && #[trigger] is_reply::<E, R>(
                root,
                mid,
                picks[replies.len() - 1],
                replies.last(),
                after,
            );
        let first = law_replies_go_in_order::<E, R>(root, before, picks, init, mid);
        let trees = first.push(after);
        assert forall|i: int|
            #![trigger trees[i]]
            0 <= i < replies.len() implies if picks[i].path.len() == 0 {
            trees[i + 1] == trees[i]
        } else {
            is_settled::<E, R>(
                trees[i],
                trees[i + 1],
                root,
                picks[i].path,
                picks[i].repeat,
                replies[i].0,
                replies[i].1,
            )
        } by {
            if i < init.len() {
                assert(trees[i] == first[i]);
                assert(trees[i + 1] == first[i + 1]);
                assert(init[i] == replies[i]);
            } else {
                assert(trees[i] == mid);
            }
        }
        trees
    }
}

proof fn lemma_rounds_in_order<E: Environment, R: Scalar>(
    oracle: Oracle<E::Act, R>,
    lead: Lead<E::Act, R>,
    before: Tree<E::Act, R>,
    rounds: Seq<Round<E::Act, R>>,
    batch: nat,
    after: Tree<E::Act, R>,
) -> (trees: Seq<Tree<E::Act, R>>)
    requires
        are_rounds::<E, R>(oracle, lead, before, rounds, batch, after),
    ensures
        trees.len() == rounds.len() + 1,
        trees[0] == before,
        trees.last() == after,
        forall|i: int|
            0 <= i < rounds.len() ==> is_round::<E, R>(
                lead,
                #[trigger] trees[i],
                rounds[i],
                trees[i + 1],
            ),
        forall|i: int|
            0 <= i < rounds.len() ==> is_whole::<E, R>(
                oracle,
                lead.root,
                #[trigger] rounds[i],
                batch,
            ),
    decreases rounds.len(),
{
    if rounds.len() == 0 {
        seq![before]
    } else {
        let init = rounds.drop_last();
        let mid = choose|mid: Tree<E::Act, R>|
            are_rounds::<E, R>(oracle, lead, before, init, batch, mid) && #[trigger] is_round::<
                E,
                R,
            >(lead, mid, rounds.last(), after);
        let first = lemma_rounds_in_order::<E, R>(oracle, lead, before, init, batch, mid);
        let trees = first.push(after);
        assert forall|i: int| 0 <= i < rounds.len() implies is_round::<E, R>(
            lead,
            #[trigger] trees[i],
            rounds[i],
            trees[i + 1],
        ) by {
            if i < init.len() {
                assert(trees[i] == first[i]);
                assert(trees[i + 1] == first[i + 1]);
                assert(init[i] == rounds[i]);
            } else {
                assert(trees[i] == mid);
            }
        }
        assert forall|i: int| 0 <= i < rounds.len() implies is_whole::<E, R>(
            oracle,
            lead.root,
            #[trigger] rounds[i],
            batch,
        ) by {
            if i < init.len() {
                assert(init[i] == rounds[i]);
            }
        }
        trees
    }
}

/// Law: a search in rounds makes the rounds that it is asked for, one after another from its root.
/// Each has all its playouts, and the states that they end in are answered in one call, in their
/// order, with an answer for each where the client is complete.
pub proof fn law_search_makes_its_rounds<E: Environment, R: Scalar>(
    oracle: Oracle<E::Act, R>,
    lead: Lead<E::Act, R>,
    before: Tree<E::Act, R>,
    after: Tree<E::Act, R>,
    count: nat,
    batch: nat,
) -> (r: (Seq<Tree<E::Act, R>>, Seq<Round<E::Act, R>>))
    requires
        is_run_in_rounds::<E, R>(oracle, lead, before, after, count, batch),
    ensures
        r.1.len() == count,
        r.0.len() == count + 1,
        is_rooted::<E, R>(oracle, before, r.0[0], lead.root),
        r.0.last() == after,
        forall|i: int|
            0 <= i < count ==> is_round::<E, R>(lead, #[trigger] r.0[i], r.1[i], r.0[i + 1]),
        forall|i: int|
            0 <= i < count ==> {
                let round = #[trigger] r.1[i];
                &&& round.picks.len() == batch
                &&& round.replies.len() <= batch
                &&& oracle.complete ==> round.replies.len() == batch
                &&& batch > 0 ==> (oracle.answers)(
                    Seq::new(batch, |j: int| path_end::<E>(lead.root, round.picks[j].path)),
                    round.replies,
                )
            },
{
    let (first, rounds) = choose|first: Tree<E::Act, R>, rounds: Seq<Round<E::Act, R>>|
        is_rooted::<E, R>(oracle, before, first, lead.root) && #[trigger] are_rounds::<E, R>(
            oracle,
            lead,
            first,
            rounds,
            batch,
            after,
        ) && rounds.len() == count;
    let trees = lemma_rounds_in_order::<E, R>(oracle, lead, first, rounds, batch, after);
    assert forall|i: int| 0 <= i < count implies {
        let round = #[trigger] rounds[i];
        &&& round.picks.len() == batch
        &&& round.replies.len() <= batch
        &&& oracle.complete ==> round.replies.len() == batch
        &&& batch > 0 ==> (oracle.answers)(
            Seq::new(batch, |j: int| path_end::<E>(lead.root, round.picks[j].path)),
            round.replies,
        )
    } by {
        let round = rounds[i];
        assert(is_round::<E, R>(lead, trees[i], round, trees[i + 1]));
        assert(is_whole::<E, R>(oracle, lead.root, round, batch));
        assert(Seq::new(batch, |j: int| path_end::<E>(lead.root, round.picks[j].path))
            =~= pick_ends::<E>(lead.root, round.picks));
    }
    (trees, rounds)
}

/// Law: the playouts of a round are selected one after another, each in the tree that holds the
/// virtual losses of those before it.
pub proof fn law_round_selects_in_order<E: Environment, R: Scalar>(
    lead: Lead<E::Act, R>,
    before: Tree<E::Act, R>,
    picks: Seq<Pick<E::Act>>,
    after: Tree<E::Act, R>,
) -> (trees: Seq<Tree<E::Act, R>>)
    requires
        are_picks::<E, R>(lead, before, picks, after),
    ensures
        trees.len() == picks.len() + 1,
        trees[0] == before,
        trees.last() == after,
        forall|i: int|
            0 <= i < picks.len() ==> is_pick::<E, R>(
                lead,
                #[trigger] trees[i],
                picks[i],
                trees[i + 1],
            ),
    decreases picks.len(),
{
    if picks.len() == 0 {
        seq![before]
    } else {
        let init = picks.drop_last();
        let mid = choose|mid: Tree<E::Act, R>|
            are_picks::<E, R>(lead, before, init, mid) && #[trigger] is_pick::<E, R>(
                lead,
                mid,
                picks.last(),
                after,
            );
        let first = law_round_selects_in_order::<E, R>(lead, before, init, mid);
        let trees = first.push(after);
        assert forall|i: int| 0 <= i < picks.len() implies is_pick::<E, R>(
            lead,
            #[trigger] trees[i],
            picks[i],
            trees[i + 1],
        ) by {
            if i < init.len() {
                assert(trees[i] == first[i]);
                assert(trees[i + 1] == first[i + 1]);
                assert(init[i] == picks[i]);
            } else {
                assert(trees[i] == mid);
            }
        }
        trees
    }
}

/// Law: the playouts of a wave are made one after another, each in the tree that those before it
/// left.
pub proof fn law_steps_go_in_order<E: Environment, R: Scalar>(
    rules: Rules<E::Act, R>,
    before: Tree<E::Act, R>,
    steps: Seq<Step<E::Act, R>>,
    after: Tree<E::Act, R>,
) -> (trees: Seq<Tree<E::Act, R>>)
    requires
        are_steps::<E, R>(rules, before, steps, after),
    ensures
        trees.len() == steps.len() + 1,
        trees[0] == before,
        trees.last() == after,
        forall|i: int|
            0 <= i < steps.len() ==> is_step::<E, R>(
                rules,
                #[trigger] trees[i],
                steps[i],
                trees[i + 1],
            ),
    decreases steps.len(),
{
    if steps.len() == 0 {
        seq![before]
    } else {
        let init = steps.drop_last();
        let mid = choose|mid: Tree<E::Act, R>|
            are_steps::<E, R>(rules, before, init, mid) && #[trigger] is_step::<E, R>(
                rules,
                mid,
                steps.last(),
                after,
            );
        let first = law_steps_go_in_order::<E, R>(rules, before, init, mid);
        let trees = first.push(after);
        assert forall|i: int| 0 <= i < steps.len() implies is_step::<E, R>(
            rules,
            #[trigger] trees[i],
            steps[i],
            trees[i + 1],
        ) by {
            if i < init.len() {
                assert(trees[i] == first[i]);
                assert(trees[i + 1] == first[i + 1]);
                assert(init[i] == steps[i]);
            } else {
                assert(trees[i] == mid);
            }
        }
        trees
    }
}

/// Law: a wave makes all its playouts before it puts any answer into the tree, and a round does so
/// too.
pub proof fn law_playouts_come_before_answers<E: Environment, R: Scalar>(
    rules: Rules<E::Act, R>,
    lead: Lead<E::Act, R>,
    before: Tree<E::Act, R>,
    wave: Wave<E::Act, R>,
    round: Round<E::Act, R>,
    after: Tree<E::Act, R>,
)
    ensures
        is_wave::<E, R>(rules, before, wave, after) ==> exists|mid: Tree<E::Act, R>| #[trigger]
            are_steps::<E, R>(rules, before, wave.steps, mid) && are_answers::<E, R>(
                rules.root,
                mid,
                selected(wave.steps),
                wave.answers,
                after,
            ),
        is_round::<E, R>(lead, before, round, after) ==> exists|mid: Tree<E::Act, R>| #[trigger]
            are_picks::<E, R>(lead, before, round.picks, mid) && are_replies::<E, R>(
                lead.root,
                mid,
                round.picks,
                round.replies,
                after,
            ),
{
}

/// Law: a search starts from the root that it is given, with its own tuning, and gives a finished
/// state a value only where the evaluator of the caller does so in that state.
pub proof fn law_search_keeps_to_its_settings<E: Environment, R: Scalar, F: Fn(&E) -> R>(
    oracle: Oracle<E::Act, R>,
    root: NodeId,
    tuning: Tuning<E::Act, R>,
    c_puct: R,
    forced: bool,
    terminal_evaluator: &F,
    id: NodeId,
    value: R,
)
    ensures
        ({
            let rules = rules_of::<E, R, F>(
                oracle,
                root,
                tuning,
                c_puct,
                forced,
                terminal_evaluator,
            );
            &&& rules.root == root
            &&& rules.tuning == tuning
            &&& rules.c_puct == c_puct
            &&& rules.forced == forced
            &&& rules.oracle == oracle
            &&& (rules.finishes)(id, value) <==> exists|e: &E| #[trigger]
                call_ensures(terminal_evaluator, (e,), value) && e.spec_hash() == id
        }),
{
}

} // verus!
