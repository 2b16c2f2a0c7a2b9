//! What holds of a tree over all searches and moves of its root.

use crate::environment::Environment;
use crate::flight::{
    grown, in_flight, lemma_grown_trans, lemma_step_back, lemma_step_expand, lemma_step_select,
    lemma_step_skip, load_at, losses_at, nodes_wf, path_in, visits_at, Path,
};
use crate::mcts::new_node;
use crate::node::{terminal_node, NodeId, NodeView};
use crate::run::{lemma_flight_loads, lemma_root_added};
use crate::scalar::Scalar;
use crate::search::{
    backpropagated, lemma_chosen_valid, lemma_new_node_sound, lemma_new_node_wf,
    lemma_restrict_sound, linked, path_end, sound, with_losses,
};
use crate::trace::{
    are_answers, are_steps, are_waves, is_expanded, is_rooted, is_searched, is_settled, is_step,
    is_wave, selected, Rules, Step, Wave,
};
use crate::tree::{spec_normalize_prior, Tree};
use vstd::prelude::*;

verus! {

/// A waiting playout was settled.
proof fn lemma_settled<E: Environment, R: Scalar>(
    base: Tree<E::Act, R>,
    tree: Tree<E::Act, R>,
    after: Tree<E::Act, R>,
    root: NodeId,
    paths: Seq<Path<E::Act>>,
    done: nat,
    started: nat,
    j: int,
    priors: Map<E::Act, R>,
    value: R,
)
    requires
        in_flight::<E, R>(base, tree, root, paths, done, started),
        0 <= j < paths.len(),
        is_settled::<E, R>(tree, after, root, paths[j], false, priors, value),
        forall|id: NodeId| #[trigger]
            base.contains_key(id) ==> base[id].load() + started < usize::MAX,
        started < usize::MAX,
    ensures
        in_flight::<E, R>(base, after, root, paths.remove(j), done + 1, started),
{
    let path = paths[j];
    assert(path_in(tree, root, path));
    let (parent, action) = path.last();
    let leaf = path_end::<E>(root, path);
    assert(tree.contains_key(path[path.len() - 1].0));
    let actions = E::spec_actions(leaf);
    let np = spec_normalize_prior(priors, actions);
    let mid = choose|mid: Tree<E::Act, R>| #[trigger]
        is_expanded::<E, R>(tree, mid, parent, action, leaf, priors, value) && after
            == backpropagated(mid, path, false);
    let middle = if tree.contains_key(leaf) {
        tree
    } else {
        let node = choose|node: NodeView<E::Act, R>| #[trigger]
            new_node::<E, R>(node, leaf, np, value) && node.wf() && node.load() == 0 && mid
                == linked(tree.insert(leaf, node), parent, action, leaf);
        lemma_new_node_wf::<E, R>(node, leaf, np, value);
        lemma_new_node_sound::<E, R>(node, leaf, priors, value);
        tree.insert(leaf, node)
    };
    assert(middle == tree || middle =~= tree.insert(leaf, middle[leaf]));
    lemma_step_expand::<E, R>(base, tree, root, paths, done, started, middle, parent, action, leaf);
    lemma_flight_loads::<E, R>(base, mid, root, paths, done, started, usize::MAX as int);
    lemma_step_back::<E, R>(base, mid, root, paths, done, started, j, false);
}

/// Some playouts were begun, while others waited.
proof fn lemma_steps_fly<E: Environment, R: Scalar>(
    rules: Rules<E::Act, R>,
    base: Tree<E::Act, R>,
    before: Tree<E::Act, R>,
    lost: Seq<Path<E::Act>>,
    done: nat,
    started: nat,
    steps: Seq<Step<E::Act, R>>,
    tree: Tree<E::Act, R>,
) -> (r: nat)
    requires
        are_steps::<E, R>(rules, before, steps, tree),
        !E::spec_done(rules.root),
        in_flight::<E, R>(base, before, rules.root, lost, done, started),
        forall|id: NodeId| #[trigger]
            base.contains_key(id) ==> base[id].load() + started + steps.len() + 1 < usize::MAX,
        started + steps.len() + 1 < usize::MAX,
    ensures
        in_flight::<E, R>(
            base,
            tree,
            rules.root,
            lost + selected(steps),
            r,
            started + steps.len(),
        ),
    decreases steps.len(),
{
    let root = rules.root;
    if steps.len() == 0 {
        assert(lost + selected(steps) =~= lost);
        done
    } else {
        let first = steps.drop_last();
        let mid = choose|mid: Tree<E::Act, R>|
            are_steps::<E, R>(rules, before, first, mid) && #[trigger] is_step::<E, R>(
                rules,
                mid,
                steps.last(),
                tree,
            );
        let done = lemma_steps_fly::<E, R>(rules, base, before, lost, done, started, first, mid);
        let paths = lost + selected(first);
        let n = started + first.len();
        lemma_flight_loads::<E, R>(base, mid, root, paths, done, n, usize::MAX as int);
        match steps.last() {
            Step::Select(path) => {
                lemma_step_select::<E, R>(base, mid, root, paths, done, n, path);
                assert(paths.push(path) =~= lost + selected(steps));
                done
            },
            Step::Repeat(path) => {
                let more = paths.push(path);
                let with = with_losses(mid, path);
                lemma_step_select::<E, R>(base, mid, root, paths, done, n, path);
                lemma_flight_loads::<E, R>(base, with, root, more, done, n + 1, usize::MAX as int);
                lemma_step_back::<E, R>(
                    base,
                    with,
                    root,
                    more,
                    done,
                    n + 1,
                    paths.len() as int,
                    true,
                );
                assert(more.remove(paths.len() as int) =~= paths);
                done + 1
            },
            Step::Finish(path, value) => {
                let more = paths.push(path);
                let with = with_losses(mid, path);
                lemma_step_select::<E, R>(base, mid, root, paths, done, n, path);
                assert(more[paths.len() as int] == path);
                lemma_settled::<E, R>(
                    base,
                    with,
                    tree,
                    root,
                    more,
                    done,
                    n + 1,
                    paths.len() as int,
                    Map::empty(),
                    value,
                );
                assert(more.remove(paths.len() as int) =~= paths);
                done + 1
            },
            Step::Skip => {
                lemma_chosen_valid(mid, rules.tuning, root, rules.c_puct, true, rules.forced);
                assert(base.contains_key(root) && mid.contains_key(root));
                lemma_step_skip::<E, R>(base, mid, root, paths, done, n);
                done
            },
        }
    }
}

/// The first of the playouts that wait were settled.
proof fn lemma_answers_land<E: Environment, R: Scalar>(
    root: NodeId,
    base: Tree<E::Act, R>,
    before: Tree<E::Act, R>,
    lost: Seq<Path<E::Act>>,
    done: nat,
    started: nat,
    paths: Seq<Path<E::Act>>,
    answers: Seq<(Map<E::Act, R>, R)>,
    tree: Tree<E::Act, R>,
)
    requires
        are_answers::<E, R>(root, before, paths, answers, tree),
        answers.len() <= paths.len(),
        in_flight::<E, R>(base, before, root, lost + paths, done, started),
        forall|id: NodeId| #[trigger]
            base.contains_key(id) ==> base[id].load() + started < usize::MAX,
        started < usize::MAX,
    ensures
        in_flight::<E, R>(
            base,
            tree,
            root,
            lost + paths.skip(answers.len() as int),
            done + answers.len(),
            started,
        ),
    decreases answers.len(),
{
    if answers.len() == 0 {
        assert(paths.skip(0) =~= paths);
    } else {
        let first = answers.drop_last();
        let k = first.len() as int;
        let mid = choose|mid: Tree<E::Act, R>|
            are_answers::<E, R>(root, before, paths, first, mid) && #[trigger] is_settled::<E, R>(
                mid,
                tree,
                root,
                paths[answers.len() - 1],
                false,
                answers.last().0,
                answers.last().1,
            );
        lemma_answers_land::<E, R>(root, base, before, lost, done, started, paths, first, mid);
        let waiting = lost + paths.skip(k);
        let j = lost.len() as int;
        assert(waiting[j] == paths[k]);
        lemma_settled::<E, R>(
            base,
            mid,
            tree,
            root,
            waiting,
            done + first.len(),
            started,
            j,
            answers.last().0,
            answers.last().1,
        );
        assert(waiting.remove(j) =~= lost + paths.skip(k + 1));
    }
}

/// Batches of playouts were made. What was not answered waits on; nothing does, where everything
/// is answered.
proof fn lemma_waves_fly<E: Environment, R: Scalar>(
    rules: Rules<E::Act, R>,
    base: Tree<E::Act, R>,
    waves: Seq<Wave<E::Act, R>>,
    batch: nat,
    tree: Tree<E::Act, R>,
) -> (r: (Seq<Path<E::Act>>, nat))
    requires
        are_waves::<E, R>(rules, base, waves, batch, tree),
        !E::spec_done(rules.root),
        in_flight::<E, R>(base, base, rules.root, Seq::empty(), 0, 0),
        forall|id: NodeId| #[trigger]
            base.contains_key(id) ==> base[id].load() + waves.len() * batch + 1 < usize::MAX,
        waves.len() * batch + 1 < usize::MAX,
    ensures
        in_flight::<E, R>(base, tree, rules.root, r.0, r.1, waves.len() * batch),
        rules.oracle.complete ==> r.0.len() == 0,
    decreases waves.len(),
{
    let root = rules.root;
    if waves.len() == 0 {
        assert(0 * batch == 0);
        (Seq::empty(), 0)
    } else {
        let first = waves.drop_last();
        let wave = waves.last();
        let mid = choose|mid: Tree<E::Act, R>|
            are_waves::<E, R>(rules, base, first, batch, mid) && #[trigger] is_wave::<E, R>(
                rules,
                mid,
                wave,
                tree,
            );
        let n = first.len() * batch;
        assert(waves.len() * batch == n + batch) by (nonlinear_arith)
            requires
                waves.len() == first.len() + 1,
                n == first.len() * batch,
        ;
        let (lost, done) = lemma_waves_fly::<E, R>(rules, base, first, batch, mid);
        let begun = choose|begun: Tree<E::Act, R>| #[trigger]
            are_steps::<E, R>(rules, mid, wave.steps, begun) && are_answers::<E, R>(
                root,
                begun,
                selected(wave.steps),
                wave.answers,
                tree,
            );
        let paths = selected(wave.steps);
        let done = lemma_steps_fly::<E, R>(rules, base, mid, lost, done, n, wave.steps, begun);
        lemma_answers_land::<E, R>(
            root,
            base,
            begun,
            lost,
            done,
            n + batch,
            paths,
            wave.answers,
            tree,
        );
        (lost + paths.skip(wave.answers.len() as int), done + wave.answers.len())
    }
}

/// Law: a search grows a tree of the environment into one. No node or visit is lost; the root gets
/// at most a visit per playout, and no node more visits and virtual losses than there are
/// playouts. Where the client answers every observation, no virtual loss stays behind, and a root
/// with actions gets a visit for each playout.
pub proof fn law_search_keeps_tree<E: Environment, R: Scalar>(
    rules: Rules<E::Act, R>,
    before: Tree<E::Act, R>,
    after: Tree<E::Act, R>,
    count: nat,
    batch: nat,
)
    requires
        nodes_wf(before),
        sound::<E, R>(before),
        !E::spec_done(rules.root),
        is_searched::<E, R>(rules, before, after, count, batch),
        forall|id: NodeId| #[trigger]
            before.contains_key(id) ==> before[id].load() + count * batch + 1 < usize::MAX,
        count * batch + 1 < usize::MAX,
    ensures
        nodes_wf(after),
        sound::<E, R>(after),
        grown(before, after),
        after.contains_key(rules.root),
        visits_at(after, rules.root) <= visits_at(before, rules.root) + count * batch,
        forall|id: NodeId| #[trigger]
            after.contains_key(id) ==> after[id].load() <= load_at(before, id) + count * batch,
        rules.oracle.complete && E::spec_actions(rules.root).len() > 0 ==> visits_at(
            after,
            rules.root,
        ) == visits_at(before, rules.root) + count * batch,
        rules.oracle.complete ==> forall|id: NodeId, k: int|
            #![trigger after[id].virtual_losses[k]]
            after.contains_key(id) && 0 <= k < after[id].num_actions
                ==> after[id].virtual_losses[k] == losses_at(before, id, k),
{
    reveal(is_searched);
    let root = rules.root;
    let n = count * batch;
    let (first, waves) = choose|first: Tree<E::Act, R>, waves: Seq<Wave<E::Act, R>>|
        is_rooted::<E, R>(rules.oracle, before, first, root) && #[trigger] are_waves::<E, R>(
            rules,
            first,
            waves,
            batch,
            after,
        ) && waves.len() == count;
    if !before.contains_key(root) {
        let (priors, value) = choose|priors: Map<E::Act, R>, value: R| #[trigger]
            new_node::<E, R>(
                first[root],
                root,
                spec_normalize_prior(priors, E::spec_actions(root)),
                value,
            ) && (rules.oracle.answers)(seq![root], seq![(priors, value)]) && first
                == before.insert(root, first[root]);
        lemma_new_node_wf::<E, R>(
            first[root],
            root,
            spec_normalize_prior(priors, E::spec_actions(root)),
            value,
        );
        lemma_new_node_sound::<E, R>(first[root], root, priors, value);
    }
    lemma_root_added::<E, R>(before, first, root);
    assert forall|id: NodeId| #[trigger] first.contains_key(id) implies first[id].load() + n + 1
        < usize::MAX by {
        assert(load_at(first, id) == load_at(before, id));
    }
    let (paths, done) = lemma_waves_fly::<E, R>(rules, first, waves, batch, after);
    lemma_grown_trans(before, first, after);
    assert(first.contains_key(root) && after.contains_key(root));
    assert forall|id: NodeId| #[trigger] after.contains_key(id) implies after[id].load() <= load_at(
        before,
        id,
    ) + n by {
        assert(load_at(first, id) == load_at(before, id));
    }
    if rules.oracle.complete {
        assert(paths =~= Seq::empty());
        assert forall|id: NodeId, k: int|
            #![trigger after[id].virtual_losses[k]]
            after.contains_key(id) && 0 <= k < after[id].num_actions implies after[id].virtual_losses[k]
            == losses_at(before, id, k) by {
            if first.contains_key(id) {
                assert(first[id].num_actions == after[id].num_actions);
                assert(losses_at(first, id, k) == losses_at(before, id, k));
            }
        }
    }
}

/// What happens to a tree.
#[verifier::reject_recursive_types(A)]
#[verifier::reject_recursive_types(R)]
pub ghost enum Change<A, R> {
    /// A search: some batches of some playouts each.
    Search(Rules<A, R>, nat, nat),
    /// A search of a finished game, which has a value.
    Over(NodeId, R),
    /// A move of the root, which keeps some nodes.
    Advance(Set<NodeId>),
}

/// Whether a tree becomes another by a change. The visits can be counted.
pub open spec fn is_change<E: Environment, R: Scalar>(
    before: Tree<E::Act, R>,
    change: Change<E::Act, R>,
    after: Tree<E::Act, R>,
) -> bool {
    match change {
        Change::Search(rules, count, batch) => {
            &&& !E::spec_done(rules.root)
            &&& is_searched::<E, R>(rules, before, after, count, batch)
            &&& count * batch + 1 < usize::MAX
            &&& forall|id: NodeId| #[trigger]
                before.contains_key(id) ==> before[id].load() + count * batch + 1 < usize::MAX
        },
        Change::Over(root, value) => {
            &&& E::spec_done(root)
            &&& before.contains_key(root) ==> after == before
            &&& !before.contains_key(root) ==> after == before.insert(root, after[root])
                && terminal_node(after[root], root, value)
        },
        Change::Advance(keep) => after == before.restrict(keep),
    }
}

/// Law: from the empty tree on, whatever is searched and wherever the root moves, the tree is one
/// of the environment: its nodes are well formed, each has the slots that its own state has
/// actions for, its edges lead where the actions lead, and the slots of other actions hold no
/// visits and no child.
pub proof fn law_trees_stay_sound<E: Environment, R: Scalar>(
    trees: Seq<Tree<E::Act, R>>,
    changes: Seq<Change<E::Act, R>>,
    i: int,
)
    requires
        trees.len() == changes.len() + 1,
        trees[0] == Map::<NodeId, NodeView<E::Act, R>>::empty(),
        forall|k: int|
            0 <= k < changes.len() ==> is_change::<E, R>(
                trees[k],
                #[trigger] changes[k],
                trees[k + 1],
            ),
        0 <= i < trees.len(),
    ensures
        nodes_wf(trees[i]),
        sound::<E, R>(trees[i]),
        forall|id: NodeId| #[trigger]
            trees[i].contains_key(id) ==> {
                let node = trees[i][id];
                &&& node.id == id
                &&& node.num_actions == (if E::spec_done(id) {
                    0
                } else {
                    E::spec_num_actions(id)
                })
                &&& node.children.len() == node.num_actions
                &&& node.prior_probs.len() == node.num_actions
                &&& node.edge_visits.len() == node.num_actions
                &&& node.virtual_losses.len() == node.num_actions
            },
        forall|id: NodeId, k: int|
            #![trigger trees[i][id].edge_visits[k]]
            trees[i].contains_key(id) && 0 <= k < trees[i][id].num_actions
                && !trees[i][id].has_slot(k) ==> trees[i][id].edge_visits[k] == 0
                && trees[i][id].children[k] is None,
    decreases i,
{
    reveal(NodeView::tidy);
    if i > 0 {
        law_trees_stay_sound::<E, R>(trees, changes, i - 1);
        let before = trees[i - 1];
        let after = trees[i];
        assert(is_change::<E, R>(before, changes[i - 1], after));
        match changes[i - 1] {
            Change::Search(rules, count, batch) => {
                law_search_keeps_tree::<E, R>(rules, before, after, count, batch);
            },
            Change::Over(root, value) => {
                if !before.contains_key(root) {
                    assert forall|id: NodeId, k: int|
                        #![trigger after[id].valid_actions[k]]
                        after.contains_key(id) && 0 <= k < after[id].valid_actions.len() implies (
                    match after[id].child(after[id].valid_actions[k]) {
                        Some(c) => c == E::spec_next(id, after[id].valid_actions[k]),
                        None => true,
                    }) by {
                        assert(before[id].valid_actions[k] == after[id].valid_actions[k]);
                    }
                }
            },
            Change::Advance(keep) => {
                lemma_restrict_sound::<E, R>(before, keep);
            },
        }
    }
}

} // verus!
