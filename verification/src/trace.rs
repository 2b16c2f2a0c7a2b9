//! What a search does, step by step.

use crate::environment::{is_seen, Environment};
use crate::inference::{
    alone, are_seen, can_ask, is_batch, is_failure, is_open, largest_batch, lemma_failure_widens,
    InferenceClient, InferenceError, Oracle,
};
use crate::mcts::new_node;
use crate::node::{NodeId, NodeView};
use crate::scalar::Scalar;
use crate::search::{
    backpropagated, is_playout, linked, path_end, playout_repeats, playout_stops, with_losses,
};
use crate::tree::{spec_normalize_prior, Tree, Tuning};
use vstd::prelude::*;

verus! {

/// What a search is led by.
#[verifier::reject_recursive_types(A)]
#[verifier::reject_recursive_types(R)]
pub ghost struct Rules<A, R> {
    pub root: NodeId,
    pub tuning: Tuning<A, R>,
    pub c_puct: R,
    pub forced: bool,
    /// Whether a terminal state may get a value.
    pub finishes: spec_fn(NodeId, R) -> bool,
    /// Where the priors and values of other states come from.
    pub oracle: Oracle<A, R>,
}

/// A playout of a search, as far as it goes at once.
#[verifier::reject_recursive_types(A)]
pub ghost enum Step<A, R> {
    /// A playout to a state that waits for its prior and value.
    Select(Seq<(NodeId, A)>),
    /// A playout that came back to a state it had passed.
    Repeat(Seq<(NodeId, A)>),
    /// A playout to a terminal state, with its value.
    Finish(Seq<(NodeId, A)>, R),
    /// A playout that finds no action at the root.
    Skip,
}

/// Whether a leaf was put into a tree: its state has a node, which is linked to its parent.
pub open spec fn is_expanded<E: Environment, R: Scalar>(
    before: Tree<E::Act, R>,
    after: Tree<E::Act, R>,
    parent: NodeId,
    action: E::Act,
    leaf: NodeId,
    priors: Map<E::Act, R>,
    value: R,
) -> bool {
    if before.contains_key(leaf) {
        after == linked(before, parent, action, leaf)
    } else {
        exists|node: NodeView<E::Act, R>| #[trigger]
            new_node::<E, R>(
                node,
                leaf,
                spec_normalize_prior(priors, E::spec_actions(leaf)),
                value,
            ) && node.wf() && node.load() == 0 && after == linked(
                before.insert(leaf, node),
                parent,
                action,
                leaf,
            )
    }
}

/// Whether the end of a path was put into a tree, and the path backed up.
pub open spec fn is_settled<E: Environment, R: Scalar>(
    before: Tree<E::Act, R>,
    after: Tree<E::Act, R>,
    root: NodeId,
    path: Seq<(NodeId, E::Act)>,
    repeat: bool,
    priors: Map<E::Act, R>,
    value: R,
) -> bool {
    exists|mid: Tree<E::Act, R>| #[trigger]
        is_expanded::<E, R>(
            before,
            mid,
            path.last().0,
            path.last().1,
            path_end::<E>(root, path),
            priors,
            value,
        ) && after == backpropagated(mid, path, repeat)
}

/// Whether a step leads from a tree to another.
pub open spec fn is_step<E: Environment, R: Scalar>(
    rules: Rules<E::Act, R>,
    before: Tree<E::Act, R>,
    step: Step<E::Act, R>,
    after: Tree<E::Act, R>,
) -> bool {
    match step {
        Step::Select(path) => {
            &&& path.len() > 0
            &&& is_playout::<E, R>(
                before,
                rules.tuning,
                rules.c_puct,
                rules.forced,
                rules.root,
                path,
            )
            &&& playout_stops::<E, R>(
                before,
                rules.tuning,
                rules.c_puct,
                rules.forced,
                rules.root,
                path,
            )
            &&& !playout_repeats::<E, R>(before, rules.root, path)
            &&& !E::spec_done(path_end::<E>(rules.root, path))
            &&& after == with_losses(before, path)
        },
        Step::Repeat(path) => {
            &&& path.len() > 0
            &&& is_playout::<E, R>(
                before,
                rules.tuning,
                rules.c_puct,
                rules.forced,
                rules.root,
                path,
            )
            &&& playout_repeats::<E, R>(before, rules.root, path)
            &&& after == backpropagated(with_losses(before, path), path, true)
        },
        Step::Finish(path, value) => {
            let end = path_end::<E>(rules.root, path);
            &&& path.len() > 0
            &&& is_playout::<E, R>(
                before,
                rules.tuning,
                rules.c_puct,
                rules.forced,
                rules.root,
                path,
            )
            &&& E::spec_done(end)
            &&& (rules.finishes)(end, value)
            &&& is_settled::<E, R>(
                with_losses(before, path),
                after,
                rules.root,
                path,
                false,
                Map::empty(),
                value,
            )
        },
        Step::Skip => {
            &&& playout_stops::<E, R>(
                before,
                rules.tuning,
                rules.c_puct,
                rules.forced,
                rules.root,
                Seq::empty(),
            )
            &&& after == before
        },
    }
}

/// Whether steps lead, one after another, from a tree to another.
pub open spec fn are_steps<E: Environment, R: Scalar>(
    rules: Rules<E::Act, R>,
    before: Tree<E::Act, R>,
    steps: Seq<Step<E::Act, R>>,
    after: Tree<E::Act, R>,
) -> bool
    decreases steps.len(),
{
    if steps.len() == 0 {
        after == before
    } else {
        exists|mid: Tree<E::Act, R>|
            are_steps::<E, R>(rules, before, steps.drop_last(), mid) && #[trigger] is_step::<E, R>(
                rules,
                mid,
                steps.last(),
                after,
            )
    }
}

/// One more step.
pub proof fn lemma_steps_push<E: Environment, R: Scalar>(
    rules: Rules<E::Act, R>,
    before: Tree<E::Act, R>,
    steps: Seq<Step<E::Act, R>>,
    mid: Tree<E::Act, R>,
    step: Step<E::Act, R>,
    after: Tree<E::Act, R>,
)
    requires
        are_steps::<E, R>(rules, before, steps, mid),
        is_step::<E, R>(rules, mid, step, after),
    ensures
        are_steps::<E, R>(rules, before, steps.push(step), after),
        selected(steps.push(step)) == match step {
            Step::Select(path) => selected(steps).push(path),
            _ => selected(steps),
        },
{
    let more = steps.push(step);
    assert(more.drop_last() =~= steps);
    assert(is_step::<E, R>(rules, mid, more.last(), after));
}

/// The paths to the states that wait after some steps, in the order of the steps.
pub open spec fn selected<A, R>(steps: Seq<Step<A, R>>) -> Seq<Seq<(NodeId, A)>>
    decreases steps.len(),
{
    if steps.len() == 0 {
        Seq::empty()
    } else {
        match steps.last() {
            Step::Select(path) => selected(steps.drop_last()).push(path),
            _ => selected(steps.drop_last()),
        }
    }
}

/// The states that paths from a root end in.
pub open spec fn path_ends<E: Environment>(root: NodeId, paths: Seq<Seq<(NodeId, E::Act)>>) -> Seq<
    NodeId,
> {
    Seq::new(paths.len(), |i: int| path_end::<E>(root, paths[i]))
}

/// Whether the answers for the ends of the first paths lead, in their order, from a tree to
/// another.
pub open spec fn are_answers<E: Environment, R: Scalar>(
    root: NodeId,
    before: Tree<E::Act, R>,
    paths: Seq<Seq<(NodeId, E::Act)>>,
    answers: Seq<(Map<E::Act, R>, R)>,
    after: Tree<E::Act, R>,
) -> bool
    decreases answers.len(),
{
    if answers.len() == 0 {
        after == before
    } else {
        exists|mid: Tree<E::Act, R>|
            are_answers::<E, R>(root, before, paths, answers.drop_last(), mid)
                && #[trigger] is_settled::<E, R>(
                mid,
                after,
                root,
                paths[answers.len() - 1],
                false,
                answers.last().0,
                answers.last().1,
            )
    }
}

/// A batch of playouts: they are begun one after another, and then the states that they select are
/// answered together.
#[verifier::reject_recursive_types(A)]
#[verifier::reject_recursive_types(R)]
pub ghost struct Wave<A, R> {
    pub steps: Seq<Step<A, R>>,
    pub answers: Seq<(Map<A, R>, R)>,
}

/// Whether a batch of playouts leads from a tree to another.
pub open spec fn is_wave<E: Environment, R: Scalar>(
    rules: Rules<E::Act, R>,
    before: Tree<E::Act, R>,
    wave: Wave<E::Act, R>,
    after: Tree<E::Act, R>,
) -> bool {
    exists|mid: Tree<E::Act, R>| #[trigger]
        are_steps::<E, R>(rules, before, wave.steps, mid) && are_answers::<E, R>(
            rules.root,
            mid,
            selected(wave.steps),
            wave.answers,
            after,
        )
}

/// Whether a batch has `batch` playouts, and the states that they select are answered by one call
/// of the oracle, the first of them or all. Nothing is asked where nothing is selected.
pub open spec fn is_full<E: Environment, R: Scalar>(
    rules: Rules<E::Act, R>,
    wave: Wave<E::Act, R>,
    batch: nat,
) -> bool {
    let paths = selected(wave.steps);
    &&& wave.steps.len() == batch
    &&& wave.answers.len() <= paths.len()
    &&& rules.oracle.complete ==> wave.answers.len() == paths.len()
    &&& paths.len() > 0 ==> (rules.oracle.answers)(
        path_ends::<E>(rules.root, paths),
        wave.answers,
    )
}

/// Whether batches of `batch` playouts each lead, one after another, from a tree to another.
pub open spec fn are_waves<E: Environment, R: Scalar>(
    rules: Rules<E::Act, R>,
    before: Tree<E::Act, R>,
    waves: Seq<Wave<E::Act, R>>,
    batch: nat,
    after: Tree<E::Act, R>,
) -> bool
    decreases waves.len(),
{
    if waves.len() == 0 {
        after == before
    } else {
        &&& exists|mid: Tree<E::Act, R>|
            are_waves::<E, R>(rules, before, waves.drop_last(), batch, mid) && #[trigger] is_wave::<
                E,
                R,
            >(rules, mid, waves.last(), after)
        &&& is_full::<E, R>(rules, waves.last(), batch)
    }
}

/// One more batch.
pub proof fn lemma_waves_push<E: Environment, R: Scalar>(
    rules: Rules<E::Act, R>,
    before: Tree<E::Act, R>,
    waves: Seq<Wave<E::Act, R>>,
    batch: nat,
    mid: Tree<E::Act, R>,
    wave: Wave<E::Act, R>,
    after: Tree<E::Act, R>,
)
    requires
        are_waves::<E, R>(rules, before, waves, batch, mid),
        is_wave::<E, R>(rules, mid, wave, after),
        is_full::<E, R>(rules, wave, batch),
    ensures
        are_waves::<E, R>(rules, before, waves.push(wave), batch, after),
{
    let more = waves.push(wave);
    assert(more.drop_last() =~= waves);
    assert(is_wave::<E, R>(rules, mid, more.last(), after));
}

/// Whether a root was made ready: it is in the tree, and if it was not before, it is a new node
/// for its state, with the prior and value that it was answered with.
pub open spec fn is_rooted<E: Environment, R: Scalar>(
    oracle: Oracle<E::Act, R>,
    before: Tree<E::Act, R>,
    after: Tree<E::Act, R>,
    root: NodeId,
) -> bool {
    if before.contains_key(root) {
        after == before
    } else {
        exists|priors: Map<E::Act, R>, value: R| #[trigger]
            new_node::<E, R>(
                after[root],
                root,
                spec_normalize_prior(priors, E::spec_actions(root)),
                value,
            ) && (oracle.answers)(seq![root], seq![(priors, value)]) && after == before.insert(
                root,
                after[root],
            )
    }
}

/// Whether a tree comes from another by a search: the root is made ready, and `count` batches of
/// `batch` playouts each are made from it.
#[verifier::opaque]
pub open spec fn is_searched<E: Environment, R: Scalar>(
    rules: Rules<E::Act, R>,
    before: Tree<E::Act, R>,
    after: Tree<E::Act, R>,
    count: nat,
    batch: nat,
) -> bool {
    exists|first: Tree<E::Act, R>, waves: Seq<Wave<E::Act, R>>|
        is_rooted::<E, R>(rules.oracle, before, first, rules.root) && #[trigger] are_waves::<E, R>(
            rules,
            first,
            waves,
            batch,
            after,
        ) && waves.len() == count
}

/// Whether a search shows a batch at some point: after the batches `waves`, the states that the
/// next `batch` playouts select.
pub open spec fn asks_after<E: Environment, R: Scalar>(
    rules: Rules<E::Act, R>,
    before: Tree<E::Act, R>,
    batch: nat,
    first: Tree<E::Act, R>,
    waves: Seq<Wave<E::Act, R>>,
    mid: Tree<E::Act, R>,
    steps: Seq<Step<E::Act, R>>,
    tree: Tree<E::Act, R>,
    obs: Seq<E::Obs>,
) -> bool {
    &&& is_rooted::<E, R>(rules.oracle, before, first, rules.root)
    &&& are_waves::<E, R>(rules, first, waves, batch, mid)
    &&& are_steps::<E, R>(rules, mid, steps, tree)
    &&& steps.len() == batch
    &&& selected(steps).len() > 0
    &&& are_seen::<E>(path_ends::<E>(rules.root, selected(steps)), obs)
}

/// The batches that show a root which has no node yet.
pub open spec fn asked_first<E: Environment, R: Scalar>(
    before: Tree<E::Act, R>,
    root: NodeId,
) -> spec_fn(Seq<E::Obs>) -> bool {
    |obs: Seq<E::Obs>| !before.contains_key(root) && are_seen::<E>(seq![root], obs)
}

/// Whether a tree comes from another by a search that ends at a batch which is not answered: the
/// root has no node and gets none, or some of the `count` batches are made, the playouts of the
/// next one are begun, and the states that they select get nothing.
#[verifier::opaque]
pub open spec fn is_cut_short<E: Environment, R: Scalar>(
    rules: Rules<E::Act, R>,
    before: Tree<E::Act, R>,
    after: Tree<E::Act, R>,
    count: nat,
    batch: nat,
) -> bool {
    ||| !before.contains_key(rules.root) && after == before
    ||| exists|
        first: Tree<E::Act, R>,
        waves: Seq<Wave<E::Act, R>>,
        mid: Tree<E::Act, R>,
        steps: Seq<Step<E::Act, R>>,
        obs: Seq<E::Obs>,
    | #[trigger]
        asks_after::<E, R>(rules, before, batch, first, waves, mid, steps, after, obs)
            && waves.len() < count
}

/// The batches that a search of `count` batches asks for: the root alone, where it has no node
/// yet, and for each batch of playouts the states that they select.
#[verifier::opaque]
pub open spec fn asks<E: Environment, R: Scalar>(
    rules: Rules<E::Act, R>,
    before: Tree<E::Act, R>,
    count: nat,
    batch: nat,
    obs: Seq<E::Obs>,
) -> bool {
    ||| asked_first::<E, R>(before, rules.root)(obs)
    ||| exists|
        first: Tree<E::Act, R>,
        waves: Seq<Wave<E::Act, R>>,
        mid: Tree<E::Act, R>,
        steps: Seq<Step<E::Act, R>>,
        tree: Tree<E::Act, R>,
    | #[trigger]
        asks_after::<E, R>(rules, before, batch, first, waves, mid, steps, tree, obs)
            && waves.len() < count
}

/// The batches that a search asks for, as a kind.
pub open spec fn asked_by<E: Environment, R: Scalar>(
    rules: Rules<E::Act, R>,
    before: Tree<E::Act, R>,
    count: nat,
    batch: nat,
) -> spec_fn(Seq<E::Obs>) -> bool {
    |obs: Seq<E::Obs>| asks::<E, R>(rules, before, count, batch, obs)
}

/// Steps select at most a state each, and only states whose game goes on.
pub proof fn lemma_selected<E: Environment, R: Scalar>(
    rules: Rules<E::Act, R>,
    before: Tree<E::Act, R>,
    steps: Seq<Step<E::Act, R>>,
    after: Tree<E::Act, R>,
)
    requires
        are_steps::<E, R>(rules, before, steps, after),
    ensures
        selected(steps).len() <= steps.len(),
        forall|i: int|
            0 <= i < selected(steps).len() ==> !E::spec_done(
                path_end::<E>(rules.root, #[trigger] selected(steps)[i]),
            ),
    decreases steps.len(),
{
    if steps.len() > 0 {
        let mid = choose|mid: Tree<E::Act, R>|
            are_steps::<E, R>(rules, before, steps.drop_last(), mid) && #[trigger] is_step::<E, R>(
                rules,
                mid,
                steps.last(),
                after,
            );
        lemma_selected::<E, R>(rules, before, steps.drop_last(), mid);
    }
}

/// Law: a search of a game that goes on asks for batches of open states only, each with at least
/// one state and at most as many as its batch size, or the root alone.
pub proof fn law_search_asks_open_batches<E: Environment, R: Scalar>(
    rules: Rules<E::Act, R>,
    before: Tree<E::Act, R>,
    count: nat,
    batch_size: usize,
    obs: Seq<E::Obs>,
)
    requires
        !E::spec_done(rules.root),
        asks::<E, R>(rules, before, count, batch_size as nat, obs),
    ensures
        is_batch::<E>(obs, largest_batch(batch_size)),
{
    reveal(asks);
    let batch = batch_size as nat;
    if !before.contains_key(rules.root) && are_seen::<E>(seq![rules.root], obs) {
        assert(is_seen::<E>(seq![rules.root][0], obs[0]));
        assert(is_open::<E>(obs[0]));
    } else {
        let (first, waves, mid, steps, tree) = choose|
            first: Tree<E::Act, R>,
            waves: Seq<Wave<E::Act, R>>,
            mid: Tree<E::Act, R>,
            steps: Seq<Step<E::Act, R>>,
            tree: Tree<E::Act, R>,
        | #[trigger]
            asks_after::<E, R>(rules, before, batch, first, waves, mid, steps, tree, obs)
                && waves.len() < count;
        lemma_selected::<E, R>(rules, mid, steps, tree);
        let paths = selected(steps);
        assert forall|i: int| 0 <= i < obs.len() implies is_open::<E>(#[trigger] obs[i]) by {
            assert(is_seen::<E>(path_ends::<E>(rules.root, paths)[i], obs[i]));
            assert(!E::spec_done(path_end::<E>(rules.root, paths[i])));
        }
    }
}

/// A client that fails a search fails whatever makes that search, if it asks for all that the
/// search asks for.
pub proof fn lemma_search_fails<E: Environment, R: Scalar, C: InferenceClient<E, R> + ?Sized>(
    client: &C,
    rules: Rules<E::Act, R>,
    before: Tree<E::Act, R>,
    count: nat,
    batch: nat,
    wide: spec_fn(Seq<E::Obs>) -> bool,
    error: InferenceError,
)
    requires
        is_failure::<E, R, C>(
            client,
            asked_by::<E, R>(rules, before, count, batch),
            asked_first::<E, R>(before, rules.root),
            error,
        ),
        forall|obs: Seq<E::Obs>| #[trigger]
            asks::<E, R>(rules, before, count, batch, obs) ==> wide(obs),
    ensures
        is_failure::<E, R, C>(client, wide, alone::<E>(wide), error),
{
    let asked = asked_by::<E, R>(rules, before, count, batch);
    let first = asked_first::<E, R>(before, rules.root);
    assert forall|obs: Seq<E::Obs>| #[trigger] first(obs) implies alone::<E>(wide)(obs) by {
        reveal(asks);
        assert(asks::<E, R>(rules, before, count, batch, obs));
    }
    assert forall|obs: Seq<E::Obs>| #[trigger] asked(obs) implies wide(obs) by {
        assert(asks::<E, R>(rules, before, count, batch, obs));
    }
    lemma_failure_widens::<E, R, C>(client, asked, first, wide, alone::<E>(wide), error);
}

/// Steps are also steps by rules that let terminal states have more values.
proof fn lemma_steps_weaken<E: Environment, R: Scalar>(
    strict: Rules<E::Act, R>,
    rules: Rules<E::Act, R>,
    before: Tree<E::Act, R>,
    steps: Seq<Step<E::Act, R>>,
    after: Tree<E::Act, R>,
)
    requires
        are_steps::<E, R>(strict, before, steps, after),
        strict == (Rules { finishes: strict.finishes, ..rules }),
        forall|id: NodeId, value: R| #[trigger]
            (strict.finishes)(id, value) ==> (rules.finishes)(id, value),
    ensures
        are_steps::<E, R>(rules, before, steps, after),
    decreases steps.len(),
{
    if steps.len() > 0 {
        let mid = choose|mid: Tree<E::Act, R>|
            are_steps::<E, R>(strict, before, steps.drop_last(), mid) && #[trigger] is_step::<E, R>(
                strict,
                mid,
                steps.last(),
                after,
            );
        lemma_steps_weaken::<E, R>(strict, rules, before, steps.drop_last(), mid);
        assert(is_step::<E, R>(rules, mid, steps.last(), after));
    }
}

/// Batches are also batches by rules that let terminal states have more values.
proof fn lemma_waves_weaken<E: Environment, R: Scalar>(
    strict: Rules<E::Act, R>,
    rules: Rules<E::Act, R>,
    before: Tree<E::Act, R>,
    waves: Seq<Wave<E::Act, R>>,
    batch: nat,
    after: Tree<E::Act, R>,
)
    requires
        are_waves::<E, R>(strict, before, waves, batch, after),
        strict == (Rules { finishes: strict.finishes, ..rules }),
        forall|id: NodeId, value: R| #[trigger]
            (strict.finishes)(id, value) ==> (rules.finishes)(id, value),
    ensures
        are_waves::<E, R>(rules, before, waves, batch, after),
    decreases waves.len(),
{
    if waves.len() > 0 {
        let wave = waves.last();
        let mid = choose|mid: Tree<E::Act, R>|
            are_waves::<E, R>(strict, before, waves.drop_last(), batch, mid)
                && #[trigger] is_wave::<E, R>(strict, mid, wave, after);
        lemma_waves_weaken::<E, R>(strict, rules, before, waves.drop_last(), batch, mid);
        let begun = choose|begun: Tree<E::Act, R>| #[trigger]
            are_steps::<E, R>(strict, mid, wave.steps, begun) && are_answers::<E, R>(
                strict.root,
                begun,
                selected(wave.steps),
                wave.answers,
                after,
            );
        lemma_steps_weaken::<E, R>(strict, rules, mid, wave.steps, begun);
        assert(is_wave::<E, R>(rules, mid, wave, after));
    }
}

/// What a search asks for and leaves at some point, it does also by rules that let terminal states
/// have more values.
proof fn lemma_asks_after_weaken<E: Environment, R: Scalar>(
    strict: Rules<E::Act, R>,
    rules: Rules<E::Act, R>,
    before: Tree<E::Act, R>,
    batch: nat,
    first: Tree<E::Act, R>,
    waves: Seq<Wave<E::Act, R>>,
    mid: Tree<E::Act, R>,
    steps: Seq<Step<E::Act, R>>,
    tree: Tree<E::Act, R>,
    obs: Seq<E::Obs>,
)
    requires
        asks_after::<E, R>(strict, before, batch, first, waves, mid, steps, tree, obs),
        strict == (Rules { finishes: strict.finishes, ..rules }),
        forall|id: NodeId, value: R| #[trigger]
            (strict.finishes)(id, value) ==> (rules.finishes)(id, value),
    ensures
        asks_after::<E, R>(rules, before, batch, first, waves, mid, steps, tree, obs),
{
    lemma_waves_weaken::<E, R>(strict, rules, first, waves, batch, mid);
    lemma_steps_weaken::<E, R>(strict, rules, mid, steps, tree);
}

/// A search is also one by rules that let terminal states have more values: it asks for the same
/// batches, and ends or is cut short in the same trees.
pub proof fn lemma_search_weaken<E: Environment, R: Scalar, C: InferenceClient<E, R> + ?Sized>(
    client: &C,
    strict: Rules<E::Act, R>,
    rules: Rules<E::Act, R>,
    before: Tree<E::Act, R>,
    count: nat,
    batch: nat,
)
    requires
        strict == (Rules { finishes: strict.finishes, ..rules }),
        forall|id: NodeId, value: R| #[trigger]
            (strict.finishes)(id, value) ==> (rules.finishes)(id, value),
    ensures
        can_ask::<E, R, C>(client, asked_by::<E, R>(rules, before, count, batch)) ==> can_ask::<
            E,
            R,
            C,
        >(client, asked_by::<E, R>(strict, before, count, batch)),
        forall|root: spec_fn(Seq<E::Obs>) -> bool, error: InferenceError| #[trigger]
            is_failure::<E, R, C>(
                client,
                asked_by::<E, R>(strict, before, count, batch),
                root,
                error,
            ) ==> is_failure::<E, R, C>(
                client,
                asked_by::<E, R>(rules, before, count, batch),
                root,
                error,
            ),
        forall|after: Tree<E::Act, R>| #[trigger]
            is_searched::<E, R>(strict, before, after, count, batch) ==> is_searched::<E, R>(
                rules,
                before,
                after,
                count,
                batch,
            ),
        forall|after: Tree<E::Act, R>| #[trigger]
            is_cut_short::<E, R>(strict, before, after, count, batch) ==> is_cut_short::<E, R>(
                rules,
                before,
                after,
                count,
                batch,
            ),
{
    let asked = asked_by::<E, R>(strict, before, count, batch);
    let wide = asked_by::<E, R>(rules, before, count, batch);
    assert forall|obs: Seq<E::Obs>| #[trigger] asked(obs) implies wide(obs) by {
        reveal(asks);
        if !asked_first::<E, R>(before, rules.root)(obs) {
            let (first, waves, mid, steps, tree) = choose|
                first: Tree<E::Act, R>,
                waves: Seq<Wave<E::Act, R>>,
                mid: Tree<E::Act, R>,
                steps: Seq<Step<E::Act, R>>,
                tree: Tree<E::Act, R>,
            | #[trigger]
                asks_after::<E, R>(strict, before, batch, first, waves, mid, steps, tree, obs)
                    && waves.len() < count;
            lemma_asks_after_weaken::<E, R>(
                strict,
                rules,
                before,
                batch,
                first,
                waves,
                mid,
                steps,
                tree,
                obs,
            );
        }
    }
    if can_ask::<E, R, C>(client, wide) {
        assert forall|obs: Seq<E::Obs>| asked(obs) implies #[trigger] client.admits(obs) by {
            assert(wide(obs));
        }
    }
    assert forall|root: spec_fn(Seq<E::Obs>) -> bool, error: InferenceError| #[trigger]
        is_failure::<E, R, C>(client, asked, root, error) implies is_failure::<E, R, C>(
        client,
        wide,
        root,
        error,
    ) by {
        lemma_failure_widens::<E, R, C>(client, asked, root, wide, root, error);
    }
    assert forall|after: Tree<E::Act, R>| #[trigger]
        is_searched::<E, R>(strict, before, after, count, batch) implies is_searched::<E, R>(
        rules,
        before,
        after,
        count,
        batch,
    ) by {
        reveal(is_searched);
        let (first, waves) = choose|first: Tree<E::Act, R>, waves: Seq<Wave<E::Act, R>>|
            is_rooted::<E, R>(strict.oracle, before, first, strict.root) && #[trigger] are_waves::<
                E,
                R,
            >(strict, first, waves, batch, after) && waves.len() == count;
        lemma_waves_weaken::<E, R>(strict, rules, first, waves, batch, after);
    }
    assert forall|after: Tree<E::Act, R>| #[trigger]
        is_cut_short::<E, R>(strict, before, after, count, batch) implies is_cut_short::<E, R>(
        rules,
        before,
        after,
        count,
        batch,
    ) by {
        reveal(is_cut_short);
        if before.contains_key(rules.root) || after != before {
            let (first, waves, mid, steps, obs) = choose|
                first: Tree<E::Act, R>,
                waves: Seq<Wave<E::Act, R>>,
                mid: Tree<E::Act, R>,
                steps: Seq<Step<E::Act, R>>,
                obs: Seq<E::Obs>,
            | #[trigger]
                asks_after::<E, R>(strict, before, batch, first, waves, mid, steps, after, obs)
                    && waves.len() < count;
            lemma_asks_after_weaken::<E, R>(
                strict,
                rules,
                before,
                batch,
                first,
                waves,
                mid,
                steps,
                after,
                obs,
            );
        }
    }
}

} // verus!
