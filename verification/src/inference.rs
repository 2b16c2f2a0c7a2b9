//! The boundary to the network that supplies priors and values.

use crate::environment::{is_seen, Environment};
use crate::node::NodeId;
use crate::scalar::Scalar;
use std::collections::HashMap;
use vstd::prelude::*;

verus! {

/// Why a search could not go on.
#[derive(Clone, Debug, PartialEq, Eq)]
pub enum InferenceError {
    /// The client failed, with its message.
    Failed(String),
    /// The client answered without a prior and a value for the root.
    Empty,
}

/// A source of policy priors and values.
pub trait InferenceClient<E: Environment, R: Scalar> {
    /// Whether this client, when it answers, answers every observation.
    closed spec fn answers_all(&self) -> bool {
        arbitrary()
    }

    /// Whether this client can be asked for a batch: nothing else is asked of it. By default it
    /// takes everything.
    open spec fn admits(&self, observations: Seq<E::Obs>) -> bool {
        true
    }

    /// One prior map and one value per observation, in their order.
    fn infer(&self, observations: &[E::Obs]) -> (r: Result<
        (Vec<HashMap<E::Act, R>>, Vec<R>),
        InferenceError,
    >)
        requires
            self.admits(observations@),
        ensures
            self.answers_all() && r is Ok ==> r->Ok_0.0@.len() == observations@.len()
                && r->Ok_0.1@.len() == observations@.len(),
    ;
}

/// Whether an observation is one of a state whose game goes on.
pub open spec fn is_open<E: Environment>(obs: E::Obs) -> bool {
    exists|state: NodeId| #[trigger] is_seen::<E>(state, obs) && !E::spec_done(state)
}

/// Whether observations are those of some states, one of each and in their order.
pub open spec fn are_seen<E: Environment>(states: Seq<NodeId>, obs: Seq<E::Obs>) -> bool {
    &&& obs.len() == states.len()
    &&& forall|i: int| 0 <= i < states.len() ==> is_seen::<E>(states[i], #[trigger] obs[i])
}

/// The largest batch of a search: its batch size, but at least the root alone.
pub open spec fn largest_batch(batch_size: usize) -> nat {
    if batch_size == 0 {
        1
    } else {
        batch_size as nat
    }
}

/// Whether a batch holds from one to `most` observations, none of a finished game.
pub open spec fn is_batch<E: Environment>(batch: Seq<E::Obs>, most: nat) -> bool {
    &&& 1 <= batch.len() <= most
    &&& forall|i: int| 0 <= i < batch.len() ==> is_open::<E>(#[trigger] batch[i])
}

/// The batches that show some states.
pub open spec fn shows<E: Environment>(states: Seq<NodeId>) -> spec_fn(Seq<E::Obs>) -> bool {
    |batch: Seq<E::Obs>| are_seen::<E>(states, batch)
}

/// The batches of a kind that show one state.
pub open spec fn alone<E: Environment>(
    asked: spec_fn(Seq<E::Obs>) -> bool,
) -> spec_fn(Seq<E::Obs>) -> bool {
    |batch: Seq<E::Obs>| asked(batch) && batch.len() == 1
}

/// Whether a client can be asked for all batches of a kind.
pub open spec fn can_ask<E: Environment, R: Scalar, C: InferenceClient<E, R> + ?Sized>(
    client: &C,
    asked: spec_fn(Seq<E::Obs>) -> bool,
) -> bool {
    forall|batch: Seq<E::Obs>| asked(batch) ==> #[trigger] client.admits(batch)
}

/// Whether a client may answer a batch that shows some states with a prior and a value for each of
/// the first of them: one call, and as far as it holds both.
pub open spec fn is_answer<E: Environment, R: Scalar, C: InferenceClient<E, R> + ?Sized>(
    client: &C,
    batch: &[E::Obs],
    priors: Vec<HashMap<E::Act, R>>,
    values: Vec<R>,
    states: Seq<NodeId>,
    answers: Seq<(Map<E::Act, R>, R)>,
) -> bool {
    &&& call_ensures(C::infer, (client, batch), Ok((priors, values)))
    &&& are_seen::<E>(states, batch@)
    &&& answers.len() == shortest(states.len(), priors@.len(), values@.len())
    &&& forall|i: int|
        0 <= i < answers.len() ==> #[trigger] answers[i] == (priors@[i]@, values@[i])
}

/// The smallest of three lengths.
pub open spec fn shortest(a: nat, b: nat, c: nat) -> nat {
    if a <= b && a <= c {
        a
    } else if b <= c {
        b
    } else {
        c
    }
}

/// What a client can be asked: whether it answers every observation, and with which priors and
/// values it may answer a batch of some states.
#[verifier::reject_recursive_types(A)]
#[verifier::reject_recursive_types(R)]
pub ghost struct Oracle<A, R> {
    pub complete: bool,
    pub answers: spec_fn(Seq<NodeId>, Seq<(Map<A, R>, R)>) -> bool,
}

/// The oracle that a client is.
pub open spec fn oracle_of<E: Environment, R: Scalar, C: InferenceClient<E, R> + ?Sized>(
    client: &C,
) -> Oracle<E::Act, R> {
    Oracle {
        complete: client.answers_all(),
        answers: |states: Seq<NodeId>, answers: Seq<(Map<E::Act, R>, R)>|
            exists|batch: &[E::Obs], priors: Vec<HashMap<E::Act, R>>, values: Vec<R>| #[trigger]
                is_answer::<E, R, C>(client, batch, priors, values, states, answers),
    }
}

/// Whether a client may fail a search that asks for batches of a kind with an error: its own, or
/// the one for an answer without a prior or a value to a batch of another kind, that of the root.
pub open spec fn is_failure<E: Environment, R: Scalar, C: InferenceClient<E, R> + ?Sized>(
    client: &C,
    asked: spec_fn(Seq<E::Obs>) -> bool,
    root: spec_fn(Seq<E::Obs>) -> bool,
    error: InferenceError,
) -> bool {
    ||| exists|batch: &[E::Obs]| #[trigger]
        call_ensures(
            C::infer,
            (client, batch),
            Err::<(Vec<HashMap<E::Act, R>>, Vec<R>), InferenceError>(error),
        ) && asked(batch@)
    ||| error == InferenceError::Empty && exists|
        batch: &[E::Obs],
        priors: Vec<HashMap<E::Act, R>>,
        values: Vec<R>,
    | #[trigger]
        call_ensures(
            C::infer,
            (client, batch),
            Ok::<(Vec<HashMap<E::Act, R>>, Vec<R>), InferenceError>((priors, values)),
        ) && root(batch@) && (priors@.len() == 0 || values@.len() == 0)
}

/// A failure on batches of two kinds is one on batches of wider kinds.
pub proof fn lemma_failure_widens<E: Environment, R: Scalar, C: InferenceClient<E, R> + ?Sized>(
    client: &C,
    asked: spec_fn(Seq<E::Obs>) -> bool,
    root: spec_fn(Seq<E::Obs>) -> bool,
    wide_asked: spec_fn(Seq<E::Obs>) -> bool,
    wide_root: spec_fn(Seq<E::Obs>) -> bool,
    error: InferenceError,
)
    requires
        is_failure::<E, R, C>(client, asked, root, error),
        forall|batch: Seq<E::Obs>| #[trigger] asked(batch) ==> wide_asked(batch),
        forall|batch: Seq<E::Obs>| #[trigger] root(batch) ==> wide_root(batch),
    ensures
        is_failure::<E, R, C>(client, wide_asked, wide_root, error),
{
}

} // verus!
