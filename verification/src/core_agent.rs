//! A trivial agent for token observations.

use crate::comms::{actions_of, dense_prior, unpack_entry, RequestScratchPad, ResponseScratchPad};
use crate::observation::{Action, Observation, NUM_ACTIONS};
use crate::scalar::{one, over, Binary, Scalar};
use std::collections::HashMap;
use vstd::prelude::*;

verus! {

/// An agent with the same prior for every valid action, and value -1.
pub struct DummyAgent;

/// The same prior for some actions: one over their number.
pub open spec fn even_prior<R: Scalar>(actions: Seq<Action>) -> Map<Action, R> {
    Map::new(
        |a: Action| actions.contains(a),
        |a: Action| over(one::<R>(), R::spec_count(actions.len() as usize)),
    )
}

/// The actions of a mask are below its size.
proof fn lemma_actions_in_range(mask: Seq<u8>, n: nat)
    requires
        n <= 65536,
    ensures
        forall|a: Action| #[trigger] actions_of(mask, n).contains(a) ==> a < n,
    decreases n,
{
    if n > 0 {
        let before = actions_of(mask, (n - 1) as nat);
        lemma_actions_in_range(mask, (n - 1) as nat);
        assert forall|a: Action| #[trigger] actions_of(mask, n).contains(a) implies a < n by {
            let i = choose|i: int| 0 <= i < actions_of(mask, n).len() && actions_of(mask, n)[i] == a;
            if i < before.len() {
                assert(before[i] == a);
                assert(before.contains(a));
            }
        }
    }
}

impl DummyAgent {
    /// The agent.
    pub fn new() -> (r: Self)
        ensures
            r == DummyAgent,
    {
        DummyAgent
    }

    /// The same prior for every valid action, and value -1.
    pub fn infer<R: Scalar>(&self, obs: &Observation) -> (r: (HashMap<Action, R>, R))
        ensures
            r.0@ == even_prior::<R>(obs.valid_actions@),
            r.1 == R::spec_decimal(-1, 0),
    {
        broadcast use vstd::std_specs::hash::group_hash_axioms;

        let mut priors: HashMap<Action, R> = HashMap::new();
        let n: usize = obs.valid_actions.len();
        let mut i: usize = 0;
        while i < n
            invariant
                i <= n,
                n == obs.valid_actions@.len(),
                forall|a: Action|
                    priors@.contains_key(a) <==> exists|j: int|
                        0 <= j < i && #[trigger] obs.valid_actions@[j] == a,
                forall|a: Action| #[trigger]
                    priors@.contains_key(a) ==> priors@[a] == over(
                        one::<R>(),
                        R::spec_count(n),
                    ),
            decreases n - i,
        {
            let p: R = R::binary(Binary::Over, &R::decimal(1, 0), &R::count(n));
            priors.insert(obs.valid_actions[i], p);
            i += 1;
        }
        assert(priors@ =~= even_prior::<R>(obs.valid_actions@));
        (priors, R::decimal(-1, 0))
    }

    /// Answers the first `b` requests of a pad.
    pub fn infer_into<R: Scalar>(
        &self,
        to_agent: &RequestScratchPad,
        b: usize,
        from_agent: &mut ResponseScratchPad<R>,
    )
        requires
            to_agent.wf(),
            old(from_agent).wf(),
            b <= to_agent.max_batch,
            b <= old(from_agent).priors@.len(),
            b <= old(from_agent).values@.len(),
        ensures
            final(from_agent).wf(),
            final(from_agent).priors@.len() == old(from_agent).priors@.len(),
            forall|i: int|
                0 <= i < old(from_agent).priors@.len() ==> (#[trigger] final(from_agent).priors@[i])@
                    == (if i < b {
                    dense_prior(
                        even_prior::<R>(unpack_entry(to_agent.entry(i)).valid_actions),
                        NUM_ACTIONS as nat,
                    )
                } else {
                    old(from_agent).priors@[i]@
                }),
            forall|i: int|
                0 <= i < old(from_agent).values@.len() ==> #[trigger] final(from_agent).values@[i]
                    == (if i < b {
                    R::spec_decimal(-1, 0)
                } else {
                    old(from_agent).values@[i]
                }),
    {
        let observations: Vec<Observation> = to_agent.unpack();
        let mut priors: Vec<HashMap<Action, R>> = Vec::with_capacity(b);
        let mut values: Vec<R> = Vec::with_capacity(b);
        let mut i: usize = 0;
        while i < b
            invariant
                i <= b,
                b <= to_agent.max_batch,
                observations@.len() == to_agent.max_batch,
                forall|k: int|
                    0 <= k < observations@.len() ==> (#[trigger] observations@[k])@ == unpack_entry(
                        to_agent.entry(k),
                    ),
                priors@.len() == i,
                values@.len() == i,
                forall|k: int|
                    0 <= k < i ==> (#[trigger] priors@[k])@ == even_prior::<R>(
                        unpack_entry(to_agent.entry(k)).valid_actions,
                    ),
                forall|k: int| 0 <= k < i ==> #[trigger] values@[k] == R::spec_decimal(-1, 0),
            decreases b - i,
        {
            let (p, v) = self.infer(&observations[i]);
            assert(observations@[i as int]@.valid_actions == observations@[i as int].valid_actions@);
            priors.push(p);
            values.push(v);
            i += 1;
        }
        proof {
            assert forall|k: int, a: Action|
                0 <= k < priors@.len() && #[trigger] priors@[k]@.contains_key(a) implies a
                < NUM_ACTIONS by {
                lemma_actions_in_range(to_agent.entry(k).action_mask, NUM_ACTIONS as nat);
            }
        }
        from_agent.pack(&priors, &values);
    }
}

} // verus!
