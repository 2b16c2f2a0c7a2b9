//! Agents that answer observations one by one, and a trivial one.

use crate::scalar::{one, over, zero, Binary, Scalar};
use std::collections::HashMap;
use vstd::prelude::*;

verus! {

/// A source of priors and values for observations of type `O`.
pub trait Agent<O, R: Scalar> {
    /// Whether the agent may infer a prior and a value from an observation.
    closed spec fn infers(&self, obs: O, priors: Map<usize, R>, value: R) -> bool {
        arbitrary()
    }

    /// Infer priors and value for a single observation.
    fn infer(&self, obs: &O) -> (r: (HashMap<usize, R>, R))
        ensures
            self.infers(*obs, r.0@, r.1),
    ;

    /// Batched inference: a prior map and a value for each observation, in order.
    fn batch_infer(&self, batch: &Vec<O>) -> (r: (Vec<HashMap<usize, R>>, Vec<R>))
        ensures
            r.0@.len() == batch@.len(),
            r.1@.len() == batch@.len(),
            forall|i: int|
                0 <= i < batch@.len() ==> self.infers(#[trigger] batch@[i], r.0@[i]@, r.1@[i]),
    {
        let mut priors: Vec<HashMap<usize, R>> = Vec::with_capacity(batch.len());
        let mut values: Vec<R> = Vec::with_capacity(batch.len());
        let mut i: usize = 0;
        while i < batch.len()
            invariant
                i <= batch@.len(),
                priors@.len() == i,
                values@.len() == i,
                forall|k: int|
                    0 <= k < i ==> self.infers(#[trigger] batch@[k], priors@[k]@, values@[k]),
            decreases batch.len() - i,
        {
            let (p, v) = self.infer(&batch[i]);
            priors.push(p);
            values.push(v);
            i += 1;
        }
        (priors, values)
    }
}

/// An agent with the same prior for a fixed number of actions, and value 0.
#[derive(Debug, Clone)]
pub struct DummyAgent {
    pub action_count: usize,
}

impl DummyAgent {
    /// An agent for a number of actions.
    pub fn new(action_count: usize) -> (r: Self)
        ensures
            r.action_count == action_count,
    {
        DummyAgent { action_count }
    }
}

/// The same prior for the first `n` actions: `1 / n`.
pub open spec fn uniform_prior<R: Scalar>(n: usize) -> Map<usize, R> {
    Map::new(|a: usize| a < n, |a: usize| over(one::<R>(), R::spec_count(n)))
}

impl<O, R: Scalar> Agent<O, R> for DummyAgent {
    open spec fn infers(&self, obs: O, priors: Map<usize, R>, value: R) -> bool {
        priors == uniform_prior::<R>(self.action_count) && value == zero::<R>()
    }

    fn infer(&self, obs: &O) -> (r: (HashMap<usize, R>, R)) {
        broadcast use vstd::std_specs::hash::group_hash_axioms;

        let mut priors: HashMap<usize, R> = HashMap::new();
        let n: usize = self.action_count;
        let mut a: usize = 0;
        while a < n
            invariant
                a <= n,
                priors@ == Map::new(
                    |k: usize| k < a,
                    |k: usize| over(one::<R>(), R::spec_count(n)),
                ),
            decreases n - a,
        {
            let p: R = R::binary(Binary::Over, &R::decimal(1, 0), &R::count(n));
            priors.insert(a, p);
            a += 1;
            assert(priors@ =~= Map::new(
                |k: usize| k < a,
                |k: usize| over(one::<R>(), R::spec_count(n)),
            ));
        }
        assert(priors@ =~= uniform_prior::<R>(n));
        (priors, R::decimal(0, 0))
    }
}

} // verus!
