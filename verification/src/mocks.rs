//! A small walk on a line, and an agent that knows nothing, to try the simulation engine on.

use crate::par_graph::{Agent, Environment};
use crate::scalar::{filled, one, over, Binary, Scalar};
use vstd::prelude::*;

verus! {

/// A walk on a line, which ends once it has left the interval from `-limit` to `limit`.
#[derive(Debug, Clone, Copy)]
pub struct MockEnv {
    pub state: i32,
    pub limit: i32,
}

impl MockEnv {
    /// Two actions: left or right.
    pub fn num_actions(&self) -> (r: usize)
        ensures
            r == 2,
    {
        2
    }

    /// The walk after a step: right for action 1, left for every other. At the end of what can
    /// be counted it stays.
    pub open spec fn moved(self, action: i32) -> Self {
        MockEnv {
            state: if action == 1 {
                if self.state < i32::MAX {
                    (self.state + 1) as i32
                } else {
                    self.state
                }
            } else {
                if self.state > i32::MIN {
                    (self.state - 1) as i32
                } else {
                    self.state
                }
            },
            limit: self.limit,
        }
    }
}

impl<R: Scalar> Environment<R> for MockEnv {
    open spec fn spec_hash(&self) -> u64 {
        self.state as u64
    }

    open spec fn spec_done(&self) -> bool {
        self.state > self.limit || -self.state > self.limit
    }

    open spec fn spec_valid(&self) -> Seq<i32> {
        seq![0i32, 1i32]
    }

    open spec fn spec_observation(&self) -> Seq<R> {
        seq![R::spec_decimal(self.state as int, 0)]
    }

    open spec fn spec_next(&self, action: i32) -> Self {
        self.moved(action)
    }

    fn hash_state(&self) -> (r: u64) {
        #[verifier::truncate]
        (self.state as u64)
    }

    fn done(&self) -> (r: bool) {
        self.state > self.limit || -(self.state as i64) > self.limit as i64
    }

    fn valid_actions(&self) -> (r: Vec<i32>) {
        vec![0, 1]
    }

    fn step(&mut self, action: i32) {
        if action == 1 {
            if self.state < i32::MAX {
                self.state = self.state + 1;
            }
        } else if self.state > i32::MIN {
            self.state = self.state - 1;
        }
    }

    fn copy(&self) -> (r: Self) {
        *self
    }

    fn observation(&self) -> (r: Vec<R>) {
        vec![R::decimal(self.state as i64, 0)]
    }
}

/// An agent with the same number for each of its outputs, and value -1.
#[derive(Debug, Clone)]
pub struct MockAgent {
    pub num_outputs: usize,
}

impl MockAgent {
    /// An agent with a number of outputs.
    pub fn new(num_outputs: usize) -> (r: Self)
        ensures
            r.num_outputs == num_outputs,
    {
        MockAgent { num_outputs }
    }
}

impl<R: Scalar> Agent<R> for MockAgent {
    open spec fn infers(&self, obs: Seq<R>, logits: Seq<R>, value: R) -> bool {
        &&& logits == Seq::new(
            self.num_outputs as nat,
            |i: int| over(one::<R>(), R::spec_count(self.num_outputs)),
        )
        &&& value == R::spec_decimal(-1, 0)
    }

    fn infer(&self, obs: &Vec<R>) -> (r: (Vec<R>, R)) {
        let share: R = R::binary(Binary::Over, &R::decimal(1, 0), &R::count(self.num_outputs));
        let logits: Vec<R> = filled(&share, self.num_outputs);
        assert(logits@ =~= Seq::new(
            self.num_outputs as nat,
            |i: int| over(one::<R>(), R::spec_count(self.num_outputs)),
        ));
        (logits, R::decimal(-1, 0))
    }
}

} // verus!
