//! Token observations of the grid environment, and the sizes of their batches.

use crate::environment::Obs;
use vstd::prelude::*;

verus! {

/// One global "execute" action and 5 actions for each of at most 20 ancillas.
pub const NUM_ACTIONS: usize = 101;

/// The largest grid has 20 by 20 cells.
pub const GRID_MAX: usize = 400;

/// Max number of objective tokens of the first layer.
pub const MAX_OBJ0: usize = 800;

/// Max number of objective tokens of the second layer.
pub const MAX_OBJ1: usize = 800;

/// The zero token is for padding.
pub const PAD_U16: u16 = 0;

/// Maximum batch size for inference requests.
pub const MAX_BATCH: usize = 8;

/// Actions are dense numbers.
pub type Action = u16;

/// Tokens of the environment.
pub type TokenId = u16;

/// A state as tokens.
#[derive(Debug, PartialEq, Eq, Hash)]
pub struct Observation {
    pub placement: Vec<TokenId>,
    pub objectives_0: Vec<TokenId>,
    pub objectives_1: Vec<TokenId>,
    pub height: usize,
    pub width: usize,
    pub num_ancillas: usize,
    pub valid_actions: Vec<Action>,
}

/// What an observation holds.
#[verifier::ext_equal]
pub struct ObservationView {
    pub placement: Seq<TokenId>,
    pub objectives_0: Seq<TokenId>,
    pub objectives_1: Seq<TokenId>,
    pub height: usize,
    pub width: usize,
    pub num_ancillas: usize,
    pub valid_actions: Seq<Action>,
}

impl View for Observation {
    type V = ObservationView;

    open spec fn view(&self) -> ObservationView {
        ObservationView {
            placement: self.placement@,
            objectives_0: self.objectives_0@,
            objectives_1: self.objectives_1@,
            height: self.height,
            width: self.width,
            num_ancillas: self.num_ancillas,
            valid_actions: self.valid_actions@,
        }
    }
}

impl Clone for Observation {
    /// An observation that holds the same.
    fn clone(&self) -> (r: Self)
        ensures
            r@ == self@,
    {
        let r: Observation = Observation {
            placement: self.placement.clone(),
            objectives_0: self.objectives_0.clone(),
            objectives_1: self.objectives_1.clone(),
            height: self.height,
            width: self.width,
            num_ancillas: self.num_ancillas,
            valid_actions: self.valid_actions.clone(),
        };
        assert(r@ =~= self@);
        r
    }
}

impl Obs for Observation {

}

/// An observation as a tuple: placement, objectives of both layers, height, width and valid
/// actions.
pub type ObservationTuple = (
    Vec<TokenId>,
    Vec<TokenId>,
    Vec<TokenId>,
    usize,
    usize,
    Vec<Action>,
);

impl From<ObservationTuple> for Observation {
    /// An observation from its tuple, which does not tell the number of ancillas.
    fn from(t: ObservationTuple) -> (r: Observation) {
        Observation {
            placement: t.0,
            objectives_0: t.1,
            objectives_1: t.2,
            height: t.3,
            width: t.4,
            num_ancillas: 0,
            valid_actions: t.5,
        }
    }
}

impl vstd::std_specs::convert::FromSpecImpl<ObservationTuple> for Observation {
    open spec fn obeys_from_spec() -> bool {
        true
    }

    open spec fn from_spec(t: ObservationTuple) -> Observation {
        Observation {
            placement: t.0,
            objectives_0: t.1,
            objectives_1: t.2,
            height: t.3,
            width: t.4,
            num_ancillas: 0,
            valid_actions: t.5,
        }
    }
}

impl From<Observation> for ObservationTuple {
    /// The tuple of an observation.
    fn from(o: Observation) -> (r: ObservationTuple) {
        (o.placement, o.objectives_0, o.objectives_1, o.height, o.width, o.valid_actions)
    }
}

impl vstd::std_specs::convert::FromSpecImpl<Observation> for ObservationTuple {
    open spec fn obeys_from_spec() -> bool {
        true
    }

    open spec fn from_spec(o: Observation) -> ObservationTuple {
        (o.placement, o.objectives_0, o.objectives_1, o.height, o.width, o.valid_actions)
    }
}

/// The kinds of agents.
#[derive(Clone, Copy, Debug, PartialEq, Eq, Structural)]
pub enum AgentType {
    Dummy,
    Python,
    Shm,
}

/// `n` copies of one value.
pub fn repeated<T: Copy>(x: T, n: usize) -> (r: Vec<T>)
    ensures
        r@ == Seq::new(n as nat, |i: int| x),
{
    let mut out: Vec<T> = Vec::with_capacity(n);
    let mut i: usize = 0;
    while i < n
        invariant
            i <= n,
            out@ == Seq::new(i as nat, |j: int| x),
        decreases n - i,
    {
        out.push(x);
        i += 1;
        assert(out@ =~= Seq::new(i as nat, |j: int| x));
    }
    out
}

} // verus!
