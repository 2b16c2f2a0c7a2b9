//! What the search asks of a game: actions with a dense index, observations, and states that
//! can be stepped, copied and identified.

use std::fmt::Debug;
use std::hash::Hash;
use vstd::prelude::*;
use vstd::std_specs::hash::obeys_key_model;

verus! {

/// A generic observation type.
pub trait Obs: Clone + Debug + Send + Hash + Eq {

}

/// A generic action type.
///
/// Per-edge data is stored in vectors indexed by [`Act::to_action_index`], so every action
/// has a number. Actions are also keys of the prior maps, so equal actions hash alike.
pub trait Act: Copy + Debug + Send + Hash + Eq {
    /// What [`Act::to_action_index`] gives.
    spec fn spec_index(self) -> usize;

    /// Actions can be keys of a hash map.
    proof fn key_model()
        ensures
            obeys_key_model::<Self>(),
    ;

    /// The slot of this action in per-edge storage.
    fn to_action_index(self) -> (r: usize)
        ensures
            r == self.spec_index(),
    ;
}

impl Act for u8 {
    open spec fn spec_index(self) -> usize {
        self as usize
    }

    proof fn key_model() {
        broadcast use vstd::std_specs::hash::group_hash_axioms;

    }

    fn to_action_index(self) -> (r: usize) {
        self as usize
    }
}

impl Act for u16 {
    open spec fn spec_index(self) -> usize {
        self as usize
    }

    proof fn key_model() {
        broadcast use vstd::std_specs::hash::group_hash_axioms;

    }

    fn to_action_index(self) -> (r: usize) {
        self as usize
    }
}

impl Act for u32 {
    open spec fn spec_index(self) -> usize {
        self as usize
    }

    proof fn key_model() {
        broadcast use vstd::std_specs::hash::group_hash_axioms;

    }

    fn to_action_index(self) -> (r: usize) {
        self as usize
    }
}

impl Act for u64 {
    open spec fn spec_index(self) -> usize {
        self as usize
    }

    proof fn key_model() {
        broadcast use vstd::std_specs::hash::group_hash_axioms;

    }

    fn to_action_index(self) -> (r: usize) {
        self as usize
    }
}

impl Act for usize {
    open spec fn spec_index(self) -> usize {
        self
    }

    proof fn key_model() {
        broadcast use vstd::std_specs::hash::group_hash_axioms;

    }

    fn to_action_index(self) -> (r: usize) {
        self
    }
}

/// Whether no two different actions of `actions` share a slot, and all slots are below `n`.
pub open spec fn slots_ok<A: Act>(actions: Seq<A>, n: usize) -> bool {
    &&& forall|i: int| 0 <= i < actions.len() ==> (#[trigger] actions[i]).spec_index() < n
    &&& forall|i: int, j: int|
        #![trigger actions[i], actions[j]]
        0 <= i < actions.len() && 0 <= j < actions.len() && actions[i].spec_index()
            == actions[j].spec_index() ==> actions[i] == actions[j]
}

/// Implement this trait for any concrete environment the search should run on.
///
/// The hash of a state identifies it: what can be played, whether the game is over and which
/// state an action leads to are the same for all states with one hash.
pub trait Environment: Clone {
    type Act: Act;

    type Obs: Obs;

    /// The identity of this state.
    closed spec fn spec_hash(&self) -> u64 {
        arbitrary()
    }

    /// The state that `action` leads to from the state `id`.
    closed spec fn spec_next(id: u64, action: Self::Act) -> u64 {
        arbitrary()
    }

    /// Whether the state `id` is terminal.
    closed spec fn spec_done(id: u64) -> bool {
        arbitrary()
    }

    /// The valid actions of the state `id`.
    closed spec fn spec_actions(id: u64) -> Seq<Self::Act> {
        arbitrary()
    }

    /// The size of the action space of the state `id`.
    closed spec fn spec_num_actions(id: u64) -> usize {
        arbitrary()
    }

    /// A clone is the same state.
    proof fn clone_law(a: Self, b: Self)
        requires
            cloned::<Self>(a, b),
        ensures
            b.spec_hash() == a.spec_hash(),
    ;

    /// Every valid action of a state has a slot of its own below the size of the action space.
    proof fn slots_law(id: u64)
        ensures
            slots_ok(Self::spec_actions(id), Self::spec_num_actions(id)),
    ;

    /// Apply the action to the environment (mutates self).
    fn step(&mut self, action: Self::Act)
        ensures
            final(self).spec_hash() == Self::spec_next(old(self).spec_hash(), action),
    ;

    /// Is the environment in a terminal state?
    fn done(&self) -> (r: bool)
        ensures
            r == Self::spec_done(self.spec_hash()),
    ;

    /// Return the observation vector for the current state.
    fn observation(&self) -> Self::Obs;

    /// Return the list of valid actions in the current state.
    fn valid_actions(&self) -> (r: Vec<Self::Act>)
        ensures
            r@ == Self::spec_actions(self.spec_hash()),
    ;

    /// Return the size of the action space at the current state.
    fn num_actions(&self) -> (r: usize)
        ensures
            r == Self::spec_num_actions(self.spec_hash()),
    ;

    /// Return a compact hash / id for the current state.
    fn hash(&self) -> (r: u64)
        ensures
            r == self.spec_hash(),
    ;

    /// Render a string representation (used for debugging).
    fn render(&self) -> String;
}

/// Whether an observation is one of a state.
pub open spec fn is_seen<E: Environment>(state: u64, obs: E::Obs) -> bool {
    exists|e: E| #[trigger] call_ensures(E::observation, (&e,), obs) && e.spec_hash() == state
}

} // verus!
