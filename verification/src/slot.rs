//! Slots: the units of work exchanged between the search and the inference process.

use crate::comms::{actions_of, at_most, dense_prior, read_mask, read_tokens, write_prior};
use crate::observation::{
    repeated, Action, Observation, ObservationView, GRID_MAX, MAX_BATCH, MAX_OBJ0, MAX_OBJ1,
    NUM_ACTIONS,
};
use crate::scalar::{filled, zero, Scalar};
use std::collections::HashMap;
use vstd::prelude::*;

verus! {

/// The slot is unused.
pub const SLOT_FREE: u32 = 0;

/// The slot has inputs which are ready for processing.
pub const SLOT_READY: u32 = 1;

/// The slot is being processed.
pub const SLOT_WAITING: u32 = 2;

/// The slot has completed processing and outputs are ready.
pub const SLOT_DONE: u32 = 3;

/// The header of a slot: its state, the size of its batch, who asks, and with which request.
pub struct SlotHead {
    pub state: u32,
    pub b: u32,
    pub owner_id: u32,
    pub req_id: u64,
}

/// What an arena asks of the slots it manages.
pub trait SlotInit: Sized {
    /// The header.
    spec fn head(&self) -> SlotHead;

    /// Whether two slots hold the same inputs.
    spec fn same_inputs(&self, other: &Self) -> bool;

    /// Whether two slots hold the same outputs.
    spec fn same_outputs(&self, other: &Self) -> bool;

    /// Whether all outputs are zero.
    spec fn outputs_cleared(&self) -> bool;

    /// The state.
    fn state(&self) -> (r: u32)
        ensures
            r == self.head().state,
    ;

    /// Sets the state.
    fn set_state(&mut self, state: u32)
        ensures
            final(self).head() == (SlotHead { state, ..old(self).head() }),
            final(self).same_inputs(old(self)),
            final(self).same_outputs(old(self)),
    ;

    /// Sets the request.
    fn set_request(&mut self, b: u32, owner_id: u32, req_id: u64)
        ensures
            final(self).head() == (SlotHead { b, owner_id, req_id, ..old(self).head() }),
            final(self).same_inputs(old(self)),
            final(self).same_outputs(old(self)),
    ;

    /// Sets all outputs to zero.
    fn clear_outputs(&mut self)
        ensures
            final(self).head() == old(self).head(),
            final(self).same_inputs(old(self)),
            final(self).outputs_cleared(),
    ;
}

/// A slot for token observations.
pub struct Slot<R: Scalar> {
    pub state: u32,
    pub b: u32,
    pub owner_id: u32,
    pub req_id: u64,
    pub h: Vec<u8>,
    pub w: Vec<u8>,
    pub obj0_len: Vec<u16>,
    pub obj1_len: Vec<u16>,
    pub placement: Vec<u16>,
    pub obj0: Vec<u16>,
    pub obj1: Vec<u16>,
    pub action_mask: Vec<u8>,
    pub priors: Vec<R>,
    pub values: Vec<R>,
}

/// Why priors and values were not packed.
#[derive(Clone, Copy, Debug, PartialEq, Eq, Structural)]
pub enum PackError {
    /// The number of priors is not that of the batch.
    Priors { given: usize, batch: usize },
    /// The number of values is not that of the batch.
    Values { given: usize, batch: usize },
}

impl<R: Scalar> Slot<R> {
    /// The arrays have the sizes of a full batch, and what is counted lies in them.
    pub open spec fn wf(&self) -> bool {
        &&& self.b <= MAX_BATCH
        &&& self.h@.len() == MAX_BATCH
        &&& self.w@.len() == MAX_BATCH
        &&& self.obj0_len@.len() == MAX_BATCH
        &&& self.obj1_len@.len() == MAX_BATCH
        &&& self.placement@.len() == MAX_BATCH * GRID_MAX
        &&& self.obj0@.len() == MAX_BATCH * MAX_OBJ0
        &&& self.obj1@.len() == MAX_BATCH * MAX_OBJ1
        &&& self.action_mask@.len() == MAX_BATCH * NUM_ACTIONS
        &&& self.priors@.len() == MAX_BATCH * NUM_ACTIONS
        &&& self.values@.len() == MAX_BATCH
        &&& forall|i: int|
            0 <= i < self.b ==> i * MAX_OBJ0 + (#[trigger] self.obj0_len@[i]) <= MAX_BATCH
                * MAX_OBJ0
        &&& forall|i: int|
            0 <= i < self.b ==> i * MAX_OBJ1 + (#[trigger] self.obj1_len@[i]) <= MAX_BATCH
                * MAX_OBJ1
    }

    /// The observation `i` of the batch: the cells of its grid, the objectives counted, and the
    /// actions that its mask sets. A slot does not tell the number of ancillas.
    pub open spec fn observation(&self, i: int) -> ObservationView {
        let n = at_most((self.h@[i] * self.w@[i]) as nat, GRID_MAX as nat);
        ObservationView {
            placement: self.placement@.subrange(i * GRID_MAX, i * GRID_MAX + n),
            objectives_0: self.obj0@.subrange(i * MAX_OBJ0, i * MAX_OBJ0 + self.obj0_len@[i]),
            objectives_1: self.obj1@.subrange(i * MAX_OBJ1, i * MAX_OBJ1 + self.obj1_len@[i]),
            height: self.h@[i] as usize,
            width: self.w@[i] as usize,
            num_ancillas: 0,
            valid_actions: actions_of(
                self.action_mask@.subrange(i * NUM_ACTIONS, i * NUM_ACTIONS + NUM_ACTIONS),
                NUM_ACTIONS as nat,
            ),
        }
    }

    /// A free slot that holds zeros.
    pub fn new() -> (r: Self)
        ensures
            r.wf(),
            r.head() == (SlotHead { state: SLOT_FREE, b: 0, owner_id: 0, req_id: 0 }),
            r.outputs_cleared(),
    {
        let zero: R = R::decimal(0, 0);
        Slot {
            state: SLOT_FREE,
            b: 0,
            owner_id: 0,
            req_id: 0,
            h: repeated(0u8, MAX_BATCH),
            w: repeated(0u8, MAX_BATCH),
            obj0_len: repeated(0u16, MAX_BATCH),
            obj1_len: repeated(0u16, MAX_BATCH),
            placement: repeated(0u16, MAX_BATCH * GRID_MAX),
            obj0: repeated(0u16, MAX_BATCH * MAX_OBJ0),
            obj1: repeated(0u16, MAX_BATCH * MAX_OBJ1),
            action_mask: repeated(0u8, MAX_BATCH * NUM_ACTIONS),
            priors: filled(&zero, MAX_BATCH * NUM_ACTIONS),
            values: filled(&zero, MAX_BATCH),
        }
    }

    /// Marks the slot as unused.
    pub fn init_free(&mut self)
        ensures
            *final(self) == (Slot { state: SLOT_FREE, ..*old(self) }),
    {
        self.state = SLOT_FREE;
    }

    /// The observations of the batch.
    pub fn unpack_observations(&self) -> (r: Vec<Observation>)
        requires
            self.wf(),
        ensures
            r@.len() == self.b,
            forall|i: int| 0 <= i < r@.len() ==> (#[trigger] r@[i])@ == self.observation(i),
    {
        let b: usize = self.b as usize;
        let mut out: Vec<Observation> = Vec::with_capacity(b);
        let mut i: usize = 0;
        while i < b
            invariant
                i <= b,
                b == self.b,
                self.wf(),
                out@.len() == i,
                forall|k: int| 0 <= k < i ==> (#[trigger] out@[k])@ == self.observation(k),
            decreases b - i,
        {
            let height: usize = self.h[i] as usize;
            let width: usize = self.w[i] as usize;
            assert(height * width <= 255 * 255) by (nonlinear_arith)
                requires
                    height <= 255,
                    width <= 255,
            ;
            let area: usize = height * width;
            let n: usize = if area <= GRID_MAX {
                area
            } else {
                GRID_MAX
            };
            let n0: usize = self.obj0_len[i] as usize;
            let n1: usize = self.obj1_len[i] as usize;
            assert(i * MAX_OBJ0 + self.obj0_len@[i as int] <= MAX_BATCH * MAX_OBJ0);
            assert(i * MAX_OBJ1 + self.obj1_len@[i as int] <= MAX_BATCH * MAX_OBJ1);
            let o: Observation = Observation {
                placement: read_tokens(&self.placement, i * GRID_MAX, n),
                objectives_0: read_tokens(&self.obj0, i * MAX_OBJ0, n0),
                objectives_1: read_tokens(&self.obj1, i * MAX_OBJ1, n1),
                height,
                width,
                num_ancillas: 0,
                valid_actions: read_mask(&self.action_mask, i * NUM_ACTIONS, NUM_ACTIONS),
            };
            assert(o@ =~= self.observation(i as int));
            out.push(o);
            i += 1;
        }
        out
    }

    /// Writes the priors and values of the batch. Each entry clears all priors before it writes
    /// its own, so after the call the priors of the last entry stand alone.
    pub fn pack_priors_values(
        &mut self,
        priors: &Vec<HashMap<Action, R>>,
        values: &Vec<R>,
    ) -> (r: Result<(), PackError>)
        requires
            old(self).wf(),
            forall|i: int, a: Action|
                0 <= i < priors@.len() && #[trigger] priors@[i]@.contains_key(a) ==> a
                    < NUM_ACTIONS,
        ensures
            r == (if priors@.len() != old(self).b {
                Err(
                    PackError::Priors {
                        given: priors@.len() as usize,
                        batch: old(self).b as usize,
                    },
                )
            } else if values@.len() != old(self).b {
                Err(
                    PackError::Values {
                        given: values@.len() as usize,
                        batch: old(self).b as usize,
                    },
                )
            } else {
                Ok(())
            }),
            r is Err ==> *final(self) == *old(self),
            final(self).head() == old(self).head(),
            final(self).same_inputs(old(self)),
            final(self).wf(),
            r is Ok && old(self).b == 0 ==> final(self).priors@ == old(self).priors@,
            r is Ok && old(self).b > 0 ==> final(self).priors@ == lone_prior(
                priors@.last()@,
                old(self).b - 1,
            ),
            r is Ok ==> forall|i: int|
                0 <= i < MAX_BATCH ==> #[trigger] final(self).values@[i] == (if i < old(self).b {
                    values@[i]
                } else {
                    old(self).values@[i]
                }),
    {
        let b: usize = self.b as usize;
        if priors.len() != b {
            return Err(PackError::Priors { given: priors.len(), batch: b });
        }
        if values.len() != b {
            return Err(PackError::Values { given: values.len(), batch: b });
        }
        let ghost before = *self;
        let zero: R = R::decimal(0, 0);
        let mut i: usize = 0;
        while i < b
            invariant
                i <= b,
                b == before.b,
                before.wf(),
                zero == crate::scalar::zero::<R>(),
                priors@.len() == b,
                values@.len() == b,
                forall|i: int, a: Action|
                    0 <= i < priors@.len() && #[trigger] priors@[i]@.contains_key(a) ==> a
                        < NUM_ACTIONS,
                self.wf(),
                self.head() == before.head(),
                self.same_inputs(&before),
                i == 0 ==> self.priors@ == before.priors@,
                i > 0 ==> self.priors@ == lone_prior(priors@[i - 1]@, i - 1),
                forall|k: int|
                    0 <= k < MAX_BATCH ==> #[trigger] self.values@[k] == (if k < i {
                        values@[k]
                    } else {
                        before.values@[k]
                    }),
            decreases b - i,
        {
            let mut all: Vec<R> = filled(&zero, MAX_BATCH * NUM_ACTIONS);
            write_prior(&mut all, i * NUM_ACTIONS, NUM_ACTIONS, &priors[i]);
            proof {
                assert forall|k: int| 0 <= k < MAX_BATCH * NUM_ACTIONS implies #[trigger] all@[k]
                    == lone_prior(priors@[i as int]@, i as int)[k] by {
                    if i * NUM_ACTIONS <= k < i * NUM_ACTIONS + NUM_ACTIONS {
                        let s = all@.subrange(i * NUM_ACTIONS, i * NUM_ACTIONS + NUM_ACTIONS);
                        assert(s[k - i * NUM_ACTIONS] == all@[k]);
                    }
                }
                assert(all@ =~= lone_prior(priors@[i as int]@, i as int));
            }
            self.priors = all;
            self.values[i] = values[i].dup();
            i += 1;
        }
        Ok(())
    }
}

/// The priors of a whole batch where only the entry `i` has any.
pub open spec fn lone_prior<R: Scalar>(prior: Map<Action, R>, i: int) -> Seq<R> {
    Seq::new(
        (MAX_BATCH * NUM_ACTIONS) as nat,
        |k: int|
            if i * NUM_ACTIONS <= k < i * NUM_ACTIONS + NUM_ACTIONS {
                dense_prior(prior, NUM_ACTIONS as nat)[k - i * NUM_ACTIONS]
            } else {
                zero()
            },
    )
}

impl<R: Scalar> SlotInit for Slot<R> {
    open spec fn head(&self) -> SlotHead {
        SlotHead { state: self.state, b: self.b, owner_id: self.owner_id, req_id: self.req_id }
    }

    open spec fn same_inputs(&self, other: &Self) -> bool {
        &&& self.h@ == other.h@
        &&& self.w@ == other.w@
        &&& self.obj0_len@ == other.obj0_len@
        &&& self.obj1_len@ == other.obj1_len@
        &&& self.placement@ == other.placement@
        &&& self.obj0@ == other.obj0@
        &&& self.obj1@ == other.obj1@
        &&& self.action_mask@ == other.action_mask@
    }

    open spec fn same_outputs(&self, other: &Self) -> bool {
        self.priors@ == other.priors@ && self.values@ == other.values@
    }

    open spec fn outputs_cleared(&self) -> bool {
        &&& forall|i: int| 0 <= i < self.priors@.len() ==> #[trigger] self.priors@[i] == zero::<R>()
        &&& forall|i: int| 0 <= i < self.values@.len() ==> #[trigger] self.values@[i] == zero::<R>()
    }

    fn state(&self) -> (r: u32) {
        self.state
    }

    fn set_state(&mut self, state: u32) {
        self.state = state;
    }

    fn set_request(&mut self, b: u32, owner_id: u32, req_id: u64) {
        self.b = b;
        self.owner_id = owner_id;
        self.req_id = req_id;
    }

    fn clear_outputs(&mut self) {
        let zero: R = R::decimal(0, 0);
        self.priors = filled(&zero, self.priors.len());
        self.values = filled(&zero, self.values.len());
    }
}

} // verus!
