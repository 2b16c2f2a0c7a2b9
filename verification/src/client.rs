//! Inference clients for the tiling environment: one that talks to a handler through an arena,
//! and one that answers with uniform priors.

use crate::arena::{has_submitted, only_slot_changed, Arena};
use crate::scalar::{filled, one, zero, Scalar};
use crate::slot::{SlotHead, SlotInit, SLOT_FREE, SLOT_READY};
use crate::tilers_obs::{Action, TilersObs, LOOKAHEAD_MAX, MAX_BATCH, NUM_ACTIONS};
use crate::tilers_slot::{pack_obs, tall_board, BatchError, TilersSlot};
use std::collections::HashMap;
use vstd::prelude::*;

verus! {

/// Why a request was not answered.
#[derive(Clone, Copy, Debug, PartialEq, Eq, Structural)]
pub enum ClientError {
    /// The batch is empty or too large.
    Batch { batch: usize },
    /// A board has more layers than a slot has room for.
    Layers { layers: usize },
    /// No slot is free at the moment.
    NoFreeSlot,
    /// The slot holds the answer to another request.
    Mismatch { owner_id: u32, req_id: u64, found_owner_id: u32, found_req_id: u64 },
}

/// The actions of a mask with the numbers that `dense` has for them from `start` on.
pub open spec fn masked_prior<R: Scalar>(mask: Seq<bool>, dense: Seq<R>, start: int) -> Map<
    Action,
    R,
> {
    Map::new(
        |a: Action| a < mask.len() && mask[a as int],
        |a: Action| dense[start + a as int],
    )
}

/// The actions of a mask with the numbers that `dense` has for them from `start` on.
pub fn read_prior<R: Scalar>(mask: &Vec<bool>, dense: &Vec<R>, start: usize) -> (r: HashMap<
    Action,
    R,
>)
    requires
        start + mask@.len() <= dense@.len(),
        mask@.len() <= 65536,
    ensures
        r@ == masked_prior(mask@, dense@, start as int),
{
    broadcast use vstd::std_specs::hash::group_hash_axioms;

    let mut prior: HashMap<Action, R> = HashMap::new();
    let mut a: usize = 0;
    while a < mask.len()
        invariant
            a <= mask@.len(),
            start + mask@.len() <= dense@.len(),
            mask@.len() <= 65536,
            vstd::std_specs::hash::obeys_key_model::<Action>(),
            forall|k: Action| #[trigger]
                prior@.contains_key(k) <==> k < a && mask@[k as int],
            forall|k: Action| #[trigger]
                prior@.contains_key(k) ==> prior@[k] == dense@[start + k as int],
        decreases mask.len() - a,
    {
        assert(dense.len() == dense@.len());
        if mask[a] {
            prior.insert(a as Action, dense[start + a].dup());
        }
        a += 1;
    }
    assert(prior@ =~= masked_prior(mask@, dense@, start as int));
    prior
}

/// For neural network inference: the requests of one owner through an arena.
pub struct TilersIpcClient {
    pub owner_id: u32,
    pub next_req_id: u64,
    pub print_timing: bool,
}

/// Checks that a slot holds the answer to a request.
pub fn check_answer(owner_id: u32, req_id: u64, found_owner_id: u32, found_req_id: u64) -> (r: Result<
    (),
    ClientError,
>)
    ensures
        r == (if found_owner_id != owner_id || found_req_id != req_id {
            Err::<(), ClientError>(
                ClientError::Mismatch { owner_id, req_id, found_owner_id, found_req_id },
            )
        } else {
            Ok(())
        }),
{
    if found_owner_id != owner_id || found_req_id != req_id {
        return Err(ClientError::Mismatch { owner_id, req_id, found_owner_id, found_req_id });
    }
    Ok(())
}

/// The number of the request after `k`.
pub open spec fn next_request(k: u64) -> u64 {
    if k == u64::MAX {
        0
    } else {
        (k + 1) as u64
    }
}

impl TilersIpcClient {
    /// A client that has made no request.
    pub fn new(owner_id: u32) -> (r: Self)
        ensures
            r.owner_id == owner_id,
            r.next_req_id == 0,
            r.print_timing == false,
    {
        TilersIpcClient { owner_id, next_req_id: 0, print_timing: false }
    }

    /// The client with the report of times switched on or off.
    pub fn with_timing(self, enabled: bool) -> (r: Self)
        ensures
            r == (TilersIpcClient { print_timing: enabled, ..self }),
    {
        TilersIpcClient { owner_id: self.owner_id, next_req_id: self.next_req_id, print_timing: enabled }
    }

    /// The first half of a request: takes a free slot, writes the observations into it, marks
    /// it ready and hands it to the next handler in turn. Returns the slot and the number of
    /// the request.
    ///
    /// A batch that is empty or too large is refused before a slot is taken. For a board with too
    /// many layers the slot is taken and given back, and the number of the request is used up.
    pub fn begin<R: Scalar>(
        &mut self,
        arena: &mut Arena<TilersSlot<R>>,
        observations: &[TilersObs],
    ) -> (r: Result<(u32, u64), ClientError>)
        requires
            old(arena).wf(),
            forall|i: int| 0 <= i < old(arena).slots@.len() ==> (#[trigger] old(arena).slots@[i]).wf(),
        ensures
            final(arena).wf(),
            final(arena).num_slots == old(arena).num_slots,
            forall|i: int|
                0 <= i < final(arena).slots@.len() ==> (#[trigger] final(arena).slots@[i]).wf(),
            final(self).owner_id == old(self).owner_id,
            final(self).print_timing == old(self).print_timing,
            observations@.len() == 0 || observations@.len() > MAX_BATCH ==> r == Err::<
                (u32, u64),
                ClientError,
            >(ClientError::Batch { batch: observations@.len() as usize }),
            0 < observations@.len() <= MAX_BATCH && old(arena).hdr.free_q@.len() == 0 ==> r
                == Err::<(u32, u64), ClientError>(ClientError::NoFreeSlot),
            0 < observations@.len() <= MAX_BATCH && old(arena).hdr.free_q@.len() > 0 ==> (
            match tall_board(observations@, observations@.len()) {
                Some(layers) => r == Err::<(u32, u64), ClientError>(ClientError::Layers { layers }),
                None => r is Ok,
            }),
            0 < observations@.len() <= MAX_BATCH && old(arena).hdr.free_q@.len() > 0 ==> (r is Ok
                <==> forall|i: int|
                0 <= i < observations@.len() ==> (#[trigger] observations@[i]).board@.len()
                    <= LOOKAHEAD_MAX),
            r is Err && r->Err_0 is Layers ==> {
                let slot = old(arena).hdr.free_q@[0];
                let s = old(arena).slots@[slot as int];
                let req = old(self).next_req_id;
                &&& final(self).next_req_id == next_request(req)
                &&& final(arena).hdr.free_q@ == old(arena).hdr.free_q@.drop_first().push(slot)
                &&& final(arena).hdr.ready_q == old(arena).hdr.ready_q
                &&& final(arena).hdr.next_handler == old(arena).hdr.next_handler
                &&& only_slot_changed(old(arena), final(arena), slot)
                &&& final(arena).slots@[slot as int].head() == (SlotHead {
                    state: SLOT_FREE,
                    b: observations@.len() as u32,
                    owner_id: old(self).owner_id,
                    req_id: req,
                })
                &&& final(arena).slots@[slot as int].same_inputs(&s)
                &&& final(arena).slots@[slot as int].same_outputs(&s)
            },
            r is Err && !(r->Err_0 is Layers) ==> {
                &&& *final(self) == *old(self)
                &&& final(arena).hdr.free_q@ == old(arena).hdr.free_q@
                &&& final(arena).hdr.ready_q == old(arena).hdr.ready_q
                &&& final(arena).slots == old(arena).slots
            },
            r matches Ok((slot, req)) ==> {
                let s = final(arena).slots@[slot as int];
                &&& slot == old(arena).hdr.free_q@[0]
                &&& req == old(self).next_req_id
                &&& final(self).next_req_id == next_request(req)
                &&& final(arena).hdr.free_q@ == old(arena).hdr.free_q@.drop_first()
                &&& only_slot_changed(old(arena), final(arena), slot)
                &&& s.head() == (SlotHead {
                    state: SLOT_READY,
                    b: observations@.len() as u32,
                    owner_id: old(self).owner_id,
                    req_id: req,
                })
                &&& forall|i: int|
                    0 <= i < observations@.len() ==> #[trigger] s.entry(i) == pack_obs(
                        observations@[i]@,
                    )
                &&& has_submitted(old(arena).hdr, final(arena).hdr, slot)
            },
    {
        let b: usize = observations.len();
        if b == 0 || b > MAX_BATCH {
            return Err(ClientError::Batch { batch: b });
        }
        let slot: u32 = match arena.acquire_slot() {
            Some(s) => s,
            None => {
                return Err(ClientError::NoFreeSlot);
            },
        };
        let ghost before = *arena;
        let i: usize = slot as usize;
        let req: u64 = self.next_req_id;
        self.next_req_id = req.wrapping_add(1);
        arena.slots[i].set_request(b as u32, self.owner_id, req);
        assert(arena.slots@[i as int].wf()) by {
            assert(before.slots@[i as int].wf());
        }
        let ghost asked = arena.slots@[i as int];
        let packed: Result<(), BatchError> = arena.slots[i].pack_observations(observations);
        if let Err(e) = packed {
            proof {
                assert(arena.slots@[i as int] == asked);
                assert forall|s: u32| true implies #[trigger] arena.hdr.queued(s)
                    == before.hdr.queued(s) by {}
            }
            let ghost held = *arena;
            arena.release_slot(slot);
            proof {
                assert forall|k: int| 0 <= k < arena.slots@.len() implies (
                #[trigger] arena.slots@[k]).wf() by {
                    if k != i {
                        assert(arena.slots@[k] == held.slots@[k]);
                        assert(arena.slots@[k] == before.slots@[k]);
                    }
                }
            }
            return match e {
                BatchError::Layers { layers } => Err(ClientError::Layers { layers }),
                BatchError::Size { batch } => Err(ClientError::Batch { batch }),
            };
        }
        let ghost filled_slot = arena.slots@[i as int];
        arena.slots[i].set_state(SLOT_READY);
        proof {
            let s = arena.slots@[i as int];
            assert forall|k: int| 0 <= k < observations@.len() implies #[trigger] s.entry(k)
                == pack_obs(observations@[k]@) by {
                assert(filled_slot.entry(k) == pack_obs(observations@[k]@));
                assert(s.entry(k) =~= filled_slot.entry(k));
            }
            assert(s.wf());
            assert forall|k: int| 0 <= k < arena.slots@.len() implies (
            #[trigger] arena.slots@[k]).wf() by {
                if k != i {
                    assert(arena.slots@[k] == before.slots@[k]);
                }
            }
            assert forall|s: u32| true implies #[trigger] arena.hdr.queued(s)
                == before.hdr.queued(s) by {}
        }
        arena.submit_to_handler(slot);
        proof {
            assert(only_slot_changed(&before, arena, slot));
        }
        Ok((slot, req))
    }

    /// The second half of a request, once its slot is done: reads the priors of the valid
    /// actions and the values, and gives the slot back. An answer to another request is
    /// refused, and the slot given back as well.
    pub fn finish<R: Scalar>(
        &self,
        arena: &mut Arena<TilersSlot<R>>,
        slot: u32,
        req_id: u64,
        observations: &[TilersObs],
    ) -> (r: Result<(Vec<HashMap<Action, R>>, Vec<R>), ClientError>)
        requires
            old(arena).wf(),
            old(arena).checked_out(slot),
            old(arena).slots@[slot as int].wf(),
            observations@.len() <= MAX_BATCH,
            forall|i: int|
                0 <= i < observations@.len() ==> i * NUM_ACTIONS + (
                #[trigger] observations@[i]).action_mask@.len() <= MAX_BATCH * NUM_ACTIONS,
        ensures
            final(arena).wf(),
            final(arena).hdr.free_q@ == old(arena).hdr.free_q@.push(slot),
            final(arena).hdr.ready_q == old(arena).hdr.ready_q,
            only_slot_changed(old(arena), final(arena), slot),
            ({
                let s = old(arena).slots@[slot as int];
                if s.owner_id != self.owner_id || s.req_id != req_id {
                    r == Err::<(Vec<HashMap<Action, R>>, Vec<R>), ClientError>(
                        ClientError::Mismatch {
                            owner_id: self.owner_id,
                            req_id,
                            found_owner_id: s.owner_id,
                            found_req_id: s.req_id,
                        },
                    )
                } else {
                    &&& r matches Ok((priors, values))
                    &&& priors@.len() == observations@.len()
                    &&& forall|i: int|
                        0 <= i < priors@.len() ==> (#[trigger] priors@[i])@ == masked_prior(
                            observations@[i].action_mask@,
                            s.priors@,
                            i * NUM_ACTIONS,
                        )
                    &&& values@ == s.values@.take(observations@.len() as int)
                }
            }),
    {
        let s: &TilersSlot<R> = &arena.slots[slot as usize];
        if let Err(e) = check_answer(self.owner_id, req_id, s.owner_id, s.req_id) {
            arena.release_slot(slot);
            return Err(e);
        }
        let b: usize = observations.len();
        let mut priors: Vec<HashMap<Action, R>> = Vec::with_capacity(b);
        let mut values: Vec<R> = Vec::with_capacity(b);
        let mut i: usize = 0;
        while i < b
            invariant
                i <= b,
                b == observations@.len(),
                b <= MAX_BATCH,
                s.wf(),
                forall|i: int|
                    0 <= i < observations@.len() ==> i * NUM_ACTIONS + (
                    #[trigger] observations@[i]).action_mask@.len() <= MAX_BATCH * NUM_ACTIONS,
                priors@.len() == i,
                forall|k: int|
                    0 <= k < i ==> (#[trigger] priors@[k])@ == masked_prior(
                        observations@[k].action_mask@,
                        s.priors@,
                        k * NUM_ACTIONS,
                    ),
                values@ == s.values@.take(i as int),
            decreases b - i,
        {
            assert(i * NUM_ACTIONS + observations@[i as int].action_mask@.len() <= MAX_BATCH
                * NUM_ACTIONS);
            priors.push(read_prior(&observations[i].action_mask, &s.priors, i * NUM_ACTIONS));
            values.push(s.values[i].dup());
            i += 1;
            assert(values@ =~= s.values@.take(i as int));
        }
        arena.release_slot(slot);
        Ok((priors, values))
    }
}

/// For fast non-neural uniform priors.
pub struct TrivialTilersIpcClient {}

impl TrivialTilersIpcClient {
    /// Prior 1 for every valid action of every observation, and value 0.
    pub fn infer<R: Scalar>(&self, observations: &[TilersObs]) -> (r: (
        Vec<HashMap<Action, R>>,
        Vec<R>,
    ))
        requires
            forall|i: int|
                0 <= i < observations@.len() ==> (#[trigger] observations@[i]).action_mask@.len()
                    <= 65536,
        ensures
            r.0@.len() == observations@.len(),
            forall|i: int|
                0 <= i < r.0@.len() ==> (#[trigger] r.0@[i])@ == ones_prior::<R>(
                    observations@[i].action_mask@,
                ),
            r.1@ == Seq::new(observations@.len(), |i: int| zero::<R>()),
    {
        let b: usize = observations.len();
        let mut priors: Vec<HashMap<Action, R>> = Vec::with_capacity(b);
        let mut i: usize = 0;
        while i < b
            invariant
                i <= b,
                b == observations@.len(),
                forall|i: int|
                    0 <= i < observations@.len() ==> (
                    #[trigger] observations@[i]).action_mask@.len() <= 65536,
                priors@.len() == i,
                forall|k: int|
                    0 <= k < i ==> (#[trigger] priors@[k])@ == ones_prior::<R>(
                        observations@[k].action_mask@,
                    ),
            decreases b - i,
        {
            let mask: &Vec<bool> = &observations[i].action_mask;
            assert(observations@[i as int].action_mask@.len() <= 65536);
            let ones: Vec<R> = filled(&R::decimal(1, 0), mask.len());
            let prior: HashMap<Action, R> = read_prior(mask, &ones, 0);
            assert(prior@ =~= ones_prior::<R>(mask@));
            priors.push(prior);
            i += 1;
        }
        let values: Vec<R> = filled(&R::decimal(0, 0), b);
        assert(values@ =~= Seq::new(observations@.len(), |i: int| zero::<R>()));
        (priors, values)
    }
}

/// Prior 1 for every action of a mask.
pub open spec fn ones_prior<R: Scalar>(mask: Seq<bool>) -> Map<Action, R> {
    Map::new(|a: Action| a < mask.len() && mask[a as int], |a: Action| one::<R>())
}

/// A request is answered with what the handler wrote for it: whatever the slot held before, each
/// observation gets the numbers of its own row for the actions of its mask, and its own value.
pub proof fn law_answers_are_those_written<R: Scalar>(
    priors: Seq<R>,
    stale_priors: Seq<R>,
    values: Seq<R>,
    stale_values: Seq<R>,
    mask: Seq<bool>,
    i: int,
)
    requires
        priors.len() == values.len() * NUM_ACTIONS,
        mask.len() <= NUM_ACTIONS,
        0 <= i < values.len(),
    ensures
        masked_prior(mask, priors + stale_priors, i * NUM_ACTIONS) == masked_prior(
            mask,
            priors.subrange(i * NUM_ACTIONS, (i + 1) * NUM_ACTIONS),
            0,
        ),
        (values + stale_values).take(values.len() as int) == values,
{
    assert((i + 1) * NUM_ACTIONS <= priors.len()) by (nonlinear_arith)
        requires
            priors.len() == values.len() * NUM_ACTIONS,
            0 <= i < values.len(),
    ;
    assert(0 <= i * NUM_ACTIONS) by (nonlinear_arith)
        requires
            0 <= i,
    ;
    assert((i + 1) * NUM_ACTIONS == i * NUM_ACTIONS + NUM_ACTIONS) by (nonlinear_arith);
    assert(masked_prior(mask, priors + stale_priors, i * NUM_ACTIONS) =~= masked_prior(
        mask,
        priors.subrange(i * NUM_ACTIONS, (i + 1) * NUM_ACTIONS),
        0,
    ));
    assert((values + stale_values).take(values.len() as int) =~= values);
}

} // verus!
