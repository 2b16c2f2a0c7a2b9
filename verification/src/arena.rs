//! The arena that the search and the inference handlers share: a header with a queue of free
//! slots and a queue of ready slots per handler, and the slots themselves.
//!
//! The types here are the contents of the shared region. Whoever maps it performs the blocking
//! operations by repeating the ones below, with the pauses of [`crate::ring`].

use crate::ring::{RingQueue, QCAP};
use crate::slot::{SlotHead, SlotInit, SLOT_DONE, SLOT_FREE, SLOT_READY};
use crate::text::{digits, number_text};
use vstd::prelude::*;
use vstd::string::StringExecFns;

verus! {

/// The maximum number of handlers.
pub const MAX_HANDLERS: usize = 4;

/// What an initialized header starts with.
pub const ARENA_MAGIC: u64 = 0x4D435453495043;

/// The version of the layout.
pub const ARENA_VERSION: u32 = 1;

/// Why an arena cannot be opened.
#[derive(Clone, Copy, Debug, PartialEq, Eq, Structural)]
pub enum ArenaError {
    /// No slots were asked for.
    NoSlots,
    /// More slots were asked for than a queue has cells.
    TooManySlots { num_slots: usize },
    /// The number of handlers is 0 or above the maximum.
    BadHandlers { num_handlers: usize },
    /// The header does not start as it should.
    MagicMismatch,
    /// The header is of another version.
    VersionMismatch { found: u32 },
    /// The arena exists with another number of slots.
    SlotsMismatch { found: u32, requested: usize },
    /// The arena exists with another number of handlers.
    HandlersMismatch { found: u32, requested: usize },
}

/// The header of an arena.
pub struct ArenaHeader {
    pub magic: u64,
    pub version: u32,
    pub num_slots: u32,
    pub num_handlers: u32,
    pub free_q: RingQueue,
    pub ready_q: Vec<RingQueue>,
    pub next_handler: u32,
    pub init_lock: u32,
    pub init_done: u32,
}

/// What a process does with the header that it found.
#[derive(Clone, Copy, Debug, PartialEq, Eq, Structural)]
pub enum OpenStep {
    /// It is initialized: go on and check it.
    Check,
    /// It is not, and nobody is at it: initialize it.
    Initialize,
    /// Someone else is initializing it: wait, then check it.
    Wait,
}

/// The file behind an arena.
pub fn arena_file_path(name: &str) -> (r: String)
    ensures
        r@ == "/tmp/"@ + name@ + ".mmap"@,
{
    String::from_str("/tmp/").concat(name).concat(".mmap")
}

/// The name of the arena for a number of slots and handlers.
pub fn arena_name(num_slots: usize, num_handlers: usize) -> (r: String)
    ensures
        r@ == "mcts_"@ + digits(num_slots as nat) + "_"@ + digits(num_handlers as nat),
{
    let slots: String = number_text(num_slots as u64);
    let handlers: String = number_text(num_handlers as u64);
    String::from_str("mcts_").concat(slots.as_str()).concat("_").concat(handlers.as_str())
}

/// What is wrong with a request for an arena.
pub open spec fn request_error(num_slots: usize, num_handlers: usize) -> Option<ArenaError> {
    if num_slots == 0 {
        Some(ArenaError::NoSlots)
    } else if num_slots > QCAP {
        Some(ArenaError::TooManySlots { num_slots })
    } else if num_handlers == 0 || num_handlers > MAX_HANDLERS {
        Some(ArenaError::BadHandlers { num_handlers })
    } else {
        None
    }
}

/// Checks a request for an arena.
pub fn check_request(num_slots: usize, num_handlers: usize) -> (r: Result<(), ArenaError>)
    ensures
        r == (match request_error(num_slots, num_handlers) {
            Some(e) => Err(e),
            None => Ok(()),
        }),
{
    if num_slots == 0 {
        return Err(ArenaError::NoSlots);
    }
    if num_slots > QCAP {
        return Err(ArenaError::TooManySlots { num_slots });
    }
    if num_handlers == 0 || num_handlers > MAX_HANDLERS {
        return Err(ArenaError::BadHandlers { num_handlers });
    }
    Ok(())
}

/// Whether a header with these fields has to be initialized.
pub open spec fn spec_needs_init(init_done: u32, magic: u64, version: u32) -> bool {
    init_done == 0 || magic != ARENA_MAGIC || version != ARENA_VERSION
}

/// What to do with a header that was found with these fields.
pub fn open_step(init_done: u32, magic: u64, version: u32, init_lock: u32) -> (r: OpenStep)
    ensures
        r == (if !spec_needs_init(init_done, magic, version) {
            OpenStep::Check
        } else if init_lock == 0 {
            OpenStep::Initialize
        } else {
            OpenStep::Wait
        }),
{
    if init_done == 0 || magic != ARENA_MAGIC || version != ARENA_VERSION {
        if init_lock == 0 {
            OpenStep::Initialize
        } else {
            OpenStep::Wait
        }
    } else {
        OpenStep::Check
    }
}

/// What is wrong with a header, for a request.
pub open spec fn header_error(
    magic: u64,
    version: u32,
    found_slots: u32,
    found_handlers: u32,
    num_slots: usize,
    num_handlers: usize,
) -> Option<ArenaError> {
    if magic != ARENA_MAGIC {
        Some(ArenaError::MagicMismatch)
    } else if version != ARENA_VERSION {
        Some(ArenaError::VersionMismatch { found: version })
    } else if found_slots != num_slots {
        Some(ArenaError::SlotsMismatch { found: found_slots, requested: num_slots })
    } else if found_handlers != num_handlers {
        Some(ArenaError::HandlersMismatch { found: found_handlers, requested: num_handlers })
    } else {
        None
    }
}

/// Checks the fields of a header against a request.
pub fn check_header(
    magic: u64,
    version: u32,
    found_slots: u32,
    found_handlers: u32,
    num_slots: usize,
    num_handlers: usize,
) -> (r: Result<(), ArenaError>)
    requires
        num_slots <= QCAP,
        num_handlers <= MAX_HANDLERS,
    ensures
        r == (match header_error(
            magic,
            version,
            found_slots,
            found_handlers,
            num_slots,
            num_handlers,
        ) {
            Some(e) => Err(e),
            None => Ok(()),
        }),
{
    if magic != ARENA_MAGIC {
        return Err(ArenaError::MagicMismatch);
    }
    if version != ARENA_VERSION {
        return Err(ArenaError::VersionMismatch { found: version });
    }
    if found_slots != num_slots as u32 {
        return Err(ArenaError::SlotsMismatch { found: found_slots, requested: num_slots });
    }
    if found_handlers != num_handlers as u32 {
        return Err(ArenaError::HandlersMismatch { found: found_handlers, requested: num_handlers });
    }
    Ok(())
}

/// The handler whose turn it is at a count; the handlers take turns.
pub fn handler_of(count: usize, num_handlers: u32) -> (r: usize)
    requires
        num_handlers > 0,
    ensures
        r == count as int % num_handlers as int,
        r < num_handlers,
{
    count % (num_handlers as usize)
}

/// How often a slot stands in a queue.
pub open spec fn count(q: Seq<u32>, slot: u32) -> nat
    decreases q.len(),
{
    if q.len() == 0 {
        0
    } else {
        count(q.drop_last(), slot) + (if q.last() == slot {
            1nat
        } else {
            0
        })
    }
}

/// How often a slot stands in the first `n` queues.
pub open spec fn count_all(qs: Seq<RingQueue>, n: nat, slot: u32) -> nat
    decreases n,
{
    if n == 0 {
        0
    } else {
        count_all(qs, (n - 1) as nat, slot) + count(qs[n - 1]@, slot)
    }
}

impl ArenaHeader {
    /// The queues are usable, and nobody holds a lock.
    pub open spec fn queues_ok(&self) -> bool {
        &&& self.free_q.wf()
        &&& self.free_q.lock.flag == 0
        &&& self.ready_q@.len() == MAX_HANDLERS
        &&& forall|h: int|
            0 <= h < MAX_HANDLERS ==> (#[trigger] self.ready_q@[h]).wf()
                && self.ready_q@[h].lock.flag == 0
    }

    /// How often a slot stands in any queue.
    pub open spec fn queued(&self, slot: u32) -> nat {
        count(self.free_q@, slot) + count_all(self.ready_q@, self.ready_q@.len(), slot)
    }

    /// The header is initialized, and every slot is queued at most once. The last slot is kept
    /// out of circulation: it never enters the free queue.
    pub open spec fn wf(&self) -> bool {
        &&& self.queues_ok()
        &&& self.magic == ARENA_MAGIC
        &&& self.version == ARENA_VERSION
        &&& 0 < self.num_slots <= QCAP
        &&& 0 < self.num_handlers <= MAX_HANDLERS
        &&& forall|slot: u32| #[trigger] self.queued(slot) <= 1
        &&& forall|slot: u32| #[trigger]
            self.queued(slot) > 0 ==> slot < self.num_slots - 1
    }

    /// Initializes a header: empty queues but for the free one, which gets all slots except the
    /// last.
    pub fn initialize(&mut self, num_slots: usize, num_handlers: usize)
        requires
            request_error(num_slots, num_handlers) is None,
            old(self).free_q.slots@.len() == QCAP,
            old(self).ready_q@.len() == MAX_HANDLERS,
            forall|h: int|
                0 <= h < MAX_HANDLERS ==> (#[trigger] old(self).ready_q@[h]).slots@.len() == QCAP,
        ensures
            final(self).wf(),
            final(self).num_slots == num_slots,
            final(self).num_handlers == num_handlers,
            final(self).free_q@ == Seq::new((num_slots - 1) as nat, |i: int| i as u32),
            forall|h: int|
                0 <= h < MAX_HANDLERS ==> (#[trigger] final(self).ready_q@[h])@ == Seq::<
                    u32,
                >::empty(),
            final(self).next_handler == 0,
            final(self).init_done == 1,
            final(self).init_lock == 0,
    {
        self.magic = ARENA_MAGIC;
        self.version = ARENA_VERSION;
        self.num_slots = num_slots as u32;
        self.num_handlers = num_handlers as u32;
        self.free_q.init();
        let mut h: usize = 0;
        while h < MAX_HANDLERS
            invariant
                h <= MAX_HANDLERS,
                self.magic == ARENA_MAGIC,
                self.version == ARENA_VERSION,
                self.num_slots == num_slots,
                self.num_handlers == num_handlers,
                self.free_q.wf(),
                self.free_q.lock.flag == 0,
                self.free_q@ == Seq::<u32>::empty(),
                self.ready_q@.len() == MAX_HANDLERS,
                forall|k: int|
                    0 <= k < MAX_HANDLERS ==> (#[trigger] self.ready_q@[k]).slots@.len() == QCAP,
                forall|k: int|
                    0 <= k < h ==> (#[trigger] self.ready_q@[k]).wf()
                        && self.ready_q@[k].lock.flag == 0 && self.ready_q@[k]@ == Seq::<
                        u32,
                    >::empty(),
            decreases MAX_HANDLERS - h,
        {
            self.ready_q[h].init();
            h += 1;
        }
        self.next_handler = 0;
        let mut i: usize = 0;
        assert(self.free_q@ =~= Seq::new(0, |k: int| k as u32));
        while i < num_slots - 1
            invariant
                i <= num_slots - 1,
                0 < num_slots <= QCAP,
                self.magic == ARENA_MAGIC,
                self.version == ARENA_VERSION,
                self.num_slots == num_slots,
                self.num_handlers == num_handlers,
                self.next_handler == 0,
                self.free_q.wf(),
                self.free_q.lock.flag == 0,
                self.free_q@ == Seq::new(i as nat, |k: int| k as u32),
                self.ready_q@.len() == MAX_HANDLERS,
                forall|k: int|
                    0 <= k < MAX_HANDLERS ==> (#[trigger] self.ready_q@[k]).wf()
                        && self.ready_q@[k].lock.flag == 0 && self.ready_q@[k]@ == Seq::<
                        u32,
                    >::empty(),
            decreases num_slots - i,
        {
            let pushed = self.free_q.try_push(i as u32);
            assert(pushed is Ok);
            i += 1;
            assert(self.free_q@ =~= Seq::new(i as nat, |k: int| k as u32));
        }
        self.init_done = 1;
        self.init_lock = 0;
        proof {
            assert forall|slot: u32| true implies #[trigger] self.queued(slot) <= 1 && (self.queued(
                slot,
            ) > 0 ==> slot < self.num_slots - 1) by {
                lemma_count_range((num_slots - 1) as nat, slot);
                lemma_count_empty(self.ready_q@, self.ready_q@.len(), slot);
            }
        }
    }
}

proof fn lemma_count_range(n: nat, slot: u32)
    requires
        n <= QCAP,
    ensures
        count(Seq::new(n, |i: int| i as u32), slot) == (if slot < n {
            1nat
        } else {
            0
        }),
    decreases n,
{
    let s = Seq::new(n, |i: int| i as u32);
    if n > 0 {
        assert(s.drop_last() =~= Seq::new((n - 1) as nat, |i: int| i as u32));
        lemma_count_range((n - 1) as nat, slot);
    }
}

proof fn lemma_count_empty(qs: Seq<RingQueue>, n: nat, slot: u32)
    requires
        n <= qs.len(),
        forall|h: int| 0 <= h < n ==> (#[trigger] qs[h])@ == Seq::<u32>::empty(),
    ensures
        count_all(qs, n, slot) == 0,
    decreases n,
{
    if n > 0 {
        lemma_count_empty(qs, (n - 1) as nat, slot);
        assert(qs[n - 1]@ == Seq::<u32>::empty());
    }
}

proof fn lemma_count_push(q: Seq<u32>, x: u32, slot: u32)
    ensures
        count(q.push(x), slot) == count(q, slot) + (if x == slot {
            1nat
        } else {
            0
        }),
{
    assert(q.push(x).drop_last() =~= q);
}

proof fn lemma_count_first(q: Seq<u32>, slot: u32)
    requires
        q.len() > 0,
    ensures
        count(q, slot) == count(q.drop_first(), slot) + (if q[0] == slot {
            1nat
        } else {
            0
        }),
    decreases q.len(),
{
    if q.len() == 1 {
        assert(q.drop_first() =~= Seq::empty());
        assert(q.drop_last() =~= Seq::empty());
    } else {
        lemma_count_first(q.drop_last(), slot);
        assert(q.drop_last().drop_first() =~= q.drop_first().drop_last());
    }
}

/// Only the queue `h` changed.
proof fn lemma_count_all_at(a: Seq<RingQueue>, b: Seq<RingQueue>, h: int, n: nat, slot: u32)
    requires
        a.len() == b.len(),
        0 <= h < a.len(),
        n <= a.len(),
        forall|k: int| 0 <= k < a.len() && k != h ==> (#[trigger] b[k])@ == a[k]@,
    ensures
        count_all(b, n, slot) + (if h < n {
            count(a[h]@, slot)
        } else {
            0
        }) == count_all(a, n, slot) + (if h < n {
            count(b[h]@, slot)
        } else {
            0
        }),
    decreases n,
{
    if n > 0 {
        lemma_count_all_at(a, b, h, (n - 1) as nat, slot);
        if n - 1 != h {
            assert(b[n - 1]@ == a[n - 1]@);
        }
    }
}

proof fn lemma_count_contains(q: Seq<u32>, i: int)
    requires
        0 <= i < q.len(),
    ensures
        count(q, q[i]) > 0,
    decreases q.len(),
{
    if i < q.len() - 1 {
        lemma_count_contains(q.drop_last(), i);
    }
}

/// A queue of different slots below a bound is no longer than the bound, and shorter if one
/// of them is missing.
proof fn lemma_short(q: Seq<u32>, bound: nat, missing: u32)
    requires
        forall|slot: u32| #[trigger] count(q, slot) <= 1,
        forall|slot: u32| #[trigger] count(q, slot) > 0 ==> slot < bound,
        missing < bound,
        count(q, missing) == 0,
    ensures
        q.len() < bound,
{
    let s = Seq::new(q.len(), |i: int| q[i] as int);
    assert forall|i: int, j: int| 0 <= i < s.len() && 0 <= j < s.len() && i != j implies s[i]
        != s[j] by {
        if q[i] == q[j] {
            if i < j {
                lemma_count_twice(q, i, j);
            } else {
                lemma_count_twice(q, j, i);
            }
        }
    }
    s.unique_seq_to_set();
    let all = vstd::set_lib::set_int_range(0, bound as int);
    vstd::set_lib::lemma_int_range(0, bound as int);
    let rest = all.remove(missing as int);
    assert(s.to_set().subset_of(rest)) by {
        assert forall|x: int| s.to_set().contains(x) implies rest.contains(x) by {
            let i = s.index_of(x);
            lemma_count_contains(q, i);
            assert(q[i] as int == x);
        }
    }
    vstd::set_lib::lemma_len_subset(s.to_set(), rest);
}

proof fn lemma_count_twice(q: Seq<u32>, i: int, j: int)
    requires
        0 <= i < j < q.len(),
        q[i] == q[j],
    ensures
        count(q, q[i]) >= 2,
    decreases q.len(),
{
    if j < q.len() - 1 {
        lemma_count_twice(q.drop_last(), i, j);
    } else {
        lemma_count_contains(q.drop_last(), i);
        assert(q.drop_last()[i] == q[i]);
    }
}

proof fn lemma_count_all_ge(qs: Seq<RingQueue>, h: int, n: nat, slot: u32)
    requires
        0 <= h < n <= qs.len(),
    ensures
        count(qs[h]@, slot) <= count_all(qs, n, slot),
    decreases n,
{
    if h < n - 1 {
        lemma_count_all_ge(qs, h, (n - 1) as nat, slot);
    }
}

/// An arena that is open.
pub struct Arena<S: SlotInit> {
    pub hdr: ArenaHeader,
    pub slots: Vec<S>,
    pub num_slots: u32,
}

impl<S: SlotInit> Arena<S> {
    /// The header is initialized for as many slots as there are.
    pub open spec fn wf(&self) -> bool {
        &&& self.hdr.wf()
        &&& self.num_slots == self.hdr.num_slots
        &&& self.slots@.len() == self.num_slots
    }

    /// Whether a slot is checked out: it is in circulation and in no queue.
    pub open spec fn checked_out(&self, slot: u32) -> bool {
        slot < self.num_slots - 1 && self.hdr.queued(slot) == 0
    }

    /// Opens the arena whose region holds `hdr` and `slots`. A region that is not initialized
    /// is, and its slots in circulation are marked free; the header is then checked against the
    /// request. The queues of a region that is initialized are taken as they are found.
    pub fn create_or_open(
        hdr: ArenaHeader,
        slots: Vec<S>,
        num_slots: usize,
        num_handlers: usize,
    ) -> (r: Result<Self, ArenaError>)
        requires
            request_error(num_slots, num_handlers) is None ==> {
                &&& slots@.len() == num_slots
                &&& hdr.free_q.slots@.len() == QCAP
                &&& hdr.ready_q@.len() == MAX_HANDLERS
                &&& forall|h: int|
                    0 <= h < MAX_HANDLERS ==> (#[trigger] hdr.ready_q@[h]).slots@.len() == QCAP
            },
            spec_needs_init(hdr.init_done, hdr.magic, hdr.version) ==> hdr.init_lock == 0,
        ensures
            match request_error(num_slots, num_handlers) {
                Some(e) => r == Err::<Self, ArenaError>(e),
                None => if spec_needs_init(hdr.init_done, hdr.magic, hdr.version) {
                    &&& r matches Ok(a)
                    &&& a.wf()
                    &&& a.num_slots == num_slots
                    &&& a.hdr.num_handlers == num_handlers
                    &&& a.hdr.init_done == 1
                    &&& a.hdr.next_handler == 0
                    &&& a.hdr.free_q@ == Seq::new((num_slots - 1) as nat, |i: int| i as u32)
                    &&& forall|h: int|
                        0 <= h < MAX_HANDLERS ==> (#[trigger] a.hdr.ready_q@[h])@ == Seq::<
                            u32,
                        >::empty()
                    &&& a.hdr.init_lock == 0
                    &&& forall|i: int|
                        0 <= i < num_slots - 1 ==> (#[trigger] a.slots@[i]).head() == (SlotHead {
                            state: SLOT_FREE,
                            ..slots@[i].head()
                        }) && a.slots@[i].same_inputs(&slots@[i]) && a.slots@[i].same_outputs(
                            &slots@[i],
                        )
                    &&& a.slots@[num_slots - 1] == slots@[num_slots - 1]
                } else {
                    match header_error(
                        hdr.magic,
                        hdr.version,
                        hdr.num_slots,
                        hdr.num_handlers,
                        num_slots,
                        num_handlers,
                    ) {
                        Some(e) => r == Err::<Self, ArenaError>(e),
                        None => r matches Ok(a) && a.hdr == hdr && a.slots == slots && a.num_slots
                            == num_slots && (hdr.wf() ==> a.wf()),
                    }
                },
            },
    {
        if let Err(e) = check_request(num_slots, num_handlers) {
            return Err(e);
        }
        let mut hdr: ArenaHeader = hdr;
        let mut slots: Vec<S> = slots;
        let ghost before = slots@;
        match open_step(hdr.init_done, hdr.magic, hdr.version, hdr.init_lock) {
            OpenStep::Initialize => {
                hdr.initialize(num_slots, num_handlers);
                let mut i: usize = 0;
                while i < num_slots - 1
                    invariant
                        i <= num_slots - 1,
                        0 < num_slots,
                        slots@.len() == num_slots,
                        before.len() == num_slots,
                        forall|k: int|
                            0 <= k < i ==> (#[trigger] slots@[k]).head() == (SlotHead {
                                state: SLOT_FREE,
                                ..before[k].head()
                            }) && slots@[k].same_inputs(&before[k]) && slots@[k].same_outputs(
                                &before[k],
                            ),
                        forall|k: int| i <= k < num_slots ==> #[trigger] slots@[k] == before[k],
                    decreases num_slots - i,
                {
                    assert(slots@[i as int] == before[i as int]);
                    slots[i].set_state(SLOT_FREE);
                    i += 1;
                }
            },
            _ => {},
        }
        if let Err(e) = check_header(
            hdr.magic,
            hdr.version,
            hdr.num_slots,
            hdr.num_handlers,
            num_slots,
            num_handlers,
        ) {
            return Err(e);
        }
        Ok(Arena { hdr, slots, num_slots: num_slots as u32 })
    }

    /// The number of slots.
    pub fn num_slots(&self) -> (r: u32)
        ensures
            r == self.num_slots,
    {
        self.num_slots
    }

    /// A slot.
    pub fn slot(&self, slot: u32) -> (r: &S)
        requires
            self.wf(),
            slot < self.num_slots,
        ensures
            *r == self.slots@[slot as int],
    {
        &self.slots[slot as usize]
    }

    /// A slot, to be written.
    pub fn slot_mut(&mut self, slot: u32) -> (r: &mut S)
        requires
            old(self).wf(),
            slot < old(self).num_slots,
        ensures
            *r == old(self).slots@[slot as int],
            final(self).hdr == old(self).hdr,
            final(self).num_slots == old(self).num_slots,
            final(self).slots@ == old(self).slots@.update(slot as int, *final(r)),
            final(self).wf(),
    {
        &mut self.slots[slot as usize]
    }

    /// Takes a free slot; none where there is none.
    pub fn acquire_slot(&mut self) -> (r: Option<u32>)
        requires
            old(self).wf(),
        ensures
            final(self).wf(),
            final(self).slots == old(self).slots,
            final(self).num_slots == old(self).num_slots,
            final(self).hdr.ready_q == old(self).hdr.ready_q,
            final(self).hdr.next_handler == old(self).hdr.next_handler,
            final(self).hdr.num_handlers == old(self).hdr.num_handlers,
            r is None <==> old(self).hdr.free_q@.len() == 0,
            r is None ==> final(self).hdr.free_q@ == old(self).hdr.free_q@,
            r matches Some(slot) ==> slot == old(self).hdr.free_q@[0] && final(self).hdr.free_q@
                == old(self).hdr.free_q@.drop_first() && final(self).checked_out(slot),
    {
        let ghost before = *self;
        let r: Option<u32> = self.hdr.free_q.try_pop();
        proof {
            if before.hdr.free_q@.len() > 0 {
                let slot0 = before.hdr.free_q@[0];
                assert forall|slot: u32| true implies #[trigger] self.hdr.queued(slot) + (if slot
                    == slot0 {
                    1nat
                } else {
                    0
                }) == before.hdr.queued(slot) by {
                    lemma_count_first(before.hdr.free_q@, slot);
                }
                lemma_count_contains(before.hdr.free_q@, 0);
                assert(before.hdr.queued(slot0) <= 1);
                assert forall|slot: u32| true implies #[trigger] self.hdr.queued(slot) <= 1 && (
                self.hdr.queued(slot) > 0 ==> slot < self.hdr.num_slots - 1) by {
                    assert(before.hdr.queued(slot) <= 1);
                }
            } else {
                assert forall|slot: u32| true implies #[trigger] self.hdr.queued(slot)
                    == before.hdr.queued(slot) by {}
                assert forall|slot: u32| true implies #[trigger] self.hdr.queued(slot) <= 1 && (
                self.hdr.queued(slot) > 0 ==> slot < self.hdr.num_slots - 1) by {
                    assert(before.hdr.queued(slot) <= 1);
                }
            }
        }
        r
    }

    /// The handler that the next slot goes to; the counter moves on, and starts over after the
    /// largest number.
    pub fn pick_handler(&mut self) -> (r: usize)
        requires
            old(self).wf(),
        ensures
            final(self).wf(),
            r == old(self).hdr.next_handler % old(self).hdr.num_handlers,
            r < old(self).hdr.num_handlers,
            final(self).hdr.next_handler == next_count(old(self).hdr.next_handler),
            *final(self) == (Arena {
                hdr: ArenaHeader {
                    next_handler: final(self).hdr.next_handler,
                    ..old(self).hdr
                },
                ..*old(self)
            }),
    {
        let n: u32 = self.hdr.num_handlers;
        let k: u32 = self.hdr.next_handler;
        let r: usize = handler_of(k as usize, n);
        let ghost before = *self;
        self.hdr.next_handler = k.wrapping_add(1);
        proof {
            assert forall|slot: u32| true implies #[trigger] self.hdr.queued(slot)
                == before.hdr.queued(slot) by {}
            assert forall|slot: u32| true implies #[trigger] self.hdr.queued(slot) <= 1 && (
            self.hdr.queued(slot) > 0 ==> slot < self.hdr.num_slots - 1) by {
                assert(before.hdr.queued(slot) <= 1);
            }
        }
        r
    }

    /// Queues a slot that is checked out for the next handler in turn. There is always room.
    pub fn submit_to_handler(&mut self, slot: u32)
        requires
            old(self).wf(),
            old(self).checked_out(slot),
        ensures
            final(self).wf(),
            final(self).slots == old(self).slots,
            final(self).num_slots == old(self).num_slots,
            final(self).hdr.free_q == old(self).hdr.free_q,
            has_submitted(old(self).hdr, final(self).hdr, slot),
    {
        let h: usize = self.pick_handler();
        let ghost before = *self;
        proof {
            assert(before.hdr.queued(slot) == 0);
            lemma_ready_short(before.hdr, h as int, slot);
        }
        let pushed = self.hdr.ready_q[h].try_push(slot);
        assert(pushed is Ok);
        proof {
            lemma_ready_changed(before.hdr, self.hdr, h as int);
            assert forall|s: u32| true implies #[trigger] self.hdr.queued(s) == before.hdr.queued(s)
                + (if s == slot {
                1nat
            } else {
                0
            }) by {
                lemma_count_push(before.hdr.ready_q@[h as int]@, slot, s);
                lemma_count_all_at(
                    before.hdr.ready_q@,
                    self.hdr.ready_q@,
                    h as int,
                    self.hdr.ready_q@.len(),
                    s,
                );
            }
            assert forall|s: u32| true implies #[trigger] self.hdr.queued(s) <= 1 && (
            self.hdr.queued(s) > 0 ==> s < self.hdr.num_slots - 1) by {
                assert(before.hdr.queued(s) <= 1);
            }
        }
    }

    /// Takes the oldest slot that is ready for a handler; none where there is none.
    pub fn pop_ready(&mut self, handler: usize) -> (r: Option<u32>)
        requires
            old(self).wf(),
        ensures
            final(self).wf(),
            final(self).slots == old(self).slots,
            final(self).num_slots == old(self).num_slots,
            final(self).hdr.free_q == old(self).hdr.free_q,
            has_popped(old(self).hdr, final(self).hdr, handler, r),
            r matches Some(slot) ==> final(self).checked_out(slot),
    {
        let ghost before = *self;
        let h: usize = handler_of(handler, self.hdr.num_handlers);
        let ghost q = self.hdr.ready_q@[h as int]@;
        let r: Option<u32> = self.hdr.ready_q[h].try_pop();
        proof {
            lemma_ready_changed(before.hdr, self.hdr, h as int);
            assert forall|s: u32| true implies #[trigger] self.hdr.queued(s) + (if q.len() > 0 && s
                == q[0] {
                1nat
            } else {
                0
            }) == before.hdr.queued(s) by {
                if q.len() > 0 {
                    lemma_count_first(q, s);
                }
                lemma_count_all_at(
                    before.hdr.ready_q@,
                    self.hdr.ready_q@,
                    h as int,
                    self.hdr.ready_q@.len(),
                    s,
                );
            }
            if q.len() > 0 {
                lemma_count_contains(q, 0);
                lemma_count_all_ge(before.hdr.ready_q@, h as int, before.hdr.ready_q@.len(), q[0]);
                assert(before.hdr.queued(q[0]) <= 1);
            }
            assert forall|s: u32| true implies #[trigger] self.hdr.queued(s) <= 1 && (
            self.hdr.queued(s) > 0 ==> s < self.hdr.num_slots - 1) by {
                assert(before.hdr.queued(s) <= 1);
            }
        }
        r
    }

    /// Whether the outputs of a slot are ready.
    pub fn is_done(&self, slot: u32) -> (r: bool)
        requires
            self.wf(),
            slot < self.num_slots,
        ensures
            r == (self.slots@[slot as int].head().state == SLOT_DONE),
    {
        self.slots[slot as usize].state() == SLOT_DONE
    }

    /// Marks a slot that is checked out as free and queues it again. There is always room.
    pub fn release_slot(&mut self, slot: u32)
        requires
            old(self).wf(),
            old(self).checked_out(slot),
        ensures
            final(self).wf(),
            final(self).num_slots == old(self).num_slots,
            final(self).hdr.num_handlers == old(self).hdr.num_handlers,
            final(self).hdr.ready_q == old(self).hdr.ready_q,
            final(self).hdr.next_handler == old(self).hdr.next_handler,
            final(self).hdr.free_q@ == old(self).hdr.free_q@.push(slot),
            only_slot_changed(old(self), final(self), slot),
            final(self).slots@[slot as int].head() == (SlotHead {
                state: SLOT_FREE,
                ..old(self).slots@[slot as int].head()
            }),
            final(self).slots@[slot as int].same_inputs(&old(self).slots@[slot as int]),
            final(self).slots@[slot as int].same_outputs(&old(self).slots@[slot as int]),
    {
        let ghost before = *self;
        self.slots[slot as usize].set_state(SLOT_FREE);
        proof {
            lemma_free_short(before.hdr, slot);
        }
        let pushed = self.hdr.free_q.try_push(slot);
        assert(pushed is Ok);
        proof {
            assert forall|s: u32| true implies #[trigger] self.hdr.queued(s) == before.hdr.queued(s)
                + (if s == slot {
                1nat
            } else {
                0
            }) by {
                lemma_count_push(before.hdr.free_q@, slot, s);
            }
            assert forall|s: u32| true implies #[trigger] self.hdr.queued(s) <= 1 && (
            self.hdr.queued(s) > 0 ==> s < self.hdr.num_slots - 1) by {
                assert(before.hdr.queued(s) <= 1);
            }
        }
    }

    /// Marks a slot's outputs as ready.
    pub fn mark_done(&mut self, slot: u32)
        requires
            old(self).wf(),
            slot < old(self).num_slots,
        ensures
            final(self).wf(),
            final(self).num_slots == old(self).num_slots,
            final(self).hdr == old(self).hdr,
            only_slot_changed(old(self), final(self), slot),
            final(self).slots@[slot as int].head() == (SlotHead {
                state: SLOT_DONE,
                ..old(self).slots@[slot as int].head()
            }),
            final(self).slots@[slot as int].same_inputs(&old(self).slots@[slot as int]),
            final(self).slots@[slot as int].same_outputs(&old(self).slots@[slot as int]),
    {
        self.slots[slot as usize].set_state(SLOT_DONE);
    }

    /// Records the request of a slot and marks its inputs as ready.
    pub fn mark_ready(&mut self, slot: u32, b: usize, owner_id: u32, req_id: u64)
        requires
            old(self).wf(),
            slot < old(self).num_slots,
        ensures
            final(self).wf(),
            final(self).num_slots == old(self).num_slots,
            final(self).hdr == old(self).hdr,
            only_slot_changed(old(self), final(self), slot),
            final(self).slots@[slot as int].head() == (SlotHead {
                state: SLOT_READY,
                b: b as u32,
                owner_id,
                req_id,
            }),
    {
        self.slots[slot as usize].set_request(b as u32, owner_id, req_id);
        self.slots[slot as usize].set_state(SLOT_READY);
    }

    /// Sets the outputs of a slot to zero.
    pub fn clear_outputs(&mut self, slot: u32)
        requires
            old(self).wf(),
            slot < old(self).num_slots,
        ensures
            final(self).wf(),
            final(self).num_slots == old(self).num_slots,
            final(self).hdr == old(self).hdr,
            only_slot_changed(old(self), final(self), slot),
            final(self).slots@[slot as int].head() == old(self).slots@[slot as int].head(),
            final(self).slots@[slot as int].same_inputs(&old(self).slots@[slot as int]),
            final(self).slots@[slot as int].outputs_cleared(),
    {
        self.slots[slot as usize].clear_outputs();
    }
}

/// Whether a slot was queued for the next handler in turn: it is the last in the queue of that
/// handler, the other queues stay, and the counter moves on.
pub open spec fn has_submitted(a: ArenaHeader, b: ArenaHeader, slot: u32) -> bool {
    &&& b.num_handlers == a.num_handlers
    &&& b.next_handler == next_count(a.next_handler)
    &&& forall|h: int|
        0 <= h < MAX_HANDLERS ==> (#[trigger] b.ready_q@[h])@ == (if h == a.next_handler
            % a.num_handlers {
            a.ready_q@[h]@.push(slot)
        } else {
            a.ready_q@[h]@
        })
}

/// Whether the oldest slot in the queue of a handler was taken out; nothing where there is none.
pub open spec fn has_popped(a: ArenaHeader, b: ArenaHeader, handler: usize, r: Option<u32>) -> bool {
    let h = handler as int % a.num_handlers as int;
    let q = a.ready_q@[h]@;
    &&& b.num_handlers == a.num_handlers
    &&& b.next_handler == a.next_handler
    &&& r == (if q.len() == 0 {
        None
    } else {
        Some(q[0])
    })
    &&& forall|k: int|
        0 <= k < MAX_HANDLERS ==> (#[trigger] b.ready_q@[k])@ == (if k == h && q.len() > 0 {
            q.drop_first()
        } else {
            a.ready_q@[k]@
        })
}

/// The round-robin counter after one more slot.
pub open spec fn next_count(k: u32) -> u32 {
    if k == u32::MAX {
        0
    } else {
        (k + 1) as u32
    }
}

/// Whether two arenas have the same slots but for one.
pub open spec fn only_slot_changed<S: SlotInit>(a: &Arena<S>, b: &Arena<S>, slot: u32) -> bool {
    &&& a.slots@.len() == b.slots@.len()
    &&& forall|k: int| 0 <= k < a.slots@.len() && k != slot ==> #[trigger] b.slots@[k] == a.slots@[k]
}

/// A ready queue has room for a slot that is in no queue.
proof fn lemma_ready_short(hdr: ArenaHeader, h: int, slot: u32)
    requires
        hdr.wf(),
        0 <= h < MAX_HANDLERS,
        hdr.queued(slot) == 0,
        slot < hdr.num_slots - 1,
    ensures
        hdr.ready_q@[h]@.len() < QCAP - 1,
{
    let q = hdr.ready_q@[h]@;
    assert forall|s: u32| true implies #[trigger] count(q, s) <= 1 && (count(q, s) > 0 ==> s
        < hdr.num_slots - 1) && count(q, s) <= hdr.queued(s) by {
        assert(hdr.queued(s) <= 1);
        lemma_count_all_ge(hdr.ready_q@, h, hdr.ready_q@.len(), s);
    }
    assert(count(q, slot) <= hdr.queued(slot));
    lemma_short(q, (hdr.num_slots - 1) as nat, slot);
}

/// The free queue has room for a slot that is in no queue.
proof fn lemma_free_short(hdr: ArenaHeader, slot: u32)
    requires
        hdr.wf(),
        hdr.queued(slot) == 0,
        slot < hdr.num_slots - 1,
    ensures
        hdr.free_q@.len() < QCAP - 1,
{
    let q = hdr.free_q@;
    assert forall|s: u32| true implies #[trigger] count(q, s) <= 1 && (count(q, s) > 0 ==> s
        < hdr.num_slots - 1) && count(q, s) <= hdr.queued(s) by {
        assert(hdr.queued(s) <= 1);
    }
    assert(count(q, slot) <= hdr.queued(slot));
    lemma_short(q, (hdr.num_slots - 1) as nat, slot);
}

/// Queues that were not touched are the same.
proof fn lemma_ready_changed(a: ArenaHeader, b: ArenaHeader, h: int)
    requires
        a.ready_q@.len() == MAX_HANDLERS,
        0 <= h < MAX_HANDLERS,
        b.ready_q@ == a.ready_q@.update(h, b.ready_q@[h]),
    ensures
        forall|k: int|
            0 <= k < MAX_HANDLERS && k != h ==> #[trigger] b.ready_q@[k] == a.ready_q@[k],
{
}

/// Law: no slot gets lost. A slot that was taken from the free queue and given back leaves
/// every slot in the queue as often as before.
pub proof fn law_release_restores(q: Seq<u32>, slot: u32)
    requires
        q.len() > 0,
    ensures
        count(q.drop_first().push(q[0]), slot) == count(q, slot),
{
    lemma_count_first(q, slot);
    lemma_count_push(q.drop_first(), q[0], slot);
}

/// Law: slots go to the handlers in turn: of any `n` submissions in a row to `n` handlers, two
/// go to different handlers, as long as the counter does not start over between them.
pub proof fn law_round_robin(start: u32, n: u32, i: nat, j: nat)
    requires
        0 < n,
        i < j < n,
        start + j <= u32::MAX,
    ensures
        (start + i) % (n as int) != (start + j) % (n as int),
{
    let a = (start + i) % (n as int);
    let b = (start + j) % (n as int);
    let qa = (start + i) / (n as int);
    let qb = (start + j) / (n as int);
    assert(start + i == n * qa + a && start + j == n * qb + b) by {
        vstd::arithmetic::div_mod::lemma_fundamental_div_mod(start + i, n as int);
        vstd::arithmetic::div_mod::lemma_fundamental_div_mod(start + j, n as int);
    }
    if a == b {
        assert(j - i == n * (qb - qa)) by (nonlinear_arith)
            requires
                start + i == n * qa + a,
                start + j == n * qb + b,
                a == b,
        ;
        assert(false) by (nonlinear_arith)
            requires
                j - i == n * (qb - qa),
                0 < j - i < n,
        ;
    }
}

/// What is done with an arena.
pub ghost enum Traffic {
    /// A slot is handed in.
    Submit(u32),
    /// A handler asks for a slot, and gets one where there is one.
    Pop(usize, Option<u32>),
    /// Something else, which leaves the queues of the handlers as they are.
    Other,
}

/// Whether an arena goes from one header to another by something that is done with it.
pub open spec fn is_traffic(a: ArenaHeader, step: Traffic, b: ArenaHeader) -> bool {
    match step {
        Traffic::Submit(slot) => has_submitted(a, b, slot),
        Traffic::Pop(handler, r) => has_popped(a, b, handler, r),
        Traffic::Other => b.num_handlers == a.num_handlers && b.next_handler == a.next_handler
            && b.ready_q == a.ready_q,
    }
}

/// Whether an arena goes through some headers, from a fresh one on.
pub open spec fn is_history(headers: Seq<ArenaHeader>, steps: Seq<Traffic>) -> bool {
    &&& headers.len() == steps.len() + 1
    &&& headers[0].next_handler == 0
    &&& 0 < headers[0].num_handlers <= MAX_HANDLERS
    &&& forall|h: int|
        0 <= h < MAX_HANDLERS ==> (#[trigger] headers[0].ready_q@[h])@ == Seq::<u32>::empty()
    &&& forall|i: int|
        0 <= i < steps.len() ==> is_traffic(headers[i], #[trigger] steps[i], headers[i + 1])
}

/// The slots that were handed in, in their order.
pub open spec fn handed_in(steps: Seq<Traffic>) -> Seq<u32>
    decreases steps.len(),
{
    if steps.len() == 0 {
        Seq::empty()
    } else {
        match steps.last() {
            Traffic::Submit(slot) => handed_in(steps.drop_last()).push(slot),
            _ => handed_in(steps.drop_last()),
        }
    }
}

/// The slots that the handler `h` of `n` got, in their order.
pub open spec fn handed_out(steps: Seq<Traffic>, n: int, h: int) -> Seq<u32>
    decreases steps.len(),
{
    if steps.len() == 0 {
        Seq::empty()
    } else {
        match steps.last() {
            Traffic::Pop(handler, Some(slot)) if handler as int % n == h => handed_out(
                steps.drop_last(),
                n,
                h,
            ).push(slot),
            _ => handed_out(steps.drop_last(), n, h),
        }
    }
}

/// Every `n`-th element, from the one at `h` on.
pub open spec fn every(slots: Seq<u32>, n: int, h: int) -> Seq<u32> {
    Seq::new(((slots.len() + n - 1 - h) / n) as nat, |i: int| slots[h + i * n])
}

/// One more slot goes to the handler whose turn it is.
proof fn lemma_every_push(slots: Seq<u32>, n: int, h: int, slot: u32)
    requires
        0 <= h < n,
    ensures
        every(slots.push(slot), n, h) == (if slots.len() as int % n == h {
            every(slots, n, h).push(slot)
        } else {
            every(slots, n, h)
        }),
{
    let k = slots.len() as int;
    let q = k / n;
    let m = k % n;
    let more = slots.push(slot);
    assert(k == n * q + m && 0 <= m < n) by {
        vstd::arithmetic::div_mod::lemma_fundamental_div_mod(k, n);
        vstd::arithmetic::div_mod::lemma_mod_bound(k, n);
    }
    let len = if h < m {
        q + 1
    } else {
        q
    };
    let longer = if h <= m {
        q + 1
    } else {
        q
    };
    assert((k + n - 1 - h) / n == len) by (nonlinear_arith)
        requires
            k == n * q + m,
            0 <= m < n,
            0 <= h < n,
            len == (if h < m {
                q + 1
            } else {
                q
            }),
    ;
    assert((k + 1 + n - 1 - h) / n == longer) by (nonlinear_arith)
        requires
            k == n * q + m,
            0 <= m < n,
            0 <= h < n,
            longer == (if h <= m {
                q + 1
            } else {
                q
            }),
    ;
    assert(q >= 0) by (nonlinear_arith)
        requires
            k == n * q + m,
            0 <= m < n,
            0 <= k,
    ;
    assert forall|i: int| 0 <= i < len implies 0 <= h + #[trigger] (i * n) < k by {
        assert(0 <= i * n <= (len - 1) * n) by (nonlinear_arith)
            requires
                0 <= i <= len - 1,
                0 < n,
        ;
        if h < m {
            assert((len - 1) * n == n * q) by (nonlinear_arith)
                requires
                    len == q + 1,
            ;
        } else {
            assert((len - 1) * n == n * q - n) by (nonlinear_arith)
                requires
                    len == q,
            ;
        }
    }
    if m == h {
        assert(h + q * n == k) by (nonlinear_arith)
            requires
                k == n * q + m,
                m == h,
        ;
        assert forall|i: int| 0 <= i < longer implies #[trigger] every(more, n, h)[i] == every(
            slots,
            n,
            h,
        ).push(slot)[i] by {
            if i < len {
                assert(0 <= h + i * n < k);
            }
        }
        assert(every(more, n, h) =~= every(slots, n, h).push(slot));
    } else {
        assert forall|i: int| 0 <= i < len implies #[trigger] every(more, n, h)[i] == every(
            slots,
            n,
            h,
        )[i] by {
            assert(0 <= h + i * n < k);
        }
        assert(every(more, n, h) =~= every(slots, n, h));
    }
}

/// The counter is the number of slots handed in, until it starts over.
proof fn lemma_turn(headers: Seq<ArenaHeader>, steps: Seq<Traffic>)
    requires
        is_history(headers, steps),
        handed_in(steps).len() <= u32::MAX,
    ensures
        headers.last().next_handler == handed_in(steps).len(),
        headers.last().num_handlers == headers[0].num_handlers,
    decreases steps.len(),
{
    if steps.len() > 0 {
        let last = steps.len() - 1;
        assert(is_traffic(headers[last], steps[last], headers[last + 1]));
        lemma_history_before(headers, steps);
        lemma_turn(headers.drop_last(), steps.drop_last());
    }
}

/// A history up to its last step.
proof fn lemma_history_before(headers: Seq<ArenaHeader>, steps: Seq<Traffic>)
    requires
        is_history(headers, steps),
        steps.len() > 0,
    ensures
        is_history(headers.drop_last(), steps.drop_last()),
        handed_in(steps.drop_last()).len() <= handed_in(steps).len(),
{
    let h = headers.drop_last();
    let s = steps.drop_last();
    assert forall|i: int| 0 <= i < s.len() implies is_traffic(h[i], #[trigger] s[i], h[i + 1]) by {
        assert(is_traffic(headers[i], steps[i], headers[i + 1]));
    }
}

/// The number of handlers stays.
proof fn lemma_numbers(headers: Seq<ArenaHeader>, steps: Seq<Traffic>)
    requires
        is_history(headers, steps),
    ensures
        headers.last().num_handlers == headers[0].num_handlers,
    decreases steps.len(),
{
    if steps.len() > 0 {
        let last = steps.len() - 1;
        assert(is_traffic(headers[last], steps[last], headers[last + 1]));
        lemma_history_before(headers, steps);
        lemma_numbers(headers.drop_last(), steps.drop_last());
    }
}

/// Law: the handlers take turns over the whole life of an arena. Whatever is handed in and asked
/// for in between, the handler `h` of `n` gets, and has waiting for it, the slots numbered `h`,
/// `h + n`, `h + 2n` and so on, each once and in this order, until the counter starts over.
pub proof fn law_handlers_take_turns(headers: Seq<ArenaHeader>, steps: Seq<Traffic>, h: int)
    requires
        is_history(headers, steps),
        handed_in(steps).len() <= u32::MAX + 1,
        0 <= h < headers[0].num_handlers,
    ensures
        handed_out(steps, headers[0].num_handlers as int, h) + headers.last().ready_q@[h]@ == every(
            handed_in(steps),
            headers[0].num_handlers as int,
            h,
        ),
    decreases steps.len(),
{
    let n = headers[0].num_handlers as int;
    if steps.len() == 0 {
        assert(headers.last().ready_q@[h]@ == Seq::<u32>::empty());
        assert((n - 1 - h) / n == 0) by (nonlinear_arith)
            requires
                0 <= h < n,
        ;
        assert(handed_out(steps, n, h) + headers.last().ready_q@[h]@ =~= every(
            handed_in(steps),
            n,
            h,
        ));
    } else {
        let last = steps.len() - 1;
        let a = headers[last];
        let b = headers[last + 1];
        let s = steps.drop_last();
        assert(is_traffic(a, steps[last], b));
        lemma_history_before(headers, steps);
        law_handlers_take_turns(headers.drop_last(), s, h);
        let out = handed_out(s, n, h);
        match steps.last() {
            Traffic::Submit(slot) => {
                lemma_turn(headers.drop_last(), s);
                lemma_every_push(handed_in(s), n, h, slot);
                assert(out + a.ready_q@[h]@.push(slot) =~= (out + a.ready_q@[h]@).push(slot));
                assert(b.ready_q@[h]@ == (if h == a.next_handler % a.num_handlers {
                    a.ready_q@[h]@.push(slot)
                } else {
                    a.ready_q@[h]@
                }));
            },
            Traffic::Pop(handler, r) => {
                lemma_numbers(headers.drop_last(), s);
                let q = a.ready_q@[h]@;
                assert(b.ready_q@[h]@ == (if h == handler as int % n && q.len() > 0 {
                    q.drop_first()
                } else {
                    q
                }));
                if h == handler as int % n && q.len() > 0 {
                    assert(r == Some(q[0]));
                    assert(out.push(q[0]) + q.drop_first() =~= out + q);
                }
            },
            Traffic::Other => {},
        }
    }
}

} // verus!
