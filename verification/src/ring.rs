//! The ring queues through which slots are handed between processes, and the lock that guards
//! each of them.

use vstd::prelude::*;

verus! {

/// What to do between two tries for something that another process holds.
#[derive(Clone, Copy, Debug, PartialEq, Eq, Structural)]
pub enum Backoff {
    /// Spin.
    Spin,
    /// Give the processor away.
    Yield,
    /// Sleep for this many microseconds.
    Sleep(u64),
}

/// What to do after `spins` failed tries for a lock: spin, then yield, then sleep.
pub fn lock_backoff(spins: u32) -> (r: Backoff)
    ensures
        r == (if spins < 1000 {
            Backoff::Spin
        } else if spins < 10000 {
            Backoff::Yield
        } else {
            Backoff::Sleep(10)
        }),
{
    if spins < 1000 {
        Backoff::Spin
    } else if spins < 10000 {
        Backoff::Yield
    } else {
        Backoff::Sleep(10)
    }
}

/// What to do after `spins` failed tries to push to or pop from a queue: spin, then sleep.
pub fn queue_backoff(spins: u32) -> (r: Backoff)
    ensures
        r == (if spins < 10000 {
            Backoff::Spin
        } else {
            Backoff::Sleep(50)
        }),
{
    if spins < 10000 {
        Backoff::Spin
    } else {
        Backoff::Sleep(50)
    }
}

/// What to do after `spins` looks at a slot that is not done: spin, then sleep.
pub fn done_backoff(spins: u32) -> (r: Backoff)
    ensures
        r == (if spins < 100000 {
            Backoff::Spin
        } else {
            Backoff::Sleep(50)
        }),
{
    if spins < 100000 {
        Backoff::Spin
    } else {
        Backoff::Sleep(50)
    }
}

/// A lock: 0 is unlocked, 1 is locked.
#[derive(Clone, Copy, Debug, PartialEq, Eq, Structural)]
pub struct SpinLock {
    pub flag: u32,
}

impl SpinLock {
    /// Unlocks, whatever was there.
    pub fn init(&mut self)
        ensures
            final(self).flag == 0,
    {
        self.flag = 0;
    }

    /// Sets the lock and tells whether it was free, so that the caller now holds it.
    pub fn try_lock(&mut self) -> (r: bool)
        ensures
            final(self).flag == 1,
            r == (old(self).flag != 1),
    {
        let before: u32 = self.flag;
        self.flag = 1;
        before != 1
    }

    /// Unlocks.
    pub fn unlock(&mut self)
        ensures
            final(self).flag == 0,
    {
        self.flag = 0;
    }
}

/// The number of cells of a queue. One stays empty, so that a full queue differs from an empty
/// one.
pub const QCAP: usize = 2048;

/// The cell after `i`.
pub open spec fn after(i: u32) -> u32 {
    if i + 1 == QCAP {
        0
    } else {
        (i + 1) as u32
    }
}

/// The number of elements between `head` and `tail`.
pub open spec fn span(head: u32, tail: u32) -> nat {
    if tail >= head {
        (tail - head) as nat
    } else {
        (tail + QCAP - head) as nat
    }
}

/// The cell that the element `i` counted from `head` is in.
pub open spec fn cell(head: u32, i: int) -> int {
    if head + i < QCAP {
        head + i
    } else {
        head + i - QCAP
    }
}

/// Where the tail goes when an element is put at it; none where the queue is full.
pub fn ring_push(head: u32, tail: u32) -> (r: Option<u32>)
    requires
        head < QCAP,
        tail < QCAP,
    ensures
        r == (if span(head, tail) == QCAP - 1 {
            None
        } else {
            Some(after(tail))
        }),
{
    let next: u32 = (tail + 1) % (QCAP as u32);
    if next == head {
        None
    } else {
        Some(next)
    }
}

/// Where the head goes when the element at it is taken; none where the queue is empty.
pub fn ring_pop(head: u32, tail: u32) -> (r: Option<u32>)
    requires
        head < QCAP,
        tail < QCAP,
    ensures
        r == (if span(head, tail) == 0 {
            None
        } else {
            Some(after(head))
        }),
{
    if head == tail {
        None
    } else {
        Some((head + 1) % (QCAP as u32))
    }
}

/// A fixed-size ring queue of slot indices.
pub struct RingQueue {
    pub lock: SpinLock,
    pub head: u32,
    pub tail: u32,
    pub slots: Vec<u32>,
}

impl View for RingQueue {
    type V = Seq<u32>;

    /// The elements, the oldest first.
    open spec fn view(&self) -> Seq<u32> {
        Seq::new(span(self.head, self.tail), |i: int| self.slots@[cell(self.head, i)])
    }
}

impl RingQueue {
    /// The positions are cells of the queue.
    pub open spec fn wf(&self) -> bool {
        &&& self.head < QCAP
        &&& self.tail < QCAP
        &&& self.slots@.len() == QCAP
    }

    /// An empty queue.
    pub fn new() -> (r: Self)
        ensures
            r.wf(),
            r@ == Seq::<u32>::empty(),
            r.lock.flag == 0,
    {
        let r: RingQueue = RingQueue {
            lock: SpinLock { flag: 0 },
            head: 0,
            tail: 0,
            slots: vec![0u32; QCAP],
        };
        assert(r@ =~= Seq::<u32>::empty());
        r
    }

    /// Empties the queue and unlocks it.
    pub fn init(&mut self)
        ensures
            old(self).slots@.len() == QCAP ==> final(self).wf(),
            final(self)@ == Seq::<u32>::empty(),
            final(self).lock.flag == 0,
            final(self).slots == old(self).slots,
    {
        self.lock.init();
        self.head = 0;
        self.tail = 0;
        assert(self@ =~= Seq::<u32>::empty());
    }

    /// Push one element. Returns `Err` if the queue is full. The lock is taken and given back.
    pub fn try_push(&mut self, x: u32) -> (r: Result<(), ()>)
        requires
            old(self).wf(),
            old(self).lock.flag == 0,
        ensures
            final(self).wf(),
            final(self).lock.flag == 0,
            r is Ok <==> old(self)@.len() < QCAP - 1,
            r is Ok ==> final(self)@ == old(self)@.push(x),
            r is Err ==> final(self)@ == old(self)@,
            final(self).head == old(self).head,
            final(self).tail == (if r is Ok {
                after(old(self).tail)
            } else {
                old(self).tail
            }),
    {
        let ghost q = self@;
        self.lock.try_lock();
        let r: Result<(), ()> = match ring_push(self.head, self.tail) {
            None => Err(()),
            Some(next) => {
                let tail: usize = self.tail as usize;
                self.slots[tail] = x;
                self.tail = next;
                assert(self@ =~= q.push(x));
                Ok(())
            },
        };
        self.lock.unlock();
        assert(r is Err ==> self@ =~= q);
        r
    }

    /// Pop the oldest element. Returns `None` if the queue is empty. The lock is taken and
    /// given back.
    pub fn try_pop(&mut self) -> (r: Option<u32>)
        requires
            old(self).wf(),
            old(self).lock.flag == 0,
        ensures
            final(self).wf(),
            final(self).lock.flag == 0,
            r == (if old(self)@.len() == 0 {
                None
            } else {
                Some(old(self)@[0])
            }),
            final(self)@ == (if old(self)@.len() == 0 {
                old(self)@
            } else {
                old(self)@.drop_first()
            }),
            final(self).tail == old(self).tail,
            final(self).head == (if r is Some {
                after(old(self).head)
            } else {
                old(self).head
            }),
    {
        let ghost q = self@;
        self.lock.try_lock();
        let r: Option<u32> = match ring_pop(self.head, self.tail) {
            None => None,
            Some(next) => {
                let x: u32 = self.slots[self.head as usize];
                self.head = next;
                assert(self@ =~= q.drop_first());
                Some(x)
            },
        };
        self.lock.unlock();
        assert(r is None ==> self@ =~= q);
        r
    }
}

/// A queue after pushing the elements of `xs` in order.
pub open spec fn push_all(q: Seq<u32>, xs: Seq<u32>) -> Seq<u32>
    decreases xs.len(),
{
    if xs.len() == 0 {
        q
    } else {
        push_all(q, xs.drop_last()).push(xs.last())
    }
}

/// A queue after popping `n` elements.
pub open spec fn pop_many(q: Seq<u32>, n: nat) -> Seq<u32>
    decreases n,
{
    if n == 0 {
        q
    } else {
        pop_many(q, (n - 1) as nat).drop_first()
    }
}

proof fn lemma_push_all(q: Seq<u32>, xs: Seq<u32>)
    ensures
        push_all(q, xs) == q + xs,
    decreases xs.len(),
{
    if xs.len() > 0 {
        lemma_push_all(q, xs.drop_last());
        assert((q + xs.drop_last()).push(xs.last()) =~= q + xs);
    } else {
        assert(q + xs =~= q);
    }
}

proof fn lemma_pop_many(q: Seq<u32>, n: nat)
    requires
        n <= q.len(),
    ensures
        pop_many(q, n) == q.skip(n as int),
    decreases n,
{
    if n > 0 {
        lemma_pop_many(q, (n - 1) as nat);
        assert(q.skip(n - 1).drop_first() =~= q.skip(n as int));
    } else {
        assert(q.skip(0) =~= q);
    }
}

/// Law: a queue gives its elements out in the order in which they went in: what was pushed
/// behind `before` comes out first after everything of `before` and all that was pushed
/// earlier was popped.
pub proof fn law_fifo(before: Seq<u32>, pushed: Seq<u32>, i: int)
    requires
        0 <= i < pushed.len(),
    ensures
        ({
            let q = pop_many(push_all(before, pushed), (before.len() + i) as nat);
            q.len() > 0 && q[0] == pushed[i]
        }),
{
    lemma_push_all(before, pushed);
    lemma_pop_many(before + pushed, (before.len() + i) as nat);
}

/// Law: a queue holds at most one element less than it has cells.
pub proof fn law_capacity(q: RingQueue)
    requires
        q.wf(),
    ensures
        q@.len() <= QCAP - 1,
{
}

} // verus!
