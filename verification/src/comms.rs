//! Scratch pads that hold a batch of requests or responses as flat arrays.

use crate::observation::{
    repeated, Action, Observation, ObservationView, TokenId, GRID_MAX, MAX_OBJ0, MAX_OBJ1,
    NUM_ACTIONS, PAD_U16,
};
use crate::scalar::{filled, zero, Scalar};
use std::collections::HashMap;
use vstd::prelude::*;

verus! {

/// The row `i` of a flat array with rows of one width.
pub open spec fn row<T>(s: Seq<T>, i: int, width: int) -> Seq<T> {
    s.subrange(i * width, i * width + width)
}

/// The first `n` tokens, padded to a width.
pub open spec fn padded(s: Seq<u16>, n: int, width: nat) -> Seq<u16> {
    Seq::new(
        width,
        |j: int|
            if j < n {
                s[j]
            } else {
                PAD_U16
            },
    )
}

/// The tokens that are not padding, in order.
pub open spec fn unpadded(s: Seq<u16>) -> Seq<u16> {
    s.filter(|t: u16| t != PAD_U16)
}

/// The mask of a list of actions: 1 for each of them.
pub open spec fn mask_of(actions: Seq<Action>, width: nat) -> Seq<u8> {
    Seq::new(
        width,
        |a: int|
            if exists|k: int| 0 <= k < actions.len() && #[trigger] actions[k] == a {
                1u8
            } else {
                0u8
            },
    )
}

/// The actions among the first `n` that a mask sets, in order.
pub open spec fn actions_of(mask: Seq<u8>, n: nat) -> Seq<Action>
    decreases n,
{
    if n == 0 {
        Seq::empty()
    } else {
        let before = actions_of(mask, (n - 1) as nat);
        if mask[n - 1] != 0 {
            before.push((n - 1) as Action)
        } else {
            before
        }
    }
}

/// Writes the first `n` tokens of `src`, padded to `width`, from `start` on.
pub fn write_padded(buf: &mut Vec<u16>, start: usize, width: usize, src: &Vec<u16>, n: usize)
    requires
        start + width <= old(buf)@.len(),
        n <= src@.len(),
        n <= width,
    ensures
        final(buf)@.len() == old(buf)@.len(),
        final(buf)@.subrange(start as int, start + width) == padded(src@, n as int, width as nat),
        forall|k: int|
            0 <= k < old(buf)@.len() && !(start <= k < start + width) ==> #[trigger] final(buf)@[k]
                == old(buf)@[k],
{
    let ghost before = buf@;
    let mut j: usize = 0;
    while j < width
        invariant
            j <= width,
            start + width <= buf@.len(),
            buf@.len() == before.len(),
            n <= src@.len(),
            n <= width,
            forall|k: int| 0 <= k < j ==> #[trigger] buf@[start + k] == padded(
                src@,
                n as int,
                width as nat,
            )[k],
            forall|k: int|
                0 <= k < before.len() && !(start <= k < start + j) ==> #[trigger] buf@[k]
                    == before[k],
        decreases width - j,
    {
        assert(buf.len() == buf@.len());
        let t: u16 = if j < n {
            src[j]
        } else {
            PAD_U16
        };
        buf[start + j] = t;
        j += 1;
    }
    assert(buf@.subrange(start as int, start + width) =~= padded(src@, n as int, width as nat)) by {
        assert forall|k: int| 0 <= k < width implies #[trigger] buf@.subrange(
            start as int,
            start + width,
        )[k] == padded(src@, n as int, width as nat)[k] by {
            assert(buf@[start + k] == padded(src@, n as int, width as nat)[k]);
        }
    }
}

/// Writes the mask of a list of actions from `start` on.
pub fn write_mask(buf: &mut Vec<u8>, start: usize, width: usize, actions: &Vec<Action>)
    requires
        start + width <= old(buf)@.len(),
        forall|k: int| 0 <= k < actions@.len() ==> (#[trigger] actions@[k]) < width,
    ensures
        final(buf)@.len() == old(buf)@.len(),
        final(buf)@.subrange(start as int, start + width) == mask_of(actions@, width as nat),
        forall|k: int|
            0 <= k < old(buf)@.len() && !(start <= k < start + width) ==> #[trigger] final(buf)@[k]
                == old(buf)@[k],
{
    let ghost before = buf@;
    let mut j: usize = 0;
    while j < width
        invariant
            j <= width,
            start + width <= buf@.len(),
            buf@.len() == before.len(),
            forall|k: int| start <= k < start + j ==> #[trigger] buf@[k] == 0,
            forall|k: int|
                0 <= k < before.len() && !(start <= k < start + j) ==> #[trigger] buf@[k]
                    == before[k],
        decreases width - j,
    {
        assert(buf.len() == buf@.len());
        buf[start + j] = 0;
        j += 1;
    }
    let mut i: usize = 0;
    while i < actions.len()
        invariant
            i <= actions@.len(),
            start + width <= buf@.len(),
            buf@.len() == before.len(),
            forall|k: int| 0 <= k < actions@.len() ==> (#[trigger] actions@[k]) < width,
            forall|k: int|
                start <= k < start + width ==> #[trigger] buf@[k] == mask_of(
                    actions@.take(i as int),
                    width as nat,
                )[k - start],
            forall|k: int|
                0 <= k < before.len() && !(start <= k < start + width) ==> #[trigger] buf@[k]
                    == before[k],
        decreases actions.len() - i,
    {
        assert(buf.len() == buf@.len());
        let a: usize = actions[i] as usize;
        let ghost b0 = buf@;
        buf[start + a] = 1;
        proof {
            let t0 = actions@.take(i as int);
            let t1 = actions@.take(i + 1);
            assert(t1[i as int] == a);
            assert forall|k: int| start <= k < start + width implies #[trigger] buf@[k] == mask_of(
                t1,
                width as nat,
            )[k - start] by {
                assert(b0[k] == mask_of(t0, width as nat)[k - start]);
                if exists|m: int| 0 <= m < t0.len() && #[trigger] t0[m] == k - start {
                    let m = choose|m: int| 0 <= m < t0.len() && #[trigger] t0[m] == k - start;
                    assert(t1[m] == k - start);
                }
                if exists|m: int| 0 <= m < t1.len() && #[trigger] t1[m] == k - start {
                    let m = choose|m: int| 0 <= m < t1.len() && #[trigger] t1[m] == k - start;
                    if m < i {
                        assert(t0[m] == k - start);
                    }
                }
            }
        }
        i += 1;
    }
    assert(actions@.take(i as int) =~= actions@);
    assert(buf@.subrange(start as int, start + width) =~= mask_of(actions@, width as nat));
}

/// The tokens of `buf` from `start` on that are not padding, among `n`.
pub fn read_unpadded(buf: &Vec<u16>, start: usize, n: usize) -> (r: Vec<u16>)
    requires
        start + n <= buf@.len(),
    ensures
        r@ == unpadded(buf@.subrange(start as int, start + n)),
{
    let mut out: Vec<u16> = Vec::new();
    let ghost p = |t: u16| t != PAD_U16;
    let mut j: usize = 0;
    proof {
        reveal(Seq::filter);
    }
    assert(buf@.subrange(start as int, start as int) =~= Seq::empty());
    assert(out@ =~= unpadded(Seq::empty()));
    while j < n
        invariant
            j <= n,
            start + n <= buf@.len(),
            p == (|t: u16| t != PAD_U16),
            out@ == buf@.subrange(start as int, start + j).filter(p),
        decreases n - j,
    {
        assert(buf.len() == buf@.len());
        let t: u16 = buf[start + j];
        proof {
            let s = buf@.subrange(start as int, start + j);
            assert(buf@.subrange(start as int, start + j + 1) =~= s.push(t));
            s.lemma_filter_push(t, p);
        }
        if t != PAD_U16 {
            out.push(t);
        }
        j += 1;
    }
    out
}

/// The tokens of `buf` from `start` on.
pub fn read_tokens(buf: &Vec<u16>, start: usize, n: usize) -> (r: Vec<u16>)
    requires
        start + n <= buf@.len(),
    ensures
        r@ == buf@.subrange(start as int, start + n),
{
    let mut out: Vec<u16> = Vec::with_capacity(n);
    let mut j: usize = 0;
    assert(out@ =~= buf@.subrange(start as int, start as int));
    while j < n
        invariant
            j <= n,
            start + n <= buf@.len(),
            out@ == buf@.subrange(start as int, start + j),
        decreases n - j,
    {
        assert(buf.len() == buf@.len());
        out.push(buf[start + j]);
        j += 1;
        assert(out@ =~= buf@.subrange(start as int, start + j));
    }
    out
}

/// The actions that the mask from `start` on sets.
pub fn read_mask(buf: &Vec<u8>, start: usize, width: usize) -> (r: Vec<Action>)
    requires
        start + width <= buf@.len(),
        width <= 65536,
    ensures
        r@ == actions_of(buf@.subrange(start as int, start + width), width as nat),
{
    let mut out: Vec<Action> = Vec::new();
    let ghost mask = buf@.subrange(start as int, start + width);
    let mut a: usize = 0;
    while a < width
        invariant
            a <= width,
            width <= 65536,
            start + width <= buf@.len(),
            mask == buf@.subrange(start as int, start + width),
            out@ == actions_of(mask, a as nat),
        decreases width - a,
    {
        assert(buf.len() == buf@.len());
        assert(mask[a as int] == buf@[start + a]);
        if buf[start + a] != 0 {
            out.push(a as Action);
        }
        a += 1;
    }
    out
}

/// One request, as it is packed.
#[verifier::ext_equal]
pub struct RequestEntry {
    pub h: u8,
    pub w: u8,
    pub num_ancillas: u8,
    pub obj0_len: u16,
    pub obj1_len: u16,
    pub placement: Seq<TokenId>,
    pub obj0: Seq<TokenId>,
    pub obj1: Seq<TokenId>,
    pub action_mask: Seq<u8>,
}

/// The smaller of two numbers.
pub open spec fn at_most(a: nat, b: nat) -> nat {
    if a <= b {
        a
    } else {
        b
    }
}

/// An observation, packed: numbers cut to a byte, tokens padded, actions as a mask, and
/// objectives past the limits dropped.
pub open spec fn pack_entry(o: ObservationView) -> RequestEntry {
    let n0 = at_most(o.objectives_0.len(), MAX_OBJ0 as nat);
    let n1 = at_most(o.objectives_1.len(), MAX_OBJ1 as nat);
    RequestEntry {
        h: o.height as u8,
        w: o.width as u8,
        num_ancillas: o.num_ancillas as u8,
        obj0_len: n0 as u16,
        obj1_len: n1 as u16,
        placement: padded(o.placement, o.placement.len() as int, GRID_MAX as nat),
        obj0: padded(o.objectives_0, n0 as int, MAX_OBJ0 as nat),
        obj1: padded(o.objectives_1, n1 as int, MAX_OBJ1 as nat),
        action_mask: mask_of(o.valid_actions, NUM_ACTIONS as nat),
    }
}

/// A packed request, unpacked: tokens without the padding, and the actions that the mask sets.
pub open spec fn unpack_entry(e: RequestEntry) -> ObservationView {
    ObservationView {
        placement: unpadded(e.placement),
        objectives_0: unpadded(e.obj0.take(e.obj0_len as int)),
        objectives_1: unpadded(e.obj1.take(e.obj1_len as int)),
        height: e.h as usize,
        width: e.w as usize,
        num_ancillas: e.num_ancillas as usize,
        valid_actions: actions_of(e.action_mask, NUM_ACTIONS as nat),
    }
}

/// A batch of requests as flat arrays.
pub struct RequestScratchPad {
    pub max_batch: usize,
    pub h: Vec<u8>,
    pub w: Vec<u8>,
    pub num_ancillas: Vec<u8>,
    pub obj0_len: Vec<u16>,
    pub obj1_len: Vec<u16>,
    pub placement: Vec<TokenId>,
    pub obj0: Vec<TokenId>,
    pub obj1: Vec<TokenId>,
    pub action_mask: Vec<u8>,
}

impl RequestScratchPad {
    /// The arrays have room for the batch, and no more objectives are counted than fit.
    pub open spec fn wf(&self) -> bool {
        &&& self.h@.len() == self.max_batch
        &&& self.w@.len() == self.max_batch
        &&& self.num_ancillas@.len() == self.max_batch
        &&& self.obj0_len@.len() == self.max_batch
        &&& self.obj1_len@.len() == self.max_batch
        &&& self.placement@.len() == self.max_batch * GRID_MAX
        &&& self.obj0@.len() == self.max_batch * MAX_OBJ0
        &&& self.obj1@.len() == self.max_batch * MAX_OBJ1
        &&& self.action_mask@.len() == self.max_batch * NUM_ACTIONS
        &&& self.max_batch * MAX_OBJ0 <= usize::MAX
        &&& forall|i: int|
            0 <= i < self.max_batch ==> (#[trigger] self.obj0_len@[i]) <= MAX_OBJ0
        &&& forall|i: int|
            0 <= i < self.max_batch ==> (#[trigger] self.obj1_len@[i]) <= MAX_OBJ1
    }

    /// The request `i`.
    pub open spec fn entry(&self, i: int) -> RequestEntry {
        RequestEntry {
            h: self.h@[i],
            w: self.w@[i],
            num_ancillas: self.num_ancillas@[i],
            obj0_len: self.obj0_len@[i],
            obj1_len: self.obj1_len@[i],
            placement: row(self.placement@, i, GRID_MAX as int),
            obj0: row(self.obj0@, i, MAX_OBJ0 as int),
            obj1: row(self.obj1@, i, MAX_OBJ1 as int),
            action_mask: row(self.action_mask@, i, NUM_ACTIONS as int),
        }
    }

    /// An empty pad: all zeros.
    pub fn new(max_batch: usize) -> (r: Self)
        requires
            max_batch * MAX_OBJ0 <= usize::MAX,
        ensures
            r.wf(),
            r.max_batch == max_batch,
            r.h@ == Seq::new(max_batch as nat, |i: int| 0u8),
            r.w@ == Seq::new(max_batch as nat, |i: int| 0u8),
            r.num_ancillas@ == Seq::new(max_batch as nat, |i: int| 0u8),
            r.obj0_len@ == Seq::new(max_batch as nat, |i: int| 0u16),
            r.obj1_len@ == Seq::new(max_batch as nat, |i: int| 0u16),
            r.placement@ == Seq::new((max_batch * GRID_MAX) as nat, |i: int| PAD_U16),
            r.obj0@ == Seq::new((max_batch * MAX_OBJ0) as nat, |i: int| PAD_U16),
            r.obj1@ == Seq::new((max_batch * MAX_OBJ1) as nat, |i: int| PAD_U16),
            r.action_mask@ == Seq::new((max_batch * NUM_ACTIONS) as nat, |i: int| 0u8),
    {
        RequestScratchPad {
            max_batch,
            h: repeated(0u8, max_batch),
            w: repeated(0u8, max_batch),
            num_ancillas: repeated(0u8, max_batch),
            obj0_len: repeated(0u16, max_batch),
            obj1_len: repeated(0u16, max_batch),
            placement: repeated(PAD_U16, max_batch * GRID_MAX),
            obj0: repeated(PAD_U16, max_batch * MAX_OBJ0),
            obj1: repeated(PAD_U16, max_batch * MAX_OBJ1),
            action_mask: repeated(0u8, max_batch * NUM_ACTIONS),
        }
    }

    /// Packs the observations into the first entries; the others stay as they are.
    pub fn pack(&mut self, obs: &[Observation])
        requires
            old(self).wf(),
            obs@.len() <= old(self).max_batch,
            forall|i: int|
                0 <= i < obs@.len() ==> (#[trigger] obs@[i]).placement@.len() <= GRID_MAX,
            forall|i: int, k: int|
                0 <= i < obs@.len() && 0 <= k < obs@[i].valid_actions@.len()
                    ==> (#[trigger] obs@[i].valid_actions@[k]) < NUM_ACTIONS,
        ensures
            final(self).wf(),
            final(self).max_batch == old(self).max_batch,
            forall|i: int|
                0 <= i < old(self).max_batch ==> #[trigger] final(self).entry(i) == (if i
                    < obs@.len() {
                    pack_entry(obs@[i]@)
                } else {
                    old(self).entry(i)
                }),
    {
        let ghost before = *self;
        let mut i: usize = 0;
        while i < obs.len()
            invariant
                i <= obs@.len(),
                self.wf(),
                self.max_batch == before.max_batch,
                obs@.len() <= self.max_batch,
                forall|i: int|
                    0 <= i < obs@.len() ==> (#[trigger] obs@[i]).placement@.len() <= GRID_MAX,
                forall|i: int, k: int|
                    0 <= i < obs@.len() && 0 <= k < obs@[i].valid_actions@.len()
                        ==> (#[trigger] obs@[i].valid_actions@[k]) < NUM_ACTIONS,
                forall|k: int|
                    0 <= k < self.max_batch ==> #[trigger] self.entry(k) == (if k < i {
                        pack_entry(obs@[k]@)
                    } else {
                        before.entry(k)
                    }),
            decreases obs.len() - i,
        {
            self.pack_one(i, &obs[i]);
            i += 1;
        }
    }

    /// Packs one observation into the entry `i`.
    fn pack_one(&mut self, i: usize, o: &Observation)
        requires
            old(self).wf(),
            i < old(self).max_batch,
            o.placement@.len() <= GRID_MAX,
            forall|k: int|
                0 <= k < o.valid_actions@.len() ==> (#[trigger] o.valid_actions@[k]) < NUM_ACTIONS,
        ensures
            final(self).wf(),
            final(self).max_batch == old(self).max_batch,
            forall|k: int|
                0 <= k < old(self).max_batch ==> #[trigger] final(self).entry(k) == (if k == i {
                    pack_entry(o@)
                } else {
                    old(self).entry(k)
                }),
    {
        let ghost before = *self;
        self.h[i] = o.height as u8;
        self.w[i] = o.width as u8;
        self.num_ancillas[i] = o.num_ancillas as u8;
        write_padded(&mut self.placement, i * GRID_MAX, GRID_MAX, &o.placement, o.placement.len());
        let n0: usize = if o.objectives_0.len() <= MAX_OBJ0 {
            o.objectives_0.len()
        } else {
            MAX_OBJ0
        };
        self.obj0_len[i] = n0 as u16;
        write_padded(&mut self.obj0, i * MAX_OBJ0, MAX_OBJ0, &o.objectives_0, n0);
        let n1: usize = if o.objectives_1.len() <= MAX_OBJ1 {
            o.objectives_1.len()
        } else {
            MAX_OBJ1
        };
        self.obj1_len[i] = n1 as u16;
        write_padded(&mut self.obj1, i * MAX_OBJ1, MAX_OBJ1, &o.objectives_1, n1);
        write_mask(&mut self.action_mask, i * NUM_ACTIONS, NUM_ACTIONS, &o.valid_actions);
        assert forall|k: int| 0 <= k < before.max_batch implies #[trigger] self.entry(k) == (if k
            == i {
            pack_entry(o@)
        } else {
            before.entry(k)
        }) by {
            if k == i {
                assert(self.entry(k) =~= pack_entry(o@));
            } else {
                lemma_row_frame(before.placement@, self.placement@, i as int, k, GRID_MAX as int);
                lemma_row_frame(before.obj0@, self.obj0@, i as int, k, MAX_OBJ0 as int);
                lemma_row_frame(before.obj1@, self.obj1@, i as int, k, MAX_OBJ1 as int);
                lemma_row_frame(
                    before.action_mask@,
                    self.action_mask@,
                    i as int,
                    k,
                    NUM_ACTIONS as int,
                );
                assert(self.entry(k) =~= before.entry(k));
            }
        }
    }

    /// Unpacks all entries of the pad.
    pub fn unpack(&self) -> (r: Vec<Observation>)
        requires
            self.wf(),
        ensures
            r@.len() == self.max_batch,
            forall|i: int| 0 <= i < r@.len() ==> (#[trigger] r@[i])@ == unpack_entry(self.entry(i)),
    {
        let mut observations: Vec<Observation> = Vec::with_capacity(self.max_batch);
        let mut i: usize = 0;
        while i < self.max_batch
            invariant
                i <= self.max_batch,
                self.wf(),
                observations@.len() == i,
                forall|k: int|
                    0 <= k < i ==> (#[trigger] observations@[k])@ == unpack_entry(self.entry(k)),
            decreases self.max_batch - i,
        {
            let n0: usize = self.obj0_len[i] as usize;
            let n1: usize = self.obj1_len[i] as usize;
            assert(self.obj0_len@[i as int] <= MAX_OBJ0 && self.obj1_len@[i as int] <= MAX_OBJ1);
            let o: Observation = Observation {
                placement: read_unpadded(&self.placement, i * GRID_MAX, GRID_MAX),
                objectives_0: read_unpadded(&self.obj0, i * MAX_OBJ0, n0),
                objectives_1: read_unpadded(&self.obj1, i * MAX_OBJ1, n1),
                height: self.h[i] as usize,
                width: self.w[i] as usize,
                num_ancillas: self.num_ancillas[i] as usize,
                valid_actions: read_mask(&self.action_mask, i * NUM_ACTIONS, NUM_ACTIONS),
            };
            proof {
                let e = self.entry(i as int);
                assert(e.obj0.take(n0 as int) =~= self.obj0@.subrange(
                    i * MAX_OBJ0,
                    i * MAX_OBJ0 + n0,
                ));
                assert(e.obj1.take(n1 as int) =~= self.obj1@.subrange(
                    i * MAX_OBJ1,
                    i * MAX_OBJ1 + n1,
                ));
                assert(o@ =~= unpack_entry(e));
            }
            observations.push(o);
            i += 1;
        }
        observations
    }
}

/// Rows that were not written are the same.
pub proof fn lemma_row_frame<T>(a: Seq<T>, b: Seq<T>, i: int, k: int, width: int)
    requires
        a.len() == b.len(),
        0 <= i && 0 <= k && i != k,
        width >= 0,
        k * width + width <= a.len(),
        forall|j: int|
            0 <= j < a.len() && !(i * width <= j < i * width + width) ==> #[trigger] b[j] == a[j],
    ensures
        row(a, k, width) == row(b, k, width),
{
    assert(k < i ==> k * width + width <= i * width) by (nonlinear_arith)
        requires
            width >= 0,
    ;
    assert(k > i ==> i * width + width <= k * width) by (nonlinear_arith)
        requires
            width >= 0,
    ;
    assert(k * width >= 0) by (nonlinear_arith)
        requires
            width >= 0,
            k >= 0,
    ;
    assert(row(a, k, width) =~= row(b, k, width));
}

/// Whether a list of actions is in order, without repeats.
pub open spec fn ascending(actions: Seq<Action>) -> bool {
    forall|i: int, j: int|
        0 <= i < j < actions.len() ==> (#[trigger] actions[i]) < (#[trigger] actions[j])
}

proof fn lemma_actions_of_mask(actions: Seq<Action>, width: nat, k: nat) -> (j: nat)
    requires
        ascending(actions),
        k <= width <= 65536,
    ensures
        j <= actions.len(),
        actions_of(mask_of(actions, width), k) == actions.take(j as int),
        forall|i: int| 0 <= i < j ==> (#[trigger] actions[i]) < k,
        forall|i: int| j <= i < actions.len() ==> (#[trigger] actions[i]) >= k,
    decreases k,
{
    if k == 0 {
        assert(actions.take(0) =~= Seq::empty());
        0
    } else {
        let j = lemma_actions_of_mask(actions, width, (k - 1) as nat);
        let mask = mask_of(actions, width);
        if exists|m: int| 0 <= m < actions.len() && #[trigger] actions[m] == k - 1 {
            let m = choose|m: int| 0 <= m < actions.len() && #[trigger] actions[m] == k - 1;
            assert(mask[k - 1] == 1);
            assert(m >= j);
            if m > j {
                assert(actions[j as int] < actions[m]);
            }
            assert(m == j);
            assert(actions.take(j as int).push((k - 1) as Action) =~= actions.take((j + 1) as int));
            assert forall|i: int| j + 1 <= i < actions.len() implies (#[trigger] actions[i]) >= k by {
                assert(actions[j as int] < actions[i]);
            }
            (j + 1) as nat
        } else {
            assert(mask[k - 1] == 0);
            assert forall|i: int| j <= i < actions.len() implies (#[trigger] actions[i]) >= k by {
                assert(actions[i] != k - 1);
            }
            j
        }
    }
}

/// Law: reading the mask of a list of actions gives the list back, if it is in order.
pub proof fn law_mask_roundtrip(actions: Seq<Action>, width: nat)
    requires
        ascending(actions),
        width <= 65536,
        forall|i: int| 0 <= i < actions.len() ==> (#[trigger] actions[i]) < width,
    ensures
        actions_of(mask_of(actions, width), width) == actions,
{
    let j = lemma_actions_of_mask(actions, width, width);
    if j < actions.len() {
        assert(actions[j as int] >= width);
    }
    assert(actions.take(j as int) =~= actions);
}

/// Whether no token is padding.
pub open spec fn no_pads(s: Seq<u16>) -> bool {
    forall|i: int| 0 <= i < s.len() ==> #[trigger] s[i] != PAD_U16
}

proof fn lemma_filter_all(s: Seq<u16>)
    requires
        no_pads(s),
    ensures
        unpadded(s) == s,
    decreases s.len(),
{
    let p = |t: u16| t != PAD_U16;
    reveal(Seq::filter);
    if s.len() > 0 {
        lemma_filter_all(s.drop_last());
        assert(s[s.len() - 1] != PAD_U16);
        assert(s.drop_last().push(s.last()) =~= s);
    }
}

proof fn lemma_filter_none(s: Seq<u16>)
    requires
        forall|i: int| 0 <= i < s.len() ==> #[trigger] s[i] == PAD_U16,
    ensures
        unpadded(s) == Seq::<u16>::empty(),
    decreases s.len(),
{
    reveal(Seq::filter);
    if s.len() > 0 {
        lemma_filter_none(s.drop_last());
        assert(s[s.len() - 1] == PAD_U16);
    } else {
        assert(unpadded(s) =~= Seq::<u16>::empty());
    }
}

/// Padding that is added is taken off again.
proof fn lemma_unpad(s: Seq<u16>, width: nat)
    requires
        no_pads(s),
        s.len() <= width,
    ensures
        unpadded(padded(s, s.len() as int, width)) == s,
        padded(s, s.len() as int, width).take(s.len() as int) == s,
{
    let p = |t: u16| t != PAD_U16;
    let all = padded(s, s.len() as int, width);
    let tail = all.skip(s.len() as int);
    assert(all =~= s + tail);
    Seq::filter_distributes_over_add(s, tail, p);
    lemma_filter_all(s);
    lemma_filter_none(tail);
    assert(s + Seq::<u16>::empty() =~= s);
    assert(all.take(s.len() as int) =~= s);
}

/// Law: unpacking what was packed gives the observation back. It holds of observations whose
/// numbers fit a byte, whose lists fit, whose tokens are not the padding token, and whose
/// actions are in order.
pub proof fn law_request_roundtrip(o: ObservationView)
    requires
        o.height < 256 && o.width < 256 && o.num_ancillas < 256,
        o.placement.len() <= GRID_MAX && no_pads(o.placement),
        o.objectives_0.len() <= MAX_OBJ0 && no_pads(o.objectives_0),
        o.objectives_1.len() <= MAX_OBJ1 && no_pads(o.objectives_1),
        ascending(o.valid_actions),
        forall|i: int|
            0 <= i < o.valid_actions.len() ==> (#[trigger] o.valid_actions[i]) < NUM_ACTIONS,
    ensures
        unpack_entry(pack_entry(o)) == o,
{
    lemma_unpad(o.placement, GRID_MAX as nat);
    lemma_unpad(o.objectives_0, MAX_OBJ0 as nat);
    lemma_unpad(o.objectives_1, MAX_OBJ1 as nat);
    lemma_filter_all(o.objectives_0);
    lemma_filter_all(o.objectives_1);
    law_mask_roundtrip(o.valid_actions, NUM_ACTIONS as nat);
    assert(unpack_entry(pack_entry(o)) =~= o);
}

/// The prior map as one number per action: zero for an action without a prior.
pub open spec fn dense_prior<R: Scalar>(prior: Map<Action, R>, width: nat) -> Seq<R> {
    Seq::new(
        width,
        |a: int|
            if prior.contains_key(a as Action) {
                prior[a as Action]
            } else {
                zero()
            },
    )
}

/// Writes a prior map as one number per action, from `start` on.
pub fn write_prior<R: Scalar>(
    buf: &mut Vec<R>,
    start: usize,
    width: usize,
    prior: &HashMap<Action, R>,
)
    requires
        start + width <= old(buf)@.len(),
        width <= 65536,
        forall|a: Action| #[trigger] prior@.contains_key(a) ==> a < width,
    ensures
        final(buf)@.len() == old(buf)@.len(),
        final(buf)@.subrange(start as int, start + width) == dense_prior(prior@, width as nat),
        forall|k: int|
            0 <= k < old(buf)@.len() && !(start <= k < start + width) ==> #[trigger] final(buf)@[k]
                == old(buf)@[k],
{
    broadcast use vstd::std_specs::hash::group_hash_axioms;

    let ghost before = buf@;
    let zero: R = R::decimal(0, 0);
    let mut j: usize = 0;
    while j < width
        invariant
            j <= width,
            start + width <= buf@.len(),
            buf@.len() == before.len(),
            zero == crate::scalar::zero::<R>(),
            forall|k: int| start <= k < start + j ==> #[trigger] buf@[k] == zero,
            forall|k: int|
                0 <= k < before.len() && !(start <= k < start + j) ==> #[trigger] buf@[k]
                    == before[k],
        decreases width - j,
    {
        assert(buf.len() == buf@.len());
        buf[start + j] = zero.dup();
        j += 1;
    }
    let ghost m = prior@;
    for entry in it: prior.iter()
        invariant
            m == prior@,
            start + width <= buf@.len(),
            buf@.len() == before.len(),
            width <= 65536,
            zero == crate::scalar::zero::<R>(),
            forall|a: Action| #[trigger] m.contains_key(a) ==> a < width,
            forall|i: int|
                #![trigger it.seq()[i]]
                0 <= i < it.seq().len() ==> m.contains_key(*it.seq()[i].0) && m[*it.seq()[i].0]
                    == *it.seq()[i].1,
            forall|k: int|
                start <= k < start + width ==> #[trigger] buf@[k] == zero || (m.contains_key(
                    (k - start) as Action,
                ) && buf@[k] == m[(k - start) as Action]),
            forall|a: Action| #[trigger]
                m.contains_key(a) ==> buf@[start + a] == m[a] || exists|i: int|
                    it.index() <= i < it.seq().len() && *(#[trigger] it.seq()[i]).0 == a,
            forall|k: int|
                0 <= k < before.len() && !(start <= k < start + width) ==> #[trigger] buf@[k]
                    == before[k],
    {
        assert(buf.len() == buf@.len());
        let a: Action = *entry.0;
        assert(m.contains_key(a));
        buf[start + a as usize] = entry.1.dup();
    }
    assert(buf@.subrange(start as int, start + width) =~= dense_prior(m, width as nat)) by {
        assert forall|k: int| 0 <= k < width implies #[trigger] buf@.subrange(
            start as int,
            start + width,
        )[k] == dense_prior(m, width as nat)[k] by {
            assert(buf@[start + k] == zero || (m.contains_key((start + k - start) as Action)
                && buf@[start + k] == m[(start + k - start) as Action]));
            if m.contains_key(k as Action) {
                assert(buf@[start + (k as Action)] == m[k as Action]);
            }
        }
    }
}

/// The prior map of the positive ones among the first `n` numbers.
pub open spec fn positive_prior<R: Scalar>(dense: Seq<R>, n: nat) -> Map<Action, R> {
    Map::new(
        |a: Action| a < n && R::spec_less(zero(), dense[a as int]),
        |a: Action| dense[a as int],
    )
}

/// Whether priors and values were packed into the first entries of a pad, each in the place of
/// what was there, and the other entries stay as they were.
pub open spec fn has_packed<R: Scalar>(
    old_pad: ResponseScratchPad<R>,
    priors: Seq<Map<Action, R>>,
    values: Seq<R>,
    new_pad: ResponseScratchPad<R>,
) -> bool {
    &&& new_pad.priors@.len() == old_pad.priors@.len()
    &&& forall|i: int|
        0 <= i < old_pad.priors@.len() ==> (#[trigger] new_pad.priors@[i])@ == (if i
            < priors.len() {
            dense_prior(priors[i], NUM_ACTIONS as nat)
        } else {
            old_pad.priors@[i]@
        })
    &&& forall|i: int|
        0 <= i < old_pad.values@.len() ==> #[trigger] new_pad.values@[i] == (if i < values.len() {
            values[i]
        } else {
            old_pad.values@[i]
        })
}

/// A batch of responses: a dense prior and a value per request.
pub struct ResponseScratchPad<R: Scalar> {
    pub priors: Vec<Vec<R>>,
    pub values: Vec<R>,
}

impl<R: Scalar> ResponseScratchPad<R> {
    /// There is a value per prior, and a number per action.
    pub open spec fn wf(&self) -> bool {
        &&& self.values@.len() == self.priors@.len()
        &&& forall|i: int|
            0 <= i < self.priors@.len() ==> (#[trigger] self.priors@[i])@.len() == NUM_ACTIONS
    }

    /// An empty pad: all zeros.
    pub fn new(max_batch: usize) -> (r: Self)
        ensures
            r.wf(),
            r.values@ == Seq::new(max_batch as nat, |i: int| zero::<R>()),
            forall|i: int|
                0 <= i < max_batch ==> (#[trigger] r.priors@[i])@ == Seq::new(
                    NUM_ACTIONS as nat,
                    |a: int| zero::<R>(),
                ),
    {
        let zero: R = R::decimal(0, 0);
        let mut priors: Vec<Vec<R>> = Vec::with_capacity(max_batch);
        let mut i: usize = 0;
        while i < max_batch
            invariant
                i <= max_batch,
                zero == crate::scalar::zero::<R>(),
                priors@.len() == i,
                forall|k: int|
                    0 <= k < i ==> (#[trigger] priors@[k])@ == Seq::new(
                        NUM_ACTIONS as nat,
                        |a: int| crate::scalar::zero::<R>(),
                    ),
            decreases max_batch - i,
        {
            let row: Vec<R> = filled(&zero, NUM_ACTIONS);
            assert(row@ =~= Seq::new(NUM_ACTIONS as nat, |a: int| crate::scalar::zero::<R>()));
            priors.push(row);
            i += 1;
        }
        let values: Vec<R> = filled(&zero, max_batch);
        assert(values@ =~= Seq::new(max_batch as nat, |i: int| crate::scalar::zero::<R>()));
        ResponseScratchPad { priors, values }
    }

    /// Packs priors and values into the first entries; the others stay as they are.
    pub fn pack(&mut self, priors: &[HashMap<Action, R>], values: &[R])
        requires
            old(self).wf(),
            priors@.len() <= old(self).priors@.len(),
            values@.len() <= old(self).values@.len(),
            forall|i: int, a: Action|
                0 <= i < priors@.len() && #[trigger] priors@[i]@.contains_key(a) ==> a
                    < NUM_ACTIONS,
        ensures
            final(self).wf(),
            has_packed(
                *old(self),
                Seq::new(priors@.len(), |i: int| priors@[i]@),
                values@,
                *final(self),
            ),
    {
        let ghost before = *self;
        let mut i: usize = 0;
        while i < priors.len()
            invariant
                i <= priors@.len(),
                priors@.len() <= before.priors@.len(),
                self.priors@.len() == before.priors@.len(),
                self.values@ == before.values@,
                self.wf(),
                forall|i: int, a: Action|
                    0 <= i < priors@.len() && #[trigger] priors@[i]@.contains_key(a) ==> a
                        < NUM_ACTIONS,
                forall|k: int|
                    0 <= k < before.priors@.len() ==> (#[trigger] self.priors@[k])@ == (if k < i {
                        dense_prior(priors@[k]@, NUM_ACTIONS as nat)
                    } else {
                        before.priors@[k]@
                    }),
            decreases priors.len() - i,
        {
            let zero: R = R::decimal(0, 0);
            let mut row: Vec<R> = filled(&zero, NUM_ACTIONS);
            write_prior(&mut row, 0, NUM_ACTIONS, &priors[i]);
            assert(row@.subrange(0, NUM_ACTIONS as int) =~= row@);
            self.priors[i] = row;
            i += 1;
        }
        let mut j: usize = 0;
        while j < values.len()
            invariant
                j <= values@.len(),
                values@.len() <= before.values@.len(),
                self.priors@.len() == before.priors@.len(),
                self.values@.len() == before.values@.len(),
                forall|k: int|
                    0 <= k < before.priors@.len() ==> (#[trigger] self.priors@[k])@ == (if k
                        < priors@.len() {
                        dense_prior(priors@[k]@, NUM_ACTIONS as nat)
                    } else {
                        before.priors@[k]@
                    }),
                forall|k: int|
                    0 <= k < before.values@.len() ==> #[trigger] self.values@[k] == (if k < j {
                        values@[k]
                    } else {
                        before.values@[k]
                    }),
            decreases values.len() - j,
        {
            self.values[j] = values[j].dup();
            j += 1;
        }
        assert forall|k: int| 0 <= k < self.priors@.len() implies (#[trigger] self.priors@[k])@.len()
            == NUM_ACTIONS by {
            assert(before.priors@[k]@.len() == NUM_ACTIONS);
        }
    }

    /// Unpacks all entries: the positive priors, and the values.
    pub fn unpack(&self) -> (r: (Vec<HashMap<Action, R>>, Vec<R>))
        requires
            self.wf(),
        ensures
            r.1@ == self.values@,
            r.0@.len() == self.values@.len(),
            forall|i: int|
                0 <= i < r.0@.len() ==> (#[trigger] r.0@[i])@ == positive_prior(
                    self.priors@[i]@,
                    NUM_ACTIONS as nat,
                ),
    {
        broadcast use vstd::std_specs::hash::group_hash_axioms;

        let mut priors: Vec<HashMap<Action, R>> = Vec::with_capacity(self.priors.len());
        let zero: R = R::decimal(0, 0);
        let mut i: usize = 0;
        while i < self.values.len()
            invariant
                i <= self.values@.len(),
                self.wf(),
                zero == crate::scalar::zero::<R>(),
                priors@.len() == i,
                forall|k: int|
                    0 <= k < i ==> (#[trigger] priors@[k])@ == positive_prior(
                        self.priors@[k]@,
                        NUM_ACTIONS as nat,
                    ),
            decreases self.values.len() - i,
        {
            let row: &Vec<R> = &self.priors[i];
            let mut prior: HashMap<Action, R> = HashMap::new();
            let mut a: usize = 0;
            assert(prior@ =~= positive_prior(row@, 0));
            while a < NUM_ACTIONS
                invariant
                    a <= NUM_ACTIONS,
                    row@.len() == NUM_ACTIONS,
                    zero == crate::scalar::zero::<R>(),
                    vstd::std_specs::hash::obeys_key_model::<Action>(),
                    prior@ == positive_prior(row@, a as nat),
                decreases NUM_ACTIONS - a,
            {
                let ghost m = prior@;
                if R::less(&zero, &row[a]) {
                    prior.insert(a as Action, row[a].dup());
                }
                assert(prior@ =~= positive_prior(row@, (a + 1) as nat));
                a += 1;
            }
            priors.push(prior);
            i += 1;
        }
        (priors, crate::scalar::dup_all(&self.values))
    }
}

/// The positive ones among the numbers of a prior.
pub open spec fn positive_part<R: Scalar>(prior: Map<Action, R>) -> Map<Action, R> {
    Map::new(
        |a: Action| prior.contains_key(a) && R::spec_less(zero(), prior[a]),
        |a: Action| prior[a],
    )
}

/// Law: unpacking what was packed over whatever the pad held before gives back, of each prior, its
/// positive numbers and no other, and each value.
pub proof fn law_response_keeps_positive<R: Scalar>(
    old_pad: ResponseScratchPad<R>,
    priors: Seq<Map<Action, R>>,
    values: Seq<R>,
    new_pad: ResponseScratchPad<R>,
    i: int,
)
    requires
        old_pad.wf(),
        has_packed(old_pad, priors, values, new_pad),
        0 <= i < priors.len() <= old_pad.priors@.len(),
        values.len() == priors.len(),
        forall|a: Action| #[trigger] priors[i].contains_key(a) ==> a < NUM_ACTIONS,
    ensures
        positive_prior(new_pad.priors@[i]@, NUM_ACTIONS as nat) == positive_part(priors[i]),
        new_pad.values@[i] == values[i],
{
    R::less_law(zero());
    let dense = dense_prior(priors[i], NUM_ACTIONS as nat);
    assert(new_pad.priors@[i]@ == dense);
    let back = positive_prior(dense, NUM_ACTIONS as nat);
    let part = positive_part(priors[i]);
    assert forall|a: Action| #[trigger] back.contains_key(a) == part.contains_key(a) by {
        if a < NUM_ACTIONS {
            assert(dense[a as int] == (if priors[i].contains_key(a) {
                priors[i][a]
            } else {
                zero()
            }));
        }
    }
    assert(back =~= part);
}

/// Law: unpacking a packed prior gives it back, if all its numbers are positive.
pub proof fn law_response_roundtrip<R: Scalar>(prior: Map<Action, R>)
    requires
        forall|a: Action| #[trigger]
            prior.contains_key(a) ==> a < NUM_ACTIONS && R::spec_less(zero(), prior[a]),
    ensures
        positive_prior(dense_prior(prior, NUM_ACTIONS as nat), NUM_ACTIONS as nat) == prior,
{
    R::less_law(zero());
    let back = positive_prior(dense_prior(prior, NUM_ACTIONS as nat), NUM_ACTIONS as nat);
    assert forall|a: Action| #[trigger] back.contains_key(a) == prior.contains_key(a) by {
        if a < NUM_ACTIONS {
            assert(dense_prior(prior, NUM_ACTIONS as nat)[a as int] == (if prior.contains_key(a) {
                prior[a]
            } else {
                zero()
            }));
        }
    }
    assert(back =~= prior);
}

} // verus!
