//! Slots for board observations. A board is packed as `[layer][cell][channel]`, with room for
//! the largest grid in every layer.

use crate::comms::{at_most, lemma_row_frame, row};
use crate::observation::repeated;
use crate::scalar::{filled, zero, Scalar};
use crate::slot::{SlotHead, SlotInit, SLOT_FREE};
use crate::tilers_obs::{
    spec_channel, BoardCell, TilersObs, TilersObsView, BOARD_LAYER_MAX, BOARD_MAX, CELL_FIELDS,
    GRID_MAX, LOOKAHEAD_MAX, MAX_BATCH, NUM_ACTIONS,
};
use vstd::prelude::*;

verus! {

/// Why a slot cannot take a batch.
#[derive(Clone, Copy, Debug, PartialEq, Eq, Structural)]
pub enum BatchError {
    /// The batch is empty or too large.
    Size { batch: usize },
    /// A board has more layers than there is room for.
    Layers { layers: usize },
}

/// The layers of the first board, among the first `k`, that has more than there is room for.
pub open spec fn tall_board(observations: Seq<TilersObs>, k: nat) -> Option<usize>
    decreases k,
{
    if k == 0 {
        None
    } else {
        match tall_board(observations, (k - 1) as nat) {
            Some(layers) => Some(layers),
            None => if observations[k - 1].board@.len() > LOOKAHEAD_MAX {
                Some(observations[k - 1].board@.len() as usize)
            } else {
                None
            },
        }
    }
}

/// What is wrong with a batch.
pub open spec fn batch_error(observations: Seq<TilersObs>) -> Option<BatchError> {
    if observations.len() == 0 || observations.len() > MAX_BATCH {
        Some(BatchError::Size { batch: observations.len() as usize })
    } else {
        match tall_board(observations, observations.len()) {
            Some(layers) => Some(BatchError::Layers { layers }),
            None => None,
        }
    }
}

/// Checks that a slot has room for a batch.
pub fn check_batch(observations: &[TilersObs]) -> (r: Result<(), BatchError>)
    ensures
        r == (match batch_error(observations@) {
            Some(e) => Err(e),
            None => Ok(()),
        }),
        r is Ok <==> 0 < observations@.len() <= MAX_BATCH && forall|i: int|
            0 <= i < observations@.len() ==> (#[trigger] observations@[i]).board@.len()
                <= LOOKAHEAD_MAX,
{
    let b: usize = observations.len();
    if b == 0 || b > MAX_BATCH {
        return Err(BatchError::Size { batch: b });
    }
    let mut i: usize = 0;
    while i < b
        invariant
            i <= b,
            b == observations@.len(),
            0 < b <= MAX_BATCH,
            tall_board(observations@, i as nat) is None,
            forall|k: int|
                0 <= k < i ==> (#[trigger] observations@[k]).board@.len() <= LOOKAHEAD_MAX,
        decreases b - i,
    {
        let layers: usize = observations[i].board.len();
        if layers > LOOKAHEAD_MAX {
            proof {
                assert(observations@[i as int].board@.len() > LOOKAHEAD_MAX);
                lemma_tall_board(observations@, (i + 1) as nat, b as nat);
            }
            return Err(BatchError::Layers { layers });
        }
        i += 1;
    }
    Ok(())
}

/// A board with too many layers stays the first one.
proof fn lemma_tall_board(observations: Seq<TilersObs>, k: nat, n: nat)
    requires
        k <= n,
        tall_board(observations, k) is Some,
    ensures
        tall_board(observations, n) == tall_board(observations, k),
    decreases n,
{
    if k < n {
        lemma_tall_board(observations, k, (n - 1) as nat);
    }
}

/// A slot for board observations.
pub struct TilersSlot<R: Scalar> {
    pub state: u32,
    pub b: u32,
    pub owner_id: u32,
    pub req_id: u64,
    pub h: Vec<u8>,
    pub w: Vec<u8>,
    pub num_ancillas: Vec<u8>,
    pub num_layers: Vec<u8>,
    pub board: Vec<Vec<i16>>,
    pub action_mask: Vec<u8>,
    pub priors: Vec<R>,
    pub values: Vec<R>,
}

/// One observation, as it is packed.
#[verifier::ext_equal]
pub struct TilersEntry {
    pub h: u8,
    pub w: u8,
    pub num_ancillas: u8,
    pub num_layers: u8,
    pub board: Seq<i16>,
    pub action_mask: Seq<u8>,
}

/// The first `nl` layers of a board, packed: each channel of each cell at its place, and zeros
/// elsewhere. Cells past the largest grid are dropped.
pub open spec fn packed_board(board: Seq<Seq<BoardCell>>, nl: int) -> Seq<i16> {
    Seq::new(
        BOARD_MAX as nat,
        |k: int|
            {
                let l = k / BOARD_LAYER_MAX as int;
                let c = (k % BOARD_LAYER_MAX as int) / CELL_FIELDS as int;
                if l < nl && c < board[l].len() {
                    spec_channel(board[l][c], k % CELL_FIELDS as int)
                } else {
                    0i16
                }
            },
    )
}

/// The cell whose channels start at `o`.
pub open spec fn cell_at(packed: Seq<i16>, o: int) -> BoardCell {
    BoardCell {
        qubit_role: packed[o],
        factor_kind: packed[o + 1],
        resource_kind: packed[o + 2],
        pp_group_row: packed[o + 3],
        pp_group_col: packed[o + 4],
        ancilla_idx: packed[o + 5],
        last_move_dir: packed[o + 6],
        weight_in_pp: packed[o + 7],
        is_hub_for_pp: packed[o + 8],
        is_y_ready: packed[o + 9],
    }
}

/// A mask as bytes, cut to the size of the action space.
pub open spec fn mask_bytes(mask: Seq<bool>) -> Seq<u8> {
    Seq::new(
        NUM_ACTIONS as nat,
        |a: int|
            if a < mask.len() && mask[a] {
                1u8
            } else {
                0u8
            },
    )
}

/// An observation, packed: numbers cut to a byte.
pub open spec fn pack_obs(o: TilersObsView) -> TilersEntry {
    TilersEntry {
        h: o.height as u8,
        w: o.width as u8,
        num_ancillas: o.num_ancillas as u8,
        num_layers: o.board.len() as u8,
        board: packed_board(o.board, o.board.len() as int),
        action_mask: mask_bytes(o.action_mask),
    }
}

/// A packed observation, unpacked: as many layers as it has, each with the cells of its grid.
pub open spec fn unpack_obs(e: TilersEntry) -> TilersObsView {
    let nl = at_most(e.num_layers as nat, LOOKAHEAD_MAX as nat);
    let hw = at_most((e.h * e.w) as nat, GRID_MAX as nat);
    TilersObsView {
        height: e.h as usize,
        width: e.w as usize,
        num_ancillas: e.num_ancillas as usize,
        num_layers: nl as usize,
        board: Seq::new(
            nl,
            |l: int|
                Seq::new(hw, |c: int| cell_at(e.board, l * BOARD_LAYER_MAX + c * CELL_FIELDS)),
        ),
        action_mask: Seq::new(NUM_ACTIONS as nat, |a: int| e.action_mask[a] != 0),
    }
}

/// Packs the first `nl` layers of a board.
fn pack_board(board: &Vec<Vec<BoardCell>>, nl: usize) -> (r: Vec<i16>)
    requires
        nl <= board@.len(),
    ensures
        r@ == packed_board(Seq::new(board@.len(), |l: int| board@[l]@), nl as int),
{
    let ghost bv = Seq::new(board@.len(), |l: int| board@[l]@);
    let mut out: Vec<i16> = Vec::with_capacity(BOARD_MAX);
    let mut k: usize = 0;
    while k < BOARD_MAX
        invariant
            k <= BOARD_MAX,
            nl <= board@.len(),
            bv == Seq::new(board@.len(), |l: int| board@[l]@),
            out@.len() == k,
            forall|i: int| 0 <= i < k ==> #[trigger] out@[i] == packed_board(bv, nl as int)[i],
        decreases BOARD_MAX - k,
    {
        let l: usize = k / BOARD_LAYER_MAX;
        let c: usize = (k % BOARD_LAYER_MAX) / CELL_FIELDS;
        let v: i16 = if l < nl && c < board[l].len() {
            board[l][c].channel(k % CELL_FIELDS)
        } else {
            0
        };
        out.push(v);
        k += 1;
    }
    assert(out@ =~= packed_board(bv, nl as int));
    out
}

/// Reads the cell whose channels start at `o`.
fn read_cell(packed: &Vec<i16>, o: usize) -> (r: BoardCell)
    requires
        o + CELL_FIELDS <= packed@.len(),
    ensures
        r == cell_at(packed@, o as int),
{
    assert(packed.len() == packed@.len());
    BoardCell {
        qubit_role: packed[o],
        factor_kind: packed[o + 1],
        resource_kind: packed[o + 2],
        pp_group_row: packed[o + 3],
        pp_group_col: packed[o + 4],
        ancilla_idx: packed[o + 5],
        last_move_dir: packed[o + 6],
        weight_in_pp: packed[o + 7],
        is_hub_for_pp: packed[o + 8],
        is_y_ready: packed[o + 9],
    }
}

impl<R: Scalar> TilersSlot<R> {
    /// The arrays have the sizes of a full batch.
    pub open spec fn wf(&self) -> bool {
        &&& self.b <= MAX_BATCH
        &&& self.h@.len() == MAX_BATCH
        &&& self.w@.len() == MAX_BATCH
        &&& self.num_ancillas@.len() == MAX_BATCH
        &&& self.num_layers@.len() == MAX_BATCH
        &&& self.board@.len() == MAX_BATCH
        &&& forall|i: int| 0 <= i < MAX_BATCH ==> (#[trigger] self.board@[i])@.len() == BOARD_MAX
        &&& self.action_mask@.len() == MAX_BATCH * NUM_ACTIONS
        &&& self.priors@.len() == MAX_BATCH * NUM_ACTIONS
        &&& self.values@.len() == MAX_BATCH
    }

    /// The entry `i` of the batch.
    pub open spec fn entry(&self, i: int) -> TilersEntry {
        TilersEntry {
            h: self.h@[i],
            w: self.w@[i],
            num_ancillas: self.num_ancillas@[i],
            num_layers: self.num_layers@[i],
            board: self.board@[i]@,
            action_mask: row(self.action_mask@, i, NUM_ACTIONS as int),
        }
    }

    /// Packs a batch of observations into the first entries; the others stay as they are. A
    /// batch that is empty or too large is refused, and so is a board with too many layers; the
    /// slot then stays as it is.
    pub fn pack_observations(&mut self, observations: &[TilersObs]) -> (r: Result<(), BatchError>)
        requires
            old(self).wf(),
        ensures
            r == (match batch_error(observations@) {
                Some(e) => Err(e),
                None => Ok(()),
            }),
            r is Ok <==> 0 < observations@.len() <= MAX_BATCH && forall|i: int|
                0 <= i < observations@.len() ==> (#[trigger] observations@[i]).board@.len()
                    <= LOOKAHEAD_MAX,
            r is Err ==> *final(self) == *old(self),
            r is Ok ==> {
                &&& final(self).wf()
                &&& final(self).head() == (SlotHead {
                    b: observations@.len() as u32,
                    ..old(self).head()
                })
                &&& final(self).same_outputs(old(self))
                &&& forall|i: int|
                    0 <= i < MAX_BATCH ==> #[trigger] final(self).entry(i) == (if i
                        < observations@.len() {
                        pack_obs(observations@[i]@)
                    } else {
                        old(self).entry(i)
                    })
            },
    {
        if let Err(e) = check_batch(observations) {
            return Err(e);
        }
        let b: usize = observations.len();
        let ghost before = *self;
        self.b = b as u32;
        assert forall|k: int| 0 <= k < MAX_BATCH implies #[trigger] self.entry(k) == before.entry(
            k,
        ) by {
            assert(self.entry(k) =~= before.entry(k));
        }
        let mut i: usize = 0;
        while i < b
            invariant
                i <= b,
                b == observations@.len(),
                b <= MAX_BATCH,
                forall|k: int|
                    0 <= k < b ==> (#[trigger] observations@[k]).board@.len() <= LOOKAHEAD_MAX,
                self.wf(),
                self.head() == (SlotHead { b: b as u32, ..before.head() }),
                self.same_outputs(&before),
                forall|k: int|
                    0 <= k < MAX_BATCH ==> #[trigger] self.entry(k) == (if k < i {
                        pack_obs(observations@[k]@)
                    } else {
                        before.entry(k)
                    }),
            decreases b - i,
        {
            assert(observations@[i as int].board@.len() <= LOOKAHEAD_MAX);
            self.pack_one(i, &observations[i]);
            i += 1;
        }
        Ok(())
    }

    /// Packs one observation into the entry `i`.
    fn pack_one(&mut self, i: usize, obs: &TilersObs)
        requires
            old(self).wf(),
            i < MAX_BATCH,
            obs.board@.len() <= LOOKAHEAD_MAX,
        ensures
            final(self).wf(),
            final(self).head() == old(self).head(),
            final(self).same_outputs(old(self)),
            forall|k: int|
                0 <= k < MAX_BATCH ==> #[trigger] final(self).entry(k) == (if k == i {
                    pack_obs(obs@)
                } else {
                    old(self).entry(k)
                }),
    {
        let ghost before = *self;
        self.h[i] = obs.height as u8;
        self.w[i] = obs.width as u8;
        self.num_ancillas[i] = obs.num_ancillas as u8;
        let nl: usize = obs.board.len();
        self.num_layers[i] = nl as u8;
        self.board[i] = pack_board(&obs.board, nl);
        let start: usize = i * NUM_ACTIONS;
        let ghost mask0 = self.action_mask@;
        let mut a: usize = 0;
        while a < NUM_ACTIONS
            invariant
                a <= NUM_ACTIONS,
                start + NUM_ACTIONS <= self.action_mask@.len(),
                start == i * NUM_ACTIONS,
                i < MAX_BATCH,
                self.action_mask@.len() == mask0.len(),
                self.state == before.state && self.b == before.b && self.owner_id
                    == before.owner_id && self.req_id == before.req_id,
                self.h@ == before.h@.update(i as int, obs.height as u8),
                self.w@ == before.w@.update(i as int, obs.width as u8),
                self.num_ancillas@ == before.num_ancillas@.update(
                    i as int,
                    obs.num_ancillas as u8,
                ),
                self.num_layers@ == before.num_layers@.update(i as int, nl as u8),
                self.board@.len() == MAX_BATCH,
                self.board@[i as int]@ == packed_board(obs@.board, nl as int),
                forall|k: int|
                    0 <= k < MAX_BATCH && k != i ==> #[trigger] self.board@[k] == before.board@[k],
                self.priors == before.priors,
                self.values == before.values,
                forall|k: int|
                    0 <= k < a ==> #[trigger] self.action_mask@[start + k] == mask_bytes(
                        obs@.action_mask,
                    )[k],
                forall|k: int|
                    0 <= k < mask0.len() && !(start <= k < start + a)
                        ==> #[trigger] self.action_mask@[k] == mask0[k],
            decreases NUM_ACTIONS - a,
        {
            let m: u8 = if a < obs.action_mask.len() && obs.action_mask[a] {
                1
            } else {
                0
            };
            self.action_mask[start + a] = m;
            a += 1;
        }
        proof {
            assert forall|k: int| 0 <= k < MAX_BATCH implies #[trigger] self.entry(k) == (if k
                == i {
                pack_obs(obs@)
            } else {
                before.entry(k)
            }) by {
                if k == i {
                    let e = self.entry(k);
                    assert(e.action_mask =~= mask_bytes(obs@.action_mask)) by {
                        assert forall|j: int| 0 <= j < NUM_ACTIONS implies #[trigger] e.action_mask[j]
                            == mask_bytes(obs@.action_mask)[j] by {
                            assert(self.action_mask@[start + j] == mask_bytes(
                                obs@.action_mask,
                            )[j]);
                        }
                    }
                    assert(e =~= pack_obs(obs@));
                } else {
                    lemma_row_frame(mask0, self.action_mask@, i as int, k, NUM_ACTIONS as int);
                    assert(self.entry(k) =~= before.entry(k));
                }
            }
            assert forall|k: int| 0 <= k < MAX_BATCH implies (#[trigger] self.board@[k])@.len()
                == BOARD_MAX by {
                if k != i {
                    assert(before.board@[k]@.len() == BOARD_MAX);
                }
            }
        }
    }

    /// The observations of the batch.
    pub fn unpack_observations(&self) -> (r: Vec<TilersObs>)
        requires
            self.wf(),
        ensures
            r@.len() == self.b,
            forall|i: int| 0 <= i < r@.len() ==> (#[trigger] r@[i])@ == unpack_obs(self.entry(i)),
    {
        let b: usize = self.b as usize;
        let mut out: Vec<TilersObs> = Vec::with_capacity(b);
        let mut i: usize = 0;
        while i < b
            invariant
                i <= b,
                b == self.b,
                self.wf(),
                out@.len() == i,
                forall|k: int| 0 <= k < i ==> (#[trigger] out@[k])@ == unpack_obs(self.entry(k)),
            decreases b - i,
        {
            let o: TilersObs = self.unpack_one(i);
            out.push(o);
            i += 1;
        }
        out
    }

    /// The observation of the entry `i`.
    fn unpack_one(&self, i: usize) -> (r: TilersObs)
        requires
            self.wf(),
            i < MAX_BATCH,
        ensures
            r@ == unpack_obs(self.entry(i as int)),
    {
        let ghost e = self.entry(i as int);
        let height: usize = self.h[i] as usize;
        let width: usize = self.w[i] as usize;
        assert(height * width <= 255 * 255) by (nonlinear_arith)
            requires
                height <= 255,
                width <= 255,
        ;
        let area: usize = height * width;
        let hw: usize = if area <= GRID_MAX {
            area
        } else {
            GRID_MAX
        };
        let raw_nl: usize = self.num_layers[i] as usize;
        let nl: usize = if raw_nl <= LOOKAHEAD_MAX {
            raw_nl
        } else {
            LOOKAHEAD_MAX
        };
        let packed: &Vec<i16> = &self.board[i];
        let mut board: Vec<Vec<BoardCell>> = Vec::with_capacity(nl);
        let mut l: usize = 0;
        while l < nl
            invariant
                l <= nl,
                nl <= LOOKAHEAD_MAX,
                hw <= GRID_MAX,
                packed@.len() == BOARD_MAX,
                board@.len() == l,
                forall|k: int|
                    0 <= k < l ==> (#[trigger] board@[k])@ == Seq::new(
                        hw as nat,
                        |c: int| cell_at(packed@, k * BOARD_LAYER_MAX + c * CELL_FIELDS),
                    ),
            decreases nl - l,
        {
            let mut layer: Vec<BoardCell> = Vec::with_capacity(hw);
            let ghost goal = Seq::new(
                hw as nat,
                |c: int| cell_at(packed@, l * BOARD_LAYER_MAX + c * CELL_FIELDS),
            );
            let mut c: usize = 0;
            while c < hw
                invariant
                    c <= hw,
                    l < nl,
                    nl <= LOOKAHEAD_MAX,
                    hw <= GRID_MAX,
                    packed@.len() == BOARD_MAX,
                    goal == Seq::new(
                        hw as nat,
                        |c: int| cell_at(packed@, l * BOARD_LAYER_MAX + c * CELL_FIELDS),
                    ),
                    layer@ == goal.take(c as int),
                decreases hw - c,
            {
                layer.push(read_cell(packed, l * BOARD_LAYER_MAX + c * CELL_FIELDS));
                c += 1;
                assert(layer@ =~= goal.take(c as int));
            }
            assert(layer@ =~= goal);
            board.push(layer);
            l += 1;
        }
        let start: usize = i * NUM_ACTIONS;
        let mut action_mask: Vec<bool> = Vec::with_capacity(NUM_ACTIONS);
        let mut a: usize = 0;
        while a < NUM_ACTIONS
            invariant
                a <= NUM_ACTIONS,
                start == i * NUM_ACTIONS,
                i < MAX_BATCH,
                self.action_mask@.len() == MAX_BATCH * NUM_ACTIONS,
                action_mask@.len() == a,
                forall|k: int|
                    0 <= k < a ==> #[trigger] action_mask@[k] == (self.action_mask@[start + k]
                        != 0),
            decreases NUM_ACTIONS - a,
        {
            action_mask.push(self.action_mask[start + a] != 0);
            a += 1;
        }
        let r: TilersObs = TilersObs {
            height,
            width,
            num_ancillas: self.num_ancillas[i] as usize,
            num_layers: nl,
            board,
            action_mask,
        };
        assert(r@.board =~= unpack_obs(e).board) by {
            assert forall|k: int| 0 <= k < nl implies #[trigger] r@.board[k] == unpack_obs(
                e,
            ).board[k] by {
                assert(board@[k]@ =~= unpack_obs(e).board[k]);
            }
        }
        assert(r@.action_mask =~= unpack_obs(e).action_mask);
        assert(r@ =~= unpack_obs(e));
        r
    }
}

impl<R: Scalar> Default for TilersSlot<R> {
    /// A free slot that holds zeros.
    fn default() -> (r: Self)
        ensures
            r.wf(),
            r.head() == (SlotHead { state: SLOT_FREE, b: 0, owner_id: 0, req_id: 0 }),
            r.outputs_cleared(),
    {
        let zero: R = R::decimal(0, 0);
        let mut board: Vec<Vec<i16>> = Vec::with_capacity(MAX_BATCH);
        let mut i: usize = 0;
        while i < MAX_BATCH
            invariant
                i <= MAX_BATCH,
                board@.len() == i,
                forall|k: int| 0 <= k < i ==> (#[trigger] board@[k])@.len() == BOARD_MAX,
            decreases MAX_BATCH - i,
        {
            board.push(repeated(0i16, BOARD_MAX));
            i += 1;
        }
        TilersSlot {
            state: SLOT_FREE,
            b: 0,
            owner_id: 0,
            req_id: 0,
            h: repeated(0u8, MAX_BATCH),
            w: repeated(0u8, MAX_BATCH),
            num_ancillas: repeated(0u8, MAX_BATCH),
            num_layers: repeated(0u8, MAX_BATCH),
            board,
            action_mask: repeated(0u8, MAX_BATCH * NUM_ACTIONS),
            priors: filled(&zero, MAX_BATCH * NUM_ACTIONS),
            values: filled(&zero, MAX_BATCH),
        }
    }
}

impl<R: Scalar> SlotInit for TilersSlot<R> {
    open spec fn head(&self) -> SlotHead {
        SlotHead { state: self.state, b: self.b, owner_id: self.owner_id, req_id: self.req_id }
    }

    open spec fn same_inputs(&self, other: &Self) -> bool {
        &&& self.h@ == other.h@
        &&& self.w@ == other.w@
        &&& self.num_ancillas@ == other.num_ancillas@
        &&& self.num_layers@ == other.num_layers@
        &&& self.board == other.board
        &&& self.action_mask@ == other.action_mask@
    }

    open spec fn same_outputs(&self, other: &Self) -> bool {
        self.priors@ == other.priors@ && self.values@ == other.values@
    }

    open spec fn outputs_cleared(&self) -> bool {
        &&& forall|i: int| 0 <= i < self.priors@.len() ==> #[trigger] self.priors@[i] == zero::<R>()
        &&& forall|i: int| 0 <= i < self.values@.len() ==> #[trigger] self.values@[i] == zero::<R>()
    }

    fn state(&self) -> (r: u32) {
        self.state
    }

    fn set_state(&mut self, state: u32) {
        self.state = state;
    }

    fn set_request(&mut self, b: u32, owner_id: u32, req_id: u64) {
        self.b = b;
        self.owner_id = owner_id;
        self.req_id = req_id;
    }

    fn clear_outputs(&mut self) {
        let zero: R = R::decimal(0, 0);
        self.priors = filled(&zero, self.priors.len());
        self.values = filled(&zero, self.values.len());
    }
}

/// Whether an observation fits a slot: its numbers fit a byte, its grid and its layers are
/// within the limits, every layer has a cell for each place of the grid, and the mask has the
/// size of the action space.
pub open spec fn fits(o: TilersObsView) -> bool {
    &&& o.height < 256 && o.width < 256 && o.num_ancillas < 256
    &&& o.height * o.width <= GRID_MAX
    &&& o.num_layers == o.board.len()
    &&& o.board.len() <= LOOKAHEAD_MAX
    &&& forall|l: int|
        0 <= l < o.board.len() ==> (#[trigger] o.board[l]).len() == o.height * o.width
    &&& o.action_mask.len() == NUM_ACTIONS
}

/// Law: unpacking what was packed gives the observation back, exactly, if it fits.
pub proof fn law_slot_roundtrip(o: TilersObsView)
    requires
        fits(o),
    ensures
        unpack_obs(pack_obs(o)) == o,
{
    let e = pack_obs(o);
    let u = unpack_obs(e);
    assert(e.h * e.w == o.height * o.width);
    assert forall|l: int| 0 <= l < o.board.len() implies #[trigger] u.board[l] == o.board[l] by {
        assert forall|c: int| 0 <= c < o.board[l].len() implies #[trigger] u.board[l][c]
            == o.board[l][c] by {
            let base = l * BOARD_LAYER_MAX + c * CELL_FIELDS;
            assert forall|f: int| 0 <= f < CELL_FIELDS implies #[trigger] e.board[base + f]
                == spec_channel(o.board[l][c], f) by {
                let k = base + f;
                assert(k / BOARD_LAYER_MAX as int == l);
                assert((k % BOARD_LAYER_MAX as int) / CELL_FIELDS as int == c);
                assert(k % CELL_FIELDS as int == f);
            }
            assert(e.board[base + 0] == spec_channel(o.board[l][c], 0));
        }
        assert(u.board[l] =~= o.board[l]);
    }
    assert(u.board =~= o.board);
    assert(u.action_mask =~= o.action_mask);
    assert(u =~= o);
}

/// Results that do not have the size of the batch.
#[derive(Clone, Copy, Debug, PartialEq, Eq, Structural)]
pub enum WriteError {
    Priors { expected: usize, found: usize },
    Values { expected: usize, found: usize },
}

impl<R: Scalar> TilersSlot<R> {
    /// What [`TilersSlot::batch_len`] gives.
    pub open spec fn spec_batch_len(&self) -> usize {
        if self.b <= MAX_BATCH {
            self.b as usize
        } else {
            MAX_BATCH
        }
    }

    /// The number of observations, at most those that a slot has room for.
    pub fn batch_len(&self) -> (r: usize)
        ensures
            r == self.spec_batch_len(),
            r <= MAX_BATCH,
    {
        if self.b as usize <= MAX_BATCH {
            self.b as usize
        } else {
            MAX_BATCH
        }
    }

    /// Writes the priors, a row per observation, and the values of the batch.
    pub fn write_priors_values(&mut self, priors: &[R], values: &[R]) -> (r: Result<(), WriteError>)
        requires
            old(self).wf(),
        ensures
            final(self).wf(),
            ({
                let b = old(self).spec_batch_len();
                if priors@.len() != b * NUM_ACTIONS {
                    &&& r == Err::<(), WriteError>(
                        WriteError::Priors {
                            expected: (b * NUM_ACTIONS) as usize,
                            found: priors@.len() as usize,
                        },
                    )
                    &&& *final(self) == *old(self)
                } else if values@.len() != b {
                    &&& r == Err::<(), WriteError>(
                        WriteError::Values { expected: b, found: values@.len() as usize },
                    )
                    &&& *final(self) == *old(self)
                } else {
                    &&& r is Ok
                    &&& final(self).priors@ == priors@ + old(self).priors@.skip(
                        priors@.len() as int,
                    )
                    &&& final(self).values@ == values@ + old(self).values@.skip(
                        values@.len() as int,
                    )
                    &&& *final(self) == (TilersSlot {
                        priors: final(self).priors,
                        values: final(self).values,
                        ..*old(self)
                    })
                }
            }),
    {
        let b: usize = self.batch_len();
        if priors.len() != b * NUM_ACTIONS {
            return Err(WriteError::Priors { expected: b * NUM_ACTIONS, found: priors.len() });
        }
        if values.len() != b {
            return Err(WriteError::Values { expected: b, found: values.len() });
        }
        write_front(&mut self.priors, priors);
        write_front(&mut self.values, values);
        Ok(())
    }
}

/// Overwrites the front of a row.
fn write_front<R: Scalar>(out: &mut Vec<R>, v: &[R])
    requires
        v@.len() <= old(out)@.len(),
    ensures
        final(out)@ == v@ + old(out)@.skip(v@.len() as int),
{
    let mut i: usize = 0;
    while i < v.len()
        invariant
            i <= v@.len(),
            v@.len() <= old(out)@.len(),
            out@ == v@.take(i as int) + old(out)@.skip(i as int),
        decreases v.len() - i,
    {
        out.set(i, v[i].dup());
        i += 1;
        assert(out@ =~= v@.take(i as int) + old(out)@.skip(i as int));
    }
    assert(v@.take(i as int) =~= v@);
}

} // verus!
