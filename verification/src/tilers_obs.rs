//! Board observations of the tiling environment.

use crate::environment::Obs;
use vstd::prelude::*;

verus! {

/// Maximum number of ancillas that can be handled.
pub const MAX_ANCILLAS: usize = 50;

/// One auto-execute action and 6 actions per ancilla: cultivate, wire and 4 moves.
pub const NUM_ACTIONS: usize = 301;

/// The largest grid has 20 by 20 cells.
pub const GRID_MAX: usize = 400;

/// Maximum number of layers that can be looked ahead for.
pub const LOOKAHEAD_MAX: usize = 3;

/// Default number of layers to look ahead for.
pub const DEFAULT_LOOKAHEAD: usize = 2;

/// Maximum batch size for inference requests.
pub const MAX_BATCH: usize = 8;

/// Channels per cell.
pub const CELL_FIELDS: usize = 10;

/// Values of one board layer: `GRID_MAX * CELL_FIELDS`.
pub const BOARD_LAYER_MAX: usize = 4000;

/// Values of the full board of an observation: `LOOKAHEAD_MAX * BOARD_LAYER_MAX`.
pub const BOARD_MAX: usize = 12000;

/// Actions are dense numbers.
pub type Action = u16;

/// Law: the sizes of the packed board and of the action space are what the other sizes make
/// them.
pub proof fn law_sizes()
    ensures
        NUM_ACTIONS == 1 + 6 * MAX_ANCILLAS,
        BOARD_LAYER_MAX == GRID_MAX * CELL_FIELDS,
        BOARD_MAX == LOOKAHEAD_MAX * BOARD_LAYER_MAX,
{
}

/// One cell of the board.
#[derive(Clone, Copy, Debug, PartialEq, Eq, Hash, Structural)]
pub struct BoardCell {
    pub qubit_role: i16,
    pub factor_kind: i16,
    pub resource_kind: i16,
    pub pp_group_row: i16,
    pub pp_group_col: i16,
    pub ancilla_idx: i16,
    pub last_move_dir: i16,
    pub weight_in_pp: i16,
    pub is_hub_for_pp: i16,
    pub is_y_ready: i16,
}

/// The channel `f` of a cell.
pub open spec fn spec_channel(c: BoardCell, f: int) -> i16 {
    if f == 0 {
        c.qubit_role
    } else if f == 1 {
        c.factor_kind
    } else if f == 2 {
        c.resource_kind
    } else if f == 3 {
        c.pp_group_row
    } else if f == 4 {
        c.pp_group_col
    } else if f == 5 {
        c.ancilla_idx
    } else if f == 6 {
        c.last_move_dir
    } else if f == 7 {
        c.weight_in_pp
    } else if f == 8 {
        c.is_hub_for_pp
    } else {
        c.is_y_ready
    }
}

impl BoardCell {
    /// The channel `f` of the cell.
    pub fn channel(&self, f: usize) -> (r: i16)
        requires
            f < CELL_FIELDS,
        ensures
            r == spec_channel(*self, f as int),
    {
        match f {
            0 => self.qubit_role,
            1 => self.factor_kind,
            2 => self.resource_kind,
            3 => self.pp_group_row,
            4 => self.pp_group_col,
            5 => self.ancilla_idx,
            6 => self.last_move_dir,
            7 => self.weight_in_pp,
            8 => self.is_hub_for_pp,
            _ => self.is_y_ready,
        }
    }

    /// The channels of the cell, in order.
    pub fn channels(&self) -> (r: Vec<i16>)
        ensures
            r@ == Seq::new(CELL_FIELDS as nat, |f: int| spec_channel(*self, f)),
    {
        let mut out: Vec<i16> = Vec::with_capacity(CELL_FIELDS);
        let mut f: usize = 0;
        while f < CELL_FIELDS
            invariant
                f <= CELL_FIELDS,
                out@ == Seq::new(f as nat, |g: int| spec_channel(*self, g)),
            decreases CELL_FIELDS - f,
        {
            out.push(self.channel(f));
            f += 1;
            assert(out@ =~= Seq::new(f as nat, |g: int| spec_channel(*self, g)));
        }
        out
    }
}

/// A state of the tiling environment: its layers of cells, in row-major order, and which
/// actions are valid.
#[derive(Debug, PartialEq, Eq, Hash)]
pub struct TilersObs {
    pub height: usize,
    pub width: usize,
    pub num_ancillas: usize,
    pub num_layers: usize,
    pub board: Vec<Vec<BoardCell>>,
    pub action_mask: Vec<bool>,
}

/// What an observation holds.
#[verifier::ext_equal]
pub struct TilersObsView {
    pub height: usize,
    pub width: usize,
    pub num_ancillas: usize,
    pub num_layers: usize,
    pub board: Seq<Seq<BoardCell>>,
    pub action_mask: Seq<bool>,
}

impl View for TilersObs {
    type V = TilersObsView;

    open spec fn view(&self) -> TilersObsView {
        TilersObsView {
            height: self.height,
            width: self.width,
            num_ancillas: self.num_ancillas,
            num_layers: self.num_layers,
            board: Seq::new(self.board@.len(), |l: int| self.board@[l]@),
            action_mask: self.action_mask@,
        }
    }
}

/// A copy of a board.
pub fn copy_board(board: &Vec<Vec<BoardCell>>) -> (r: Vec<Vec<BoardCell>>)
    ensures
        r@.len() == board@.len(),
        forall|l: int| 0 <= l < r@.len() ==> (#[trigger] r@[l])@ == board@[l]@,
{
    let mut out: Vec<Vec<BoardCell>> = Vec::with_capacity(board.len());
    let mut l: usize = 0;
    while l < board.len()
        invariant
            l <= board@.len(),
            out@.len() == l,
            forall|k: int| 0 <= k < l ==> (#[trigger] out@[k])@ == board@[k]@,
        decreases board.len() - l,
    {
        let layer: &Vec<BoardCell> = &board[l];
        let mut row: Vec<BoardCell> = Vec::with_capacity(layer.len());
        let mut c: usize = 0;
        while c < layer.len()
            invariant
                c <= layer@.len(),
                row@ == layer@.take(c as int),
            decreases layer.len() - c,
        {
            row.push(layer[c]);
            c += 1;
            assert(row@ =~= layer@.take(c as int));
        }
        assert(row@ =~= layer@);
        out.push(row);
        l += 1;
    }
    out
}

impl Clone for TilersObs {
    /// An observation that holds the same.
    fn clone(&self) -> (r: Self)
        ensures
            r@ == self@,
    {
        let board: Vec<Vec<BoardCell>> = copy_board(&self.board);
        let action_mask: Vec<bool> = self.action_mask.clone();
        assert(action_mask@ =~= self.action_mask@);
        let r: TilersObs = TilersObs {
            height: self.height,
            width: self.width,
            num_ancillas: self.num_ancillas,
            num_layers: self.num_layers,
            board,
            action_mask,
        };
        assert(r@.board =~= self@.board);
        r
    }
}

impl Obs for TilersObs {

}

/// The number of layers to look ahead: one less than those with objectives.
pub open spec fn spec_lookahead(num_objective_layers: usize) -> usize {
    if num_objective_layers == 0 {
        0
    } else {
        (num_objective_layers - 1) as usize
    }
}

/// The number of layers to look ahead: one less than those with objectives.
pub fn lookahead(num_objective_layers: usize) -> (r: usize)
    ensures
        r == spec_lookahead(num_objective_layers),
{
    num_objective_layers.saturating_sub(1)
}

/// A mask brought to the size of the action space: cut off, or filled up with `false`.
pub open spec fn full_mask(mask: Seq<bool>) -> Seq<bool> {
    Seq::new(NUM_ACTIONS as nat, |a: int| a < mask.len() && mask[a])
}

/// The observation of a state: its size and ancillas, the layers of its board, and its mask
/// brought to the size of the action space.
pub fn build_obs(
    height: usize,
    width: usize,
    num_ancillas: usize,
    board: Vec<Vec<BoardCell>>,
    mask: &Vec<bool>,
) -> (r: TilersObs)
    ensures
        r.height == height,
        r.width == width,
        r.num_ancillas == num_ancillas,
        r.num_layers == board@.len(),
        r.board == board,
        r.action_mask@ == full_mask(mask@),
{
    let mut action_mask: Vec<bool> = Vec::with_capacity(NUM_ACTIONS);
    let mut a: usize = 0;
    while a < NUM_ACTIONS
        invariant
            a <= NUM_ACTIONS,
            action_mask@ == full_mask(mask@).take(a as int),
        decreases NUM_ACTIONS - a,
    {
        action_mask.push(a < mask.len() && mask[a]);
        a += 1;
        assert(action_mask@ =~= full_mask(mask@).take(a as int));
    }
    assert(action_mask@ =~= full_mask(mask@));
    TilersObs { height, width, num_ancillas, num_layers: board.len(), board, action_mask }
}

} // verus!
