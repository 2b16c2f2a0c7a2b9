//! The board tensor that the model reads: for every state, layer and qubit four tokens, made
//! from the placement of the qubits and the objectives of the layer.

use crate::fxtable::{fx_get, fx_insert};
use crate::matrix::Matrix;
use rustc_hash::FxHashMap;
use vstd::prelude::*;

verus! {

pub const RAW_CX_OPCODE: i32 = 12;

pub const RAW_CZ_OPCODE: i32 = 13;

pub const TOKEN_CZ_CONTROL: i32 = 8;

pub const TOKEN_CZ_TARGET: i32 = 9;

pub const TOKEN_CX_CONTROL: i32 = 10;

pub const TOKEN_CX_TARGET: i32 = 11;

/// The mate coordinates of a qubit without a mate.
pub const NO_MATE: i32 = -1;

/// The tokens of one qubit in one layer. All are 0 where there is no qubit.
#[derive(Clone, Copy, Debug, PartialEq, Eq, Structural)]
pub struct BoardToken {
    pub op: i32,
    pub ori: i32,
    pub mate_row: i32,
    pub mate_col: i32,
}

/// The objectives of one layer, one row per state: raw opcode and two qubit ids each.
pub struct ObjectiveLayer {
    pub opcodes: Matrix<i32>,
    pub arg0s: Matrix<i32>,
    pub arg1s: Matrix<i32>,
}

/// The token of a gate on one qubit: Paulis and RZ are 2, then H, S, SX, T and TX with their
/// adjoints; measure is 12 and reset 13. What is not in the table is 1.
pub open spec fn spec_opcode_token(opcode: i32) -> i32 {
    if 0 <= opcode <= 2 || opcode == 14 {
        2
    } else if opcode == 3 {
        3
    } else if opcode == 4 || opcode == 5 {
        4
    } else if opcode == 6 || opcode == 7 {
        5
    } else if opcode == 8 || opcode == 9 {
        6
    } else if opcode == 10 || opcode == 11 {
        7
    } else if opcode == 18 {
        12
    } else if opcode == 19 {
        13
    } else {
        1
    }
}

/// The token of a gate on one qubit.
pub fn opcode_token(opcode: i32) -> (r: i32)
    ensures
        r == spec_opcode_token(opcode),
{
    match opcode {
        0 | 1 | 2 | 14 => 2,
        3 => 3,
        4 | 5 => 4,
        6 | 7 => 5,
        8 | 9 => 6,
        10 | 11 => 7,
        18 => 12,
        19 => 13,
        _ => 1,
    }
}

/// The token of an orientation: vertical 2, horizontal 3, ancilla 6, cultivating 4,
/// resource 5; anything else is 1.
pub open spec fn spec_ori_token(raw: u8) -> i32 {
    if raw == 0 {
        2
    } else if raw == 1 {
        3
    } else if raw == 2 {
        6
    } else if raw == 3 {
        4
    } else if raw == 4 {
        5
    } else {
        1
    }
}

/// The token of an orientation.
pub fn ori_token(raw: u8) -> (r: i32)
    ensures
        r == spec_ori_token(raw),
{
    match raw {
        0 => 2,
        1 => 3,
        2 => 6,
        3 => 4,
        4 => 5,
        _ => 1,
    }
}

/// Where the first `n` qubits of a row stand on a board of width `w`: row and column. Of two
/// with one id the later counts.
pub open spec fn positions(ids: Seq<i32>, w: int, n: nat) -> Map<i32, (i32, i32)>
    decreases n,
{
    if n == 0 {
        Map::empty()
    } else {
        positions(ids, w, (n - 1) as nat).insert(
            ids[n - 1],
            (((n - 1) / w) as i32, ((n - 1) % w) as i32),
        )
    }
}

/// What the objectives of a layer say of a qubit: its token, and where its mate stands.
pub type Marks = Map<i32, (i32, i32, i32)>;

/// One objective entered: a two-qubit gate marks both qubits with each other's position, if
/// both are on the board; any other gate marks its first qubit.
pub open spec fn mark(
    marks: Marks,
    pos: Map<i32, (i32, i32)>,
    opcode: i32,
    arg0: i32,
    arg1: i32,
) -> Marks {
    if opcode == RAW_CZ_OPCODE || opcode == RAW_CX_OPCODE {
        if pos.contains_key(arg0) && pos.contains_key(arg1) {
            let (c, t) = if opcode == RAW_CZ_OPCODE {
                (TOKEN_CZ_CONTROL, TOKEN_CZ_TARGET)
            } else {
                (TOKEN_CX_CONTROL, TOKEN_CX_TARGET)
            };
            marks.insert(arg0, (c, pos[arg1].0, pos[arg1].1)).insert(
                arg1,
                (t, pos[arg0].0, pos[arg0].1),
            )
        } else {
            marks
        }
    } else {
        marks.insert(arg0, (spec_opcode_token(opcode), NO_MATE, NO_MATE))
    }
}

/// The first `n` objectives of a state in a layer, entered in order; a later one replaces an
/// earlier one on the same qubit.
pub open spec fn layer_marks(
    layer: ObjectiveLayer,
    pos: Map<i32, (i32, i32)>,
    i: int,
    n: nat,
) -> Marks
    decreases n,
{
    if n == 0 {
        Map::empty()
    } else {
        mark(
            layer_marks(layer, pos, i, (n - 1) as nat),
            pos,
            layer.opcodes.at(i, n - 1),
            layer.arg0s.at(i, n - 1),
            layer.arg1s.at(i, n - 1),
        )
    }
}

/// The tokens of one qubit: its mark, if it has one; else, for an ancilla, its number and
/// orientation, which is 7 in place of 6 where it last moved vertically; else all default.
pub open spec fn spec_token(marks: Marks, id: i32, ori: i32, moved_vertically: bool) -> BoardToken {
    if marks.contains_key(id) {
        BoardToken {
            op: marks[id].0,
            ori,
            mate_row: marks[id].1,
            mate_col: marks[id].2,
        }
    } else if id < 0 {
        BoardToken {
            op: (13 - id) as i32,
            ori: if ori == 6 && moved_vertically {
                7
            } else {
                ori
            },
            mate_row: NO_MATE,
            mate_col: NO_MATE,
        }
    } else {
        BoardToken { op: 1, ori: 1, mate_row: NO_MATE, mate_col: NO_MATE }
    }
}

/// No qubit.
pub open spec fn empty_token() -> BoardToken {
    BoardToken { op: 0, ori: 0, mate_row: 0, mate_col: 0 }
}

/// The inputs of [`build_boards_rs`]: for each state the ids and orientations of its qubits,
/// how many they are, the width of the board, the objectives by layer and how many they are,
/// and which ancillas last moved vertically.
pub struct BoardInput {
    pub qubit_ids: Matrix<i32>,
    pub qubit_oris: Matrix<u8>,
    pub num_qubits: Vec<u16>,
    pub widths: Vec<u8>,
    pub obj_layers: Vec<ObjectiveLayer>,
    pub num_layers: Vec<u8>,
    pub num_objectives: Matrix<u16>,
    pub last_dir_vertical: Matrix<u8>,
}

impl BoardInput {
    /// The number of layers of the state `i` that are written.
    pub open spec fn layers_of(&self, i: int) -> nat {
        if self.num_layers@[i] as nat <= self.obj_layers@.len() {
            self.num_layers@[i] as nat
        } else {
            self.obj_layers@.len()
        }
    }

    /// Whether the boards have a place for a token.
    pub open spec fn has_room(&self) -> bool {
        self.obj_layers@.len() > 0 && self.qubit_ids.cols > 0
    }

    /// Whether the board of the state `i` shows a qubit.
    pub open spec fn is_shown(&self, i: int) -> bool {
        self.num_qubits@[i] > 0 && self.widths@[i] > 0
    }

    /// The token of the orientation of the qubit `j` of the state `i`, 0 where none is given.
    pub open spec fn ori_at(&self, i: int, j: int) -> i32 {
        if i < self.qubit_oris.height() && j < self.qubit_oris.cols {
            spec_ori_token(self.qubit_oris.at(i, j))
        } else {
            0
        }
    }

    /// Whether the ancilla `k` of the state `i` last moved vertically.
    pub open spec fn moved_vertically(&self, i: int, k: int) -> bool {
        k < self.last_dir_vertical.cols && self.last_dir_vertical.at(i, k) != 0
    }

    /// What the objectives of the state `i` in the layer `l` say of its qubits.
    pub open spec fn marks_at(&self, i: int, l: int) -> Marks {
        layer_marks(
            self.obj_layers@[l],
            positions(
                self.qubit_ids.rows@[i]@,
                self.widths@[i] as int,
                self.num_qubits@[i] as nat,
            ),
            i,
            self.num_objectives.at(i, l) as nat,
        )
    }

    /// Whether the objectives of the state `i` in the layer `l` are given.
    pub open spec fn has_objectives(&self, i: int, l: int) -> bool {
        let layer = self.obj_layers@[l];
        let count = self.num_objectives.at(i, l);
        &&& i < self.num_objectives.height()
        &&& l < self.num_objectives.cols
        &&& count > 0 ==> {
            &&& i < layer.opcodes.height() && count <= layer.opcodes.cols
            &&& i < layer.arg0s.height() && count <= layer.arg0s.cols
            &&& i < layer.arg1s.height() && count <= layer.arg1s.cols
        }
    }

    /// Whether the qubit `j` of the state `i` has a token in the layer `l`: the number of an
    /// ancilla without a mark has one, and where it is an ancilla whose orientation depends on
    /// its last move, that is given.
    pub open spec fn has_token(&self, i: int, l: int, j: int) -> bool {
        let id = self.qubit_ids.at(i, j);
        id < 0 && !self.marks_at(i, l).contains_key(id) ==> {
            &&& id >= 13 - i32::MAX
            &&& self.ori_at(i, j) == 6 && -(id + 1) < self.last_dir_vertical.cols ==> i
                < self.last_dir_vertical.height()
        }
    }

    /// The rows of every array have one length.
    pub open spec fn is_regular(&self) -> bool {
        &&& self.qubit_ids.wf()
        &&& self.qubit_oris.wf()
        &&& self.num_objectives.wf()
        &&& self.last_dir_vertical.wf()
        &&& forall|l: int|
            0 <= l < self.obj_layers@.len() ==> {
                let layer = #[trigger] self.obj_layers@[l];
                layer.opcodes.wf() && layer.arg0s.wf() && layer.arg1s.wf()
            }
    }

    /// Every array covers what is read of it: no more orientations than qubits, and for each
    /// state that is shown what its counts say.
    pub open spec fn wf(&self) -> bool {
        let n = self.qubit_ids.height();
        &&& self.is_regular()
        &&& self.qubit_oris.height() <= n
        &&& self.qubit_oris.height() > 0 ==> self.qubit_oris.cols <= self.qubit_ids.cols
        &&& self.has_room() ==> {
            &&& self.num_qubits@.len() >= n
            &&& self.widths@.len() >= n
            &&& self.num_layers@.len() >= n
            &&& forall|i: int|
                0 <= i < n && #[trigger] self.is_shown(i) ==> self.num_qubits@[i] as nat
                    <= self.qubit_ids.cols
            &&& forall|i: int, l: int|
                0 <= i < n && self.is_shown(i) && 0 <= l < self.layers_of(i)
                    ==> #[trigger] self.has_objectives(i, l)
            &&& forall|i: int, l: int, j: int|
                0 <= i < n && self.is_shown(i) && 0 <= l < self.layers_of(i) && 0 <= j
                    < self.num_qubits@[i] ==> #[trigger] self.has_token(i, l, j)
        }
    }

    /// The tokens of the qubit `j` of the state `i` in the layer `l`.
    pub open spec fn token(&self, i: int, l: int, j: int) -> BoardToken {
        if self.widths@[i] == 0 || j >= self.num_qubits@[i] || l >= self.layers_of(i) {
            empty_token()
        } else {
            let id = self.qubit_ids.at(i, j);
            spec_token(
                self.marks_at(i, l),
                id,
                self.ori_at(i, j),
                self.moved_vertically(i, -(id + 1)),
            )
        }
    }
}

/// Enters the qubits of a row.
fn place_qubits(ids: &Vec<i32>, w: i32, n: usize) -> (r: FxHashMap<i32, (i32, i32)>)
    requires
        n <= ids@.len(),
        n <= u16::MAX,
        0 < w,
    ensures
        r@ == positions(ids@, w as int, n as nat),
{
    broadcast use vstd::std_specs::hash::group_hash_axioms;

    let mut pos: FxHashMap<i32, (i32, i32)> = FxHashMap::default();
    let mut j: usize = 0;
    while j < n
        invariant
            j <= n,
            n <= ids@.len(),
            n <= u16::MAX,
            0 < w,
            vstd::std_specs::hash::obeys_key_model::<i32>(),
            pos@ == positions(ids@, w as int, j as nat),
        decreases n - j,
    {
        let k: i32 = j as i32;
        fx_insert(&mut pos, ids[j], (k / w, k % w));
        j += 1;
    }
    pos
}

/// Enters the objectives of a state in a layer.
fn mark_layer(
    layer: &ObjectiveLayer,
    pos: &FxHashMap<i32, (i32, i32)>,
    i: usize,
    n: usize,
) -> (r: FxHashMap<i32, (i32, i32, i32)>)
    requires
        layer.opcodes.wf(),
        layer.arg0s.wf(),
        layer.arg1s.wf(),
        i < layer.opcodes.height(),
        i < layer.arg0s.height(),
        i < layer.arg1s.height(),
        n <= layer.opcodes.cols,
        n <= layer.arg0s.cols,
        n <= layer.arg1s.cols,
    ensures
        r@ == layer_marks(*layer, pos@, i as int, n as nat),
{
    broadcast use vstd::std_specs::hash::group_hash_axioms;

    let mut marks: FxHashMap<i32, (i32, i32, i32)> = FxHashMap::default();
    let ops: &Vec<i32> = &layer.opcodes.rows[i];
    let a0s: &Vec<i32> = &layer.arg0s.rows[i];
    let a1s: &Vec<i32> = &layer.arg1s.rows[i];
    let mut k: usize = 0;
    while k < n
        invariant
            k <= n,
            n <= ops@.len(),
            n <= a0s@.len(),
            n <= a1s@.len(),
            ops@ == layer.opcodes.rows@[i as int]@,
            a0s@ == layer.arg0s.rows@[i as int]@,
            a1s@ == layer.arg1s.rows@[i as int]@,
            vstd::std_specs::hash::obeys_key_model::<i32>(),
            marks@ == layer_marks(*layer, pos@, i as int, k as nat),
        decreases n - k,
    {
        let opcode: i32 = ops[k];
        let arg0: i32 = a0s[k];
        let arg1: i32 = a1s[k];
        if opcode == RAW_CZ_OPCODE || opcode == RAW_CX_OPCODE {
            let (c, t): (i32, i32) = if opcode == RAW_CZ_OPCODE {
                (TOKEN_CZ_CONTROL, TOKEN_CZ_TARGET)
            } else {
                (TOKEN_CX_CONTROL, TOKEN_CX_TARGET)
            };
            if let Some((r0, c0)) = fx_get(pos, &arg0) {
                if let Some((r1, c1)) = fx_get(pos, &arg1) {
                    fx_insert(&mut marks, arg0, (c, r1, c1));
                    fx_insert(&mut marks, arg1, (t, r0, c0));
                }
            }
        } else {
            fx_insert(&mut marks, arg0, (opcode_token(opcode), NO_MATE, NO_MATE));
        }
        k += 1;
    }
    marks
}

/// The tokens of the qubit `j` of the state `i` in the layer `l`, with the marks of the layer.
fn token_of(
    input: &BoardInput,
    marks: &FxHashMap<i32, (i32, i32, i32)>,
    i: usize,
    Ghost(l): Ghost<int>,
    j: usize,
) -> (r: BoardToken)
    requires
        input.is_regular(),
        i < input.qubit_ids.height(),
        j < input.qubit_ids.cols,
        marks@ == input.marks_at(i as int, l),
        input.has_token(i as int, l, j as int),
    ensures
        r == ({
            let id = input.qubit_ids.at(i as int, j as int);
            spec_token(
                marks@,
                id,
                input.ori_at(i as int, j as int),
                input.moved_vertically(i as int, -(id + 1)),
            )
        }),
{
    broadcast use vstd::std_specs::hash::group_hash_axioms;

    let id: i32 = input.qubit_ids.rows[i][j];
    let looked_up: i32 = if i < input.qubit_oris.rows.len() && j < input.qubit_oris.cols {
        ori_token(input.qubit_oris.rows[i][j])
    } else {
        0
    };
    if let Some((op, mate_row, mate_col)) = fx_get(marks, &id) {
        BoardToken { op, ori: looked_up, mate_row, mate_col }
    } else if id < 0 {
        let k: usize = (-(id + 1)) as usize;
        let ori: i32 = if looked_up == 6 && k < input.last_dir_vertical.cols
            && input.last_dir_vertical.rows[i][k] != 0 {
            7
        } else {
            looked_up
        };
        BoardToken { op: 13 - id, ori, mate_row: NO_MATE, mate_col: NO_MATE }
    } else {
        BoardToken { op: 1, ori: 1, mate_row: NO_MATE, mate_col: NO_MATE }
    }
}

/// The boards of all states: for each state, layer and qubit column its tokens. Columns past
/// the qubits of a state and layers past its own hold zeros.
pub fn build_boards_rs(input: &BoardInput) -> (r: Vec<Vec<Vec<BoardToken>>>)
    requires
        input.wf(),
    ensures
        r@.len() == input.qubit_ids.height(),
        forall|i: int|
            0 <= i < r@.len() ==> (#[trigger] r@[i])@.len() == input.obj_layers@.len(),
        forall|i: int, l: int|
            0 <= i < r@.len() && 0 <= l < r@[i]@.len() ==> (#[trigger] r@[i]@[l])@.len()
                == input.qubit_ids.cols,
        forall|i: int, l: int, j: int|
            0 <= i < r@.len() && 0 <= l < r@[i]@.len() && 0 <= j < r@[i]@[l]@.len()
                ==> #[trigger] r@[i]@[l]@[j] == input.token(i, l, j),
{
    let total: usize = input.qubit_ids.rows.len();
    let mut boards: Vec<Vec<Vec<BoardToken>>> = Vec::with_capacity(total);
    let mut i: usize = 0;
    while i < total
        invariant
            i <= total,
            total == input.qubit_ids.height(),
            input.wf(),
            boards@.len() == i,
            forall|a: int|
                0 <= a < i ==> (#[trigger] boards@[a])@.len() == input.obj_layers@.len(),
            forall|a: int, l: int|
                0 <= a < i && 0 <= l < boards@[a]@.len() ==> (#[trigger] boards@[a]@[l])@.len()
                    == input.qubit_ids.cols,
            forall|a: int, l: int, j: int|
                0 <= a < i && 0 <= l < boards@[a]@.len() && 0 <= j < boards@[a]@[l]@.len()
                    ==> #[trigger] boards@[a]@[l]@[j] == input.token(a, l, j),
        decreases total - i,
    {
        let board: Vec<Vec<BoardToken>> = build_board(input, i);
        boards.push(board);
        i += 1;
    }
    boards
}

/// The board of one state.
fn build_board(input: &BoardInput, i: usize) -> (r: Vec<Vec<BoardToken>>)
    requires
        input.wf(),
        i < input.qubit_ids.height(),
    ensures
        r@.len() == input.obj_layers@.len(),
        forall|l: int|
            0 <= l < r@.len() ==> (#[trigger] r@[l])@.len() == input.qubit_ids.cols,
        forall|l: int, j: int|
            0 <= l < r@.len() && 0 <= j < r@[l]@.len() ==> #[trigger] r@[l]@[j] == input.token(
                i as int,
                l,
                j,
            ),
{
    let max_nl: usize = input.obj_layers.len();
    let max_nq: usize = input.qubit_ids.cols;
    let room: bool = max_nl > 0 && max_nq > 0;
    let w: i32 = if room {
        input.widths[i] as i32
    } else {
        0
    };
    let nq: usize = if w == 0 {
        0
    } else {
        input.num_qubits[i] as usize
    };
    let raw_nl: usize = if nq == 0 {
        0
    } else {
        input.num_layers[i] as usize
    };
    let nl: usize = if raw_nl <= max_nl {
        raw_nl
    } else {
        max_nl
    };
    assert(nq > 0 ==> input.is_shown(i as int));
    let pos: FxHashMap<i32, (i32, i32)> = if nq > 0 {
        place_qubits(&input.qubit_ids.rows[i], w, nq)
    } else {
        FxHashMap::default()
    };
    let mut board: Vec<Vec<BoardToken>> = Vec::with_capacity(max_nl);
    let mut l: usize = 0;
    while l < max_nl
        invariant
            l <= max_nl,
            input.wf(),
            i < input.qubit_ids.height(),
            max_nl == input.obj_layers@.len(),
            max_nq == input.qubit_ids.cols,
            room == input.has_room(),
            room ==> w == input.widths@[i as int],
            room ==> nq == (if w == 0 {
                0
            } else {
                input.num_qubits@[i as int] as int
            }),
            nq > 0 ==> room && w > 0 && input.is_shown(i as int),
            nq <= max_nq,
            nq > 0 ==> nl == input.layers_of(i as int),
            nq == 0 ==> nl == 0,
            nq > 0 ==> pos@ == positions(input.qubit_ids.rows@[i as int]@, w as int, nq as nat),
            board@.len() == l,
            forall|a: int| 0 <= a < l ==> (#[trigger] board@[a])@.len() == max_nq,
            forall|a: int, j: int|
                0 <= a < l && 0 <= j < board@[a]@.len() ==> #[trigger] board@[a]@[j]
                    == input.token(i as int, a, j),
        decreases max_nl - l,
    {
        let written: usize = if l < nl {
            nq
        } else {
            0
        };
        let marks: FxHashMap<i32, (i32, i32, i32)> = if l < nl {
            assert(input.has_objectives(i as int, l as int));
            let n: usize = input.num_objectives.rows[i][l] as usize;
            assert(n == input.num_objectives.at(i as int, l as int));
            if n > 0 {
                mark_layer(&input.obj_layers[l], &pos, i, n)
            } else {
                FxHashMap::default()
            }
        } else {
            FxHashMap::default()
        };
        assert(l < nl ==> marks@ =~= input.marks_at(i as int, l as int));
        let mut row: Vec<BoardToken> = Vec::with_capacity(max_nq);
        let mut j: usize = 0;
        while j < max_nq
            invariant
                j <= max_nq,
                l < max_nl,
                input.wf(),
                i < input.qubit_ids.height(),
                max_nl == input.obj_layers@.len(),
                max_nq == input.qubit_ids.cols,
                room == input.has_room(),
                room ==> w == input.widths@[i as int],
                room ==> nq == (if w == 0 {
                    0
                } else {
                    input.num_qubits@[i as int] as int
                }),
                nq > 0 ==> room && w > 0 && input.is_shown(i as int),
                nq > 0 ==> nl == input.layers_of(i as int),
                nq == 0 ==> nl == 0,
                written == (if l < nl {
                    nq as int
                } else {
                    0
                }),
                l < nl ==> marks@ == input.marks_at(i as int, l as int),
                row@.len() == j,
                forall|a: int|
                    0 <= a < j ==> #[trigger] row@[a] == input.token(i as int, l as int, a),
            decreases max_nq - j,
        {
            let token: BoardToken = if j < written {
                assert(input.has_token(i as int, l as int, j as int));
                token_of(input, &marks, i, Ghost(l as int), j)
            } else {
                BoardToken { op: 0, ori: 0, mate_row: 0, mate_col: 0 }
            };
            row.push(token);
            j += 1;
        }
        board.push(row);
        l += 1;
    }
    board
}

} // verus!
