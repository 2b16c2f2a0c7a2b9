//! What a board shows of the qubits of a state and of the objectives of a layer, and what packed
//! bytes hold.

use crate::boards::{layer_marks, positions, BoardInput, BoardToken, ObjectiveLayer};
use crate::matrix::Matrix;
use crate::unpack::{
    at_least_one, layer_count, layer_unpacked, layer_width, packed_qubit, spec_le_i32,
    spec_sign_extend,
};
use vstd::prelude::*;

verus! {

/// Whether a column of the state `i` is written in the layer `l`.
pub open spec fn is_written(input: &BoardInput, i: int, l: int, j: int) -> bool {
    &&& 0 <= i < input.qubit_ids.height()
    &&& input.widths@[i] > 0
    &&& 0 <= j < input.num_qubits@[i]
    &&& 0 <= l < input.num_layers@[i]
    &&& l < input.obj_layers@.len()
}

/// Whether a qubit of the state `i` stands in the column `j`, and in no later one.
pub open spec fn stands_last(input: &BoardInput, i: int, j: int, id: i32) -> bool {
    &&& 0 <= j < input.num_qubits@[i]
    &&& input.qubit_ids.at(i, j) == id
    &&& forall|c: int| j < c < input.num_qubits@[i] ==> #[trigger] input.qubit_ids.at(i, c) != id
}

/// Whether a qubit is on the board of the state `i`.
pub open spec fn on_board(input: &BoardInput, i: int, id: i32) -> bool {
    exists|c: int| 0 <= c < input.num_qubits@[i] && #[trigger] input.qubit_ids.at(i, c) == id
}

/// Whether an objective is about a qubit: it is its first argument, or the second one of a gate on
/// two qubits.
pub open spec fn names(layer: ObjectiveLayer, i: int, k: int, id: i32) -> bool {
    ||| layer.arg0s.at(i, k) == id
    ||| layer.arg1s.at(i, k) == id && (layer.opcodes.at(i, k) == 12 || layer.opcodes.at(i, k) == 13)
}

/// Whether `k` is the last objective of the state `i` in the layer `l` that is about a qubit.
pub open spec fn named_last(input: &BoardInput, i: int, l: int, k: int, id: i32) -> bool {
    &&& 0 <= k < input.num_objectives.at(i, l)
    &&& names(input.obj_layers@[l], i, k, id)
    &&& forall|m: int|
        k < m < input.num_objectives.at(i, l) ==> !#[trigger] names(
            input.obj_layers@[l],
            i,
            m,
            id,
        )
}

/// Whether an objective marks nobody: it is a gate on two qubits, of which one is not on the board.
pub open spec fn is_partial(input: &BoardInput, i: int, l: int, k: int) -> bool {
    let layer = input.obj_layers@[l];
    &&& layer.opcodes.at(i, k) == 12 || layer.opcodes.at(i, k) == 13
    &&& !on_board(input, i, layer.arg0s.at(i, k)) || !on_board(input, i, layer.arg1s.at(i, k))
}

/// Whether no objective of the layer `l` says a thing of a qubit of the state `i`.
pub open spec fn is_idle(input: &BoardInput, i: int, l: int, id: i32) -> bool {
    forall|k: int|
        0 <= k < input.num_objectives.at(i, l) && #[trigger] names(input.obj_layers@[l], i, k, id)
            ==> is_partial(input, i, l, k)
}

proof fn lemma_positions(ids: Seq<i32>, w: int, n: nat, id: i32)
    ensures
        positions(ids, w, n).contains_key(id) <==> exists|c: int|
            0 <= c < n && #[trigger] ids[c] == id,
    decreases n,
{
    if n > 0 {
        lemma_positions(ids, w, (n - 1) as nat, id);
        if ids[n - 1] == id {
            assert(0 <= n - 1 < n && ids[n - 1] == id);
        }
    }
}

proof fn lemma_last_position(ids: Seq<i32>, w: int, n: nat, j: int)
    requires
        0 <= j < n <= 65535,
        w > 0,
        forall|c: int| j < c < n ==> #[trigger] ids[c] != ids[j],
    ensures
        positions(ids, w, n).contains_key(ids[j]),
        positions(ids, w, n)[ids[j]] == ((j / w) as i32, (j % w) as i32),
        0 <= j / w <= j,
        0 <= j % w < w,
        (j / w) * w + j % w == j,
    decreases n,
{
    assert(0 <= j / w <= j && 0 <= j % w < w && (j / w) * w + j % w == j) by (nonlinear_arith)
        requires
            0 <= j,
            w > 0,
    ;
    if j < n - 1 {
        lemma_last_position(ids, w, (n - 1) as nat, j);
    }
}

/// Objectives from `from` on that are not about a qubit, or mark nobody, leave its mark as it was.
proof fn lemma_marks_stay(
    layer: ObjectiveLayer,
    pos: Map<i32, (i32, i32)>,
    i: int,
    from: nat,
    n: nat,
    id: i32,
)
    requires
        from <= n,
        forall|k: int|
            from <= k < n && #[trigger] names(layer, i, k, id) ==> {
                &&& layer.opcodes.at(i, k) == 12 || layer.opcodes.at(i, k) == 13
                &&& !pos.contains_key(layer.arg0s.at(i, k)) || !pos.contains_key(
                    layer.arg1s.at(i, k),
                )
            },
    ensures
        layer_marks(layer, pos, i, n).contains_key(id) == layer_marks(
            layer,
            pos,
            i,
            from,
        ).contains_key(id),
        layer_marks(layer, pos, i, n).contains_key(id) ==> layer_marks(layer, pos, i, n)[id]
            == layer_marks(layer, pos, i, from)[id],
    decreases n,
{
    if from < n {
        lemma_marks_stay(layer, pos, i, from, (n - 1) as nat, id);
        let named = names(layer, i, n - 1, id);
        assert(named ==> layer.opcodes.at(i, n - 1) == 12 || layer.opcodes.at(i, n - 1) == 13);
    }
}

/// The mark that a board shows: what the last objective that is about a qubit has entered.
proof fn lemma_mark_shown(input: &BoardInput, i: int, l: int, k: int, id: i32)
    requires
        named_last(input, i, l, k, id),
    ensures
        input.marks_at(i, l).contains_key(id) == layer_marks(
            input.obj_layers@[l],
            positions(
                input.qubit_ids.rows@[i]@,
                input.widths@[i] as int,
                input.num_qubits@[i] as nat,
            ),
            i,
            (k + 1) as nat,
        ).contains_key(id),
        input.marks_at(i, l).contains_key(id) ==> input.marks_at(i, l)[id] == layer_marks(
            input.obj_layers@[l],
            positions(
                input.qubit_ids.rows@[i]@,
                input.widths@[i] as int,
                input.num_qubits@[i] as nat,
            ),
            i,
            (k + 1) as nat,
        )[id],
{
    let layer = input.obj_layers@[l];
    let n = input.num_objectives.at(i, l) as nat;
    let pos = positions(
        input.qubit_ids.rows@[i]@,
        input.widths@[i] as int,
        input.num_qubits@[i] as nat,
    );
    lemma_marks_stay(layer, pos, i, (k + 1) as nat, n, id);
}

/// Whether a column shows a half of a gate on two qubits whose other half stands in the column
/// `mate`: its token, and the row and column of the mate on the board.
pub open spec fn shows_half(
    input: &BoardInput,
    i: int,
    l: int,
    j: int,
    op: int,
    mate: int,
) -> bool {
    let token = input.token(i, l, j);
    let w = input.widths@[i] as int;
    &&& token.op == op
    &&& token.mate_row == mate / w
    &&& token.mate_col == mate % w
    &&& token.mate_row * w + token.mate_col == mate
    &&& 0 <= token.mate_col < w
}

proof fn lemma_two_qubit_gate(input: &BoardInput, i: int, l: int, k: int, a: int, b: int)
    requires
        ({
            let layer = input.obj_layers@[l];
            let first = layer.arg0s.at(i, k);
            let second = layer.arg1s.at(i, k);
            &&& is_written(input, i, l, a)
            &&& layer.opcodes.at(i, k) == 12 || layer.opcodes.at(i, k) == 13
            &&& first != second
            &&& stands_last(input, i, a, first)
            &&& stands_last(input, i, b, second)
            &&& named_last(input, i, l, k, first)
            &&& named_last(input, i, l, k, second)
        }),
    ensures
        ({
            let layer = input.obj_layers@[l];
            let cz = layer.opcodes.at(i, k) == 13;
            &&& forall|j: int|
                0 <= j < input.num_qubits@[i] && #[trigger] input.qubit_ids.at(i, j)
                    == layer.arg0s.at(i, k) ==> shows_half(
                    input,
                    i,
                    l,
                    j,
                    if cz {
                        8
                    } else {
                        10
                    },
                    b,
                )
            &&& forall|j: int|
                0 <= j < input.num_qubits@[i] && #[trigger] input.qubit_ids.at(i, j)
                    == layer.arg1s.at(i, k) ==> shows_half(
                    input,
                    i,
                    l,
                    j,
                    if cz {
                        9
                    } else {
                        11
                    },
                    a,
                )
        }),
{
    let layer = input.obj_layers@[l];
    let first = layer.arg0s.at(i, k);
    let second = layer.arg1s.at(i, k);
    let ids = input.qubit_ids.rows@[i]@;
    let w = input.widths@[i] as int;
    let n = input.num_qubits@[i] as nat;
    assert forall|c: int| a < c < n implies #[trigger] ids[c] != ids[a] by {
        assert(input.qubit_ids.at(i, c) != first);
    }
    assert forall|c: int| b < c < n implies #[trigger] ids[c] != ids[b] by {
        assert(input.qubit_ids.at(i, c) != second);
    }
    lemma_last_position(ids, w, n, a);
    lemma_last_position(ids, w, n, b);
    lemma_mark_shown(input, i, l, k, first);
    lemma_mark_shown(input, i, l, k, second);
}

/// Law: a CZ whose two qubits are on the board, and in no later objective of the layer, is shown
/// at both: the first has the token 8 and the position of the second, the second has the token 9
/// and the position of the first.
pub proof fn law_cz_is_shown_at_both_qubits(
    input: &BoardInput,
    i: int,
    l: int,
    k: int,
    a: int,
    b: int,
)
    requires
        input.obj_layers@[l].opcodes.at(i, k) == 13,
        input.obj_layers@[l].arg0s.at(i, k) != input.obj_layers@[l].arg1s.at(i, k),
        is_written(input, i, l, a),
        is_written(input, i, l, b),
        stands_last(input, i, a, input.obj_layers@[l].arg0s.at(i, k)),
        stands_last(input, i, b, input.obj_layers@[l].arg1s.at(i, k)),
        named_last(input, i, l, k, input.obj_layers@[l].arg0s.at(i, k)),
        named_last(input, i, l, k, input.obj_layers@[l].arg1s.at(i, k)),
    ensures
        shows_half(input, i, l, a, 8, b),
        shows_half(input, i, l, b, 9, a),
        forall|j: int|
            0 <= j < input.num_qubits@[i] && #[trigger] input.qubit_ids.at(i, j)
                == input.obj_layers@[l].arg0s.at(i, k) ==> shows_half(input, i, l, j, 8, b),
        forall|j: int|
            0 <= j < input.num_qubits@[i] && #[trigger] input.qubit_ids.at(i, j)
                == input.obj_layers@[l].arg1s.at(i, k) ==> shows_half(input, i, l, j, 9, a),
{
    lemma_two_qubit_gate(input, i, l, k, a, b);
}

/// Law: a CX whose two qubits are on the board, and in no later objective of the layer, is shown
/// at both: the first has the token 10 and the position of the second, the second has the token 11
/// and the position of the first.
pub proof fn law_cx_is_shown_at_both_qubits(
    input: &BoardInput,
    i: int,
    l: int,
    k: int,
    a: int,
    b: int,
)
    requires
        input.obj_layers@[l].opcodes.at(i, k) == 12,
        input.obj_layers@[l].arg0s.at(i, k) != input.obj_layers@[l].arg1s.at(i, k),
        is_written(input, i, l, a),
        is_written(input, i, l, b),
        stands_last(input, i, a, input.obj_layers@[l].arg0s.at(i, k)),
        stands_last(input, i, b, input.obj_layers@[l].arg1s.at(i, k)),
        named_last(input, i, l, k, input.obj_layers@[l].arg0s.at(i, k)),
        named_last(input, i, l, k, input.obj_layers@[l].arg1s.at(i, k)),
    ensures
        shows_half(input, i, l, a, 10, b),
        shows_half(input, i, l, b, 11, a),
        forall|j: int|
            0 <= j < input.num_qubits@[i] && #[trigger] input.qubit_ids.at(i, j)
                == input.obj_layers@[l].arg0s.at(i, k) ==> shows_half(input, i, l, j, 10, b),
        forall|j: int|
            0 <= j < input.num_qubits@[i] && #[trigger] input.qubit_ids.at(i, j)
                == input.obj_layers@[l].arg1s.at(i, k) ==> shows_half(input, i, l, j, 11, a),
{
    lemma_two_qubit_gate(input, i, l, k, a, b);
}

/// Law: the mates of a gate on two qubits point at each other: what one half shows as the position
/// of its mate is where a column stands that shows the other half and points back.
pub proof fn law_mates_point_at_each_other(
    input: &BoardInput,
    i: int,
    l: int,
    k: int,
    a: int,
    b: int,
)
    requires
        input.obj_layers@[l].opcodes.at(i, k) == 12 || input.obj_layers@[l].opcodes.at(i, k) == 13,
        input.obj_layers@[l].arg0s.at(i, k) != input.obj_layers@[l].arg1s.at(i, k),
        is_written(input, i, l, a),
        is_written(input, i, l, b),
        stands_last(input, i, a, input.obj_layers@[l].arg0s.at(i, k)),
        stands_last(input, i, b, input.obj_layers@[l].arg1s.at(i, k)),
        named_last(input, i, l, k, input.obj_layers@[l].arg0s.at(i, k)),
        named_last(input, i, l, k, input.obj_layers@[l].arg1s.at(i, k)),
    ensures
        ({
            let w = input.widths@[i] as int;
            let x = input.token(i, l, a);
            let y = input.token(i, l, b);
            &&& x.mate_row * w + x.mate_col == b
            &&& y.mate_row * w + y.mate_col == a
            &&& y.op == x.op + 1
        }),
{
    lemma_two_qubit_gate(input, i, l, k, a, b);
}

/// Law: a gate on one qubit that is in no later objective of the layer is shown with the token of
/// its kind and without a mate: Paulis and RZ have 2, H has 3, S and its adjoint 4, SX and its
/// adjoint 5, T and its adjoint 6, TX and its adjoint 7, a measurement 12 and a reset 13, and what
/// is none of these has 1.
pub proof fn law_one_qubit_gate_is_shown(input: &BoardInput, i: int, l: int, k: int, j: int)
    requires
        is_written(input, i, l, j),
        input.obj_layers@[l].opcodes.at(i, k) != 12,
        input.obj_layers@[l].opcodes.at(i, k) != 13,
        input.obj_layers@[l].arg0s.at(i, k) == input.qubit_ids.at(i, j),
        named_last(input, i, l, k, input.qubit_ids.at(i, j)),
    ensures
        ({
            let opcode = input.obj_layers@[l].opcodes.at(i, k);
            let token = input.token(i, l, j);
            &&& token.mate_row == -1
            &&& token.mate_col == -1
            &&& opcode == 0 || opcode == 1 || opcode == 2 || opcode == 14 ==> token.op == 2
            &&& opcode == 3 ==> token.op == 3
            &&& opcode == 4 || opcode == 5 ==> token.op == 4
            &&& opcode == 6 || opcode == 7 ==> token.op == 5
            &&& opcode == 8 || opcode == 9 ==> token.op == 6
            &&& opcode == 10 || opcode == 11 ==> token.op == 7
            &&& opcode == 18 ==> token.op == 12
            &&& opcode == 19 ==> token.op == 13
            &&& opcode < 0 || 15 <= opcode <= 17 || opcode > 19 ==> token.op == 1
        }),
{
    lemma_mark_shown(input, i, l, k, input.qubit_ids.at(i, j));
}

/// Law: a qubit that an objective of the layer marks shows its orientation: vertical 2, horizontal
/// 3, an ancilla 6, one that cultivates 4, a resource 5, anything else 1, and 0 where none is
/// given.
pub proof fn law_marked_qubit_shows_orientation(
    input: &BoardInput,
    i: int,
    l: int,
    k: int,
    j: int,
)
    requires
        is_written(input, i, l, j),
        named_last(input, i, l, k, input.qubit_ids.at(i, j)),
        !is_partial(input, i, l, k),
    ensures
        ({
            let given = i < input.qubit_oris.height() && j < input.qubit_oris.cols;
            let ori = input.qubit_oris.at(i, j);
            let shown = input.token(i, l, j).ori;
            &&& !given ==> shown == 0
            &&& given && ori == 0 ==> shown == 2
            &&& given && ori == 1 ==> shown == 3
            &&& given && ori == 2 ==> shown == 6
            &&& given && ori == 3 ==> shown == 4
            &&& given && ori == 4 ==> shown == 5
            &&& given && ori > 4 ==> shown == 1
        }),
{
    let layer = input.obj_layers@[l];
    lemma_mark_shown(input, i, l, k, input.qubit_ids.at(i, j));
    lemma_on_board(input, i, layer.arg0s.at(i, k));
    lemma_on_board(input, i, layer.arg1s.at(i, k));
}

proof fn lemma_on_board(input: &BoardInput, i: int, id: i32)
    ensures
        on_board(input, i, id) == positions(
            input.qubit_ids.rows@[i]@,
            input.widths@[i] as int,
            input.num_qubits@[i] as nat,
        ).contains_key(id),
{
    let ids = input.qubit_ids.rows@[i]@;
    let n = input.num_qubits@[i] as nat;
    lemma_positions(ids, input.widths@[i] as int, n, id);
    if on_board(input, i, id) {
        let c = choose|c: int|
            0 <= c < input.num_qubits@[i] && #[trigger] input.qubit_ids.at(i, c) == id;
        assert(ids[c] == id);
    }
    if exists|c: int| 0 <= c < n && #[trigger] ids[c] == id {
        let c = choose|c: int| 0 <= c < n && #[trigger] ids[c] == id;
        assert(input.qubit_ids.at(i, c) == id);
    }
}

proof fn lemma_idle(input: &BoardInput, i: int, l: int, id: i32)
    requires
        is_idle(input, i, l, id),
    ensures
        !input.marks_at(i, l).contains_key(id),
{
    let layer = input.obj_layers@[l];
    let n = input.num_objectives.at(i, l) as nat;
    let pos = positions(
        input.qubit_ids.rows@[i]@,
        input.widths@[i] as int,
        input.num_qubits@[i] as nat,
    );
    assert forall|k: int| 0 <= k < n && #[trigger] names(layer, i, k, id) implies {
        &&& layer.opcodes.at(i, k) == 12 || layer.opcodes.at(i, k) == 13
        &&& !pos.contains_key(layer.arg0s.at(i, k)) || !pos.contains_key(layer.arg1s.at(i, k))
    } by {
        assert(is_partial(input, i, l, k));
        lemma_on_board(input, i, layer.arg0s.at(i, k));
        lemma_on_board(input, i, layer.arg1s.at(i, k));
    }
    lemma_marks_stay(layer, pos, i, 0, n, id);
}

/// Law: a qubit that no objective of the layer is about, or only gates on two qubits that miss one
/// of them, is shown as idle, whatever its orientation.
pub proof fn law_idle_qubit_is_default(input: &BoardInput, i: int, l: int, j: int)
    requires
        is_written(input, i, l, j),
        input.qubit_ids.at(i, j) >= 0,
        is_idle(input, i, l, input.qubit_ids.at(i, j)),
    ensures
        input.token(i, l, j) == (BoardToken {
            op: 1,
            ori: 1,
            mate_row: -1i32,
            mate_col: -1i32,
        }),
{
    lemma_idle(input, i, l, input.qubit_ids.at(i, j));
}

/// Law: an ancilla that no objective of the layer is about shows its number, counted from 14, and
/// its orientation. An ancilla in the orientation of one shows 7 if it last moved vertically, and
/// 6 if it did not.
pub proof fn law_ancilla_shows_number_and_move(
    input: &BoardInput,
    i: int,
    l: int,
    j: int,
    number: int,
)
    requires
        is_written(input, i, l, j),
        0 <= number <= i32::MAX - 14,
        input.qubit_ids.at(i, j) == -1 - number,
        is_idle(input, i, l, input.qubit_ids.at(i, j)),
    ensures
        ({
            let given = i < input.qubit_oris.height() && j < input.qubit_oris.cols;
            let ori = input.qubit_oris.at(i, j);
            let shown = input.token(i, l, j);
            let vertical = number < input.last_dir_vertical.cols && input.last_dir_vertical.at(
                i,
                number,
            ) != 0;
            &&& shown.op == 14 + number
            &&& shown.mate_row == -1
            &&& shown.mate_col == -1
            &&& given && ori == 2 && vertical ==> shown.ori == 7
            &&& given && ori == 2 && !vertical ==> shown.ori == 6
            &&& given && ori == 0 ==> shown.ori == 2
            &&& given && ori == 1 ==> shown.ori == 3
            &&& given && ori == 3 ==> shown.ori == 4
            &&& given && ori == 4 ==> shown.ori == 5
            &&& given && ori > 4 ==> shown.ori == 1
            &&& !given ==> shown.ori == 0
        }),
{
    lemma_idle(input, i, l, input.qubit_ids.at(i, j));
}

/// Law: past the qubits of a state, past its layers, and where it has no width, a board holds
/// zeros.
pub proof fn law_unwritten_places_are_zero(input: &BoardInput, i: int, l: int, j: int)
    requires
        0 <= i < input.qubit_ids.height(),
        0 <= l < input.obj_layers@.len(),
        0 <= j,
        !is_written(input, i, l, j),
    ensures
        input.token(i, l, j) == (BoardToken { op: 0, ori: 0, mate_row: 0, mate_col: 0 }),
{
}

/// Law: what a layer shows of a qubit depends on the objectives of that layer alone: two inputs
/// with the same qubits and the same objectives of a state in a layer show the same there.
pub proof fn law_layers_are_separate(
    input: &BoardInput,
    other: &BoardInput,
    i: int,
    l: int,
    m: int,
    j: int,
)
    requires
        is_written(input, i, l, j),
        is_written(other, i, m, j),
        input.qubit_ids == other.qubit_ids,
        input.qubit_oris == other.qubit_oris,
        input.num_qubits == other.num_qubits,
        input.widths == other.widths,
        input.last_dir_vertical == other.last_dir_vertical,
        input.obj_layers@[l] == other.obj_layers@[m],
        input.num_objectives.at(i, l) == other.num_objectives.at(i, m),
    ensures
        input.token(i, l, j) == other.token(i, m, j),
{
}

/// Law: the four bytes of a number, lowest first, are read back as the number. A negative number is
/// held as what is missing to two to the power of 32.
pub proof fn law_bytes_hold_numbers(v: i32, b0: u8, b1: u8, b2: u8, b3: u8)
    requires
        b0 + 256 * b1 + 65536 * b2 + 16777216 * b3 == (if v >= 0 {
            v as int
        } else {
            v + 4294967296
        }),
    ensures
        spec_le_i32(b0, b1, b2, b3) == v,
{
}

/// Law: a byte is read as the number between -128 and 127 that it differs from by 0 or 256.
pub proof fn law_byte_holds_opcode(b: u8, v: i8)
    requires
        v == b || v + 256 == b,
    ensures
        spec_sign_extend(b) == v,
{
}

/// Law: the qubit `j` of a packed row takes five bytes: four for its id and one for its
/// orientation.
pub proof fn law_qubit_takes_five_bytes(raw: Seq<u8>, j: int, id: i32)
    requires
        0 <= j,
        5 * j + 5 <= raw.len(),
        raw[5 * j] + 256 * raw[5 * j + 1] + 65536 * raw[5 * j + 2] + 16777216 * raw[5 * j + 3] == (
        if id >= 0 {
            id as int
        } else {
            id + 4294967296
        }),
    ensures
        packed_qubit(raw, j) == (id as int, raw[5 * j + 4]),
{
}

/// Law: the objective `k` of a state in a layer takes nine bytes behind the start of the layer: one
/// for its opcode and four for each of its two ids. Past the objectives of a state, or in a layer
/// that it does not have, there are zeros.
pub proof fn law_objective_takes_nine_bytes(
    layer: ObjectiveLayer,
    raw: Matrix<u8>,
    num_layers: Seq<u8>,
    num_objectives: Matrix<u16>,
    stride: int,
    i: int,
    l: int,
    k: int,
)
    requires
        layer_unpacked(layer, raw, num_layers, num_objectives, stride, l),
        0 <= i < raw.height(),
        0 <= l,
        0 <= k < layer.opcodes.cols,
    ensures
        ({
            let row = raw.rows@[i]@;
            let o = l * stride + 9 * k;
            if l < num_layers[i] && l < num_objectives.cols && k < num_objectives.at(i, l) {
                &&& layer.opcodes.at(i, k) == spec_sign_extend(row[o])
                &&& layer.arg0s.at(i, k) == spec_le_i32(row[o + 1], row[o + 2], row[o + 3], row[o
                    + 4])
                &&& layer.arg1s.at(i, k) == spec_le_i32(row[o + 5], row[o + 6], row[o + 7], row[o
                    + 8])
            } else {
                &&& layer.opcodes.at(i, k) == 0
                &&& layer.arg0s.at(i, k) == 0
                &&& layer.arg1s.at(i, k) == 0
            }
        }),
{
    assert(layer.opcodes.at(i, k) == layer.opcodes.at(i, k));
    assert(layer_width(num_objectives, l, raw.height()) == layer.opcodes.cols);
}

/// Law: the width of an array is the largest of the counts and 1.
pub proof fn law_width_is_largest_count(counts: Seq<u16>, n: nat)
    requires
        n <= counts.len(),
    ensures
        at_least_one(counts, n) >= 1,
        forall|k: int| 0 <= k < n ==> #[trigger] counts[k] <= at_least_one(counts, n),
        at_least_one(counts, n) == 1 || exists|k: int|
            0 <= k < n && #[trigger] counts[k] == at_least_one(counts, n),
    decreases n,
{
    if n > 0 {
        law_width_is_largest_count(counts, (n - 1) as nat);
        let before = at_least_one(counts, (n - 1) as nat);
        if counts[n - 1] as nat > before {
            assert(0 <= n - 1 < n && counts[n - 1] == at_least_one(counts, n));
        } else if before != 1 {
            let k = choose|k: int| 0 <= k < n - 1 && #[trigger] counts[k] == before;
            assert(counts[k] == at_least_one(counts, n));
        }
    }
}

/// Law: the number of layers is the largest of the layer counts and 1.
pub proof fn law_layers_are_largest_count(counts: Seq<u8>, n: nat)
    requires
        n <= counts.len(),
    ensures
        layer_count(counts, n) >= 1,
        forall|k: int| 0 <= k < n ==> #[trigger] counts[k] <= layer_count(counts, n),
        layer_count(counts, n) == 1 || exists|k: int|
            0 <= k < n && #[trigger] counts[k] == layer_count(counts, n),
    decreases n,
{
    if n > 0 {
        law_layers_are_largest_count(counts, (n - 1) as nat);
        let before = layer_count(counts, (n - 1) as nat);
        if counts[n - 1] as nat > before {
            assert(0 <= n - 1 < n && counts[n - 1] == layer_count(counts, n));
        } else if before != 1 {
            let k = choose|k: int| 0 <= k < n - 1 && #[trigger] counts[k] == before;
            assert(counts[k] == layer_count(counts, n));
        }
    }
}

} // verus!
