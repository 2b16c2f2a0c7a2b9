//! Reading the packed placements and objectives of a batch of states.
//!
//! A qubit takes [`QUBIT_SIZE`] bytes: its id as a little-endian `i32` and its orientation. An
//! objective takes [`OBJECTIVE_SIZE`] bytes: the opcode as an `i8` and two ids as little-endian
//! `i32`. The objectives of a layer start at a multiple of the layer stride.

use crate::boards::ObjectiveLayer;
use crate::matrix::Matrix;
use vstd::prelude::*;

verus! {

/// Bytes per qubit.
pub const QUBIT_SIZE: usize = 5;

/// Bytes per objective.
pub const OBJECTIVE_SIZE: usize = 9;

/// The signed number that four bytes hold, lowest byte first.
pub open spec fn spec_le_i32(b0: u8, b1: u8, b2: u8, b3: u8) -> int {
    let v = b0 + 256 * b1 + 65536 * b2 + 16777216 * b3;
    if v < 2147483648 {
        v
    } else {
        v - 4294967296
    }
}

/// The signed number that four bytes hold, lowest byte first.
pub fn le_i32(b0: u8, b1: u8, b2: u8, b3: u8) -> (r: i32)
    ensures
        r == spec_le_i32(b0, b1, b2, b3),
{
    let v: i64 = b0 as i64 + 256 * (b1 as i64) + 65536 * (b2 as i64) + 16777216 * (b3 as i64);
    if v < 2147483648 {
        v as i32
    } else {
        (v - 4294967296) as i32
    }
}

/// The signed number that a byte holds.
pub open spec fn spec_sign_extend(b: u8) -> int {
    if b < 128 {
        b as int
    } else {
        b - 256
    }
}

/// The signed number that a byte holds.
pub fn sign_extend(b: u8) -> (r: i32)
    ensures
        r == spec_sign_extend(b),
{
    if b < 128 {
        b as i32
    } else {
        b as i32 - 256
    }
}

/// The larger of 1 and the largest of the first `n` counts.
pub open spec fn at_least_one(counts: Seq<u16>, n: nat) -> nat
    decreases n,
{
    if n == 0 {
        1
    } else {
        let before = at_least_one(counts, (n - 1) as nat);
        if counts[n - 1] as nat > before {
            counts[n - 1] as nat
        } else {
            before
        }
    }
}

proof fn lemma_at_least_one(counts: Seq<u16>, n: nat, k: int)
    requires
        0 <= k < n <= counts.len(),
    ensures
        counts[k] <= at_least_one(counts, n),
    decreases n,
{
    if k < n - 1 {
        lemma_at_least_one(counts, (n - 1) as nat, k);
    }
}

/// Column `l` of a matrix of counts.
pub open spec fn column(m: Matrix<u16>, l: int) -> Seq<u16> {
    Seq::new(m.height(), |i: int| m.at(i, l))
}

/// The id and the orientation of a packed qubit.
pub open spec fn packed_qubit(raw: Seq<u8>, j: int) -> (int, u8) {
    let o = j * QUBIT_SIZE;
    (spec_le_i32(raw[o], raw[o + 1], raw[o + 2], raw[o + 3]), raw[o + 4])
}

/// The opcode and the two ids of a packed objective of the layer at `start`.
pub open spec fn packed_objective(raw: Seq<u8>, start: int, k: int) -> (int, int, int) {
    let o = start + k * OBJECTIVE_SIZE;
    (
        spec_sign_extend(raw[o]),
        spec_le_i32(raw[o + 1], raw[o + 2], raw[o + 3], raw[o + 4]),
        spec_le_i32(raw[o + 5], raw[o + 6], raw[o + 7], raw[o + 8]),
    )
}

/// The objective `k` of a state that has `n` of them in the layer at `start`; zeros past the
/// last.
pub open spec fn objective_or_zero(raw: Seq<u8>, start: int, n: nat, k: int) -> (int, int, int) {
    if k < n {
        packed_objective(raw, start, k)
    } else {
        (0, 0, 0)
    }
}

/// The larger of 1 and the largest count.
fn largest(counts: &Vec<u16>) -> (r: usize)
    ensures
        r == at_least_one(counts@, counts@.len()),
        1 <= r <= 65535,
{
    let mut m: usize = 1;
    let mut i: usize = 0;
    while i < counts.len()
        invariant
            i <= counts@.len(),
            m == at_least_one(counts@, i as nat),
            1 <= m <= 65535,
        decreases counts.len() - i,
    {
        let v: usize = counts[i] as usize;
        if v > m {
            m = v;
        }
        i += 1;
    }
    m
}

/// Unpacks the qubits of every state: their ids and their orientations, one row per state with
/// a column for each of the largest number of qubits, at least one. What is past the qubits of
/// a state is 0.
pub fn unpack_placement_batch_rs(raw: &Matrix<u8>, num_qubits: &Vec<u16>) -> (r: (
    Matrix<i32>,
    Matrix<u8>,
))
    requires
        raw.wf(),
        num_qubits@.len() >= raw.height(),
        forall|i: int|
            0 <= i < raw.height() ==> (#[trigger] num_qubits@[i]) * QUBIT_SIZE <= raw.cols,
    ensures
        r.0.wf() && r.1.wf(),
        r.0.height() == raw.height() && r.1.height() == raw.height(),
        r.0.cols == at_least_one(num_qubits@, num_qubits@.len()),
        r.1.cols == r.0.cols,
        forall|i: int, j: int|
            0 <= i < raw.height() && 0 <= j < r.0.cols ==> #[trigger] r.0.at(i, j) == (if j
                < num_qubits@[i] {
                packed_qubit(raw.rows@[i]@, j).0
            } else {
                0
            }),
        forall|i: int, j: int|
            0 <= i < raw.height() && 0 <= j < r.0.cols ==> #[trigger] r.1.at(i, j) == (if j
                < num_qubits@[i] {
                packed_qubit(raw.rows@[i]@, j).1
            } else {
                0
            }),
{
    let total: usize = raw.rows.len();
    let max_nq: usize = largest(num_qubits);
    let mut ids: Vec<Vec<i32>> = Vec::with_capacity(total);
    let mut oris: Vec<Vec<u8>> = Vec::with_capacity(total);
    let mut i: usize = 0;
    while i < total
        invariant
            i <= total,
            total == raw.height(),
            raw.wf(),
            num_qubits@.len() >= total,
            forall|i: int|
                0 <= i < raw.height() ==> (#[trigger] num_qubits@[i]) * QUBIT_SIZE <= raw.cols,
            max_nq <= 65535,
            ids@.len() == i,
            oris@.len() == i,
            forall|a: int|
                0 <= a < i ==> (#[trigger] ids@[a])@.len() == max_nq,
            forall|a: int|
                0 <= a < i ==> (#[trigger] oris@[a])@.len() == max_nq,
            forall|a: int, j: int|
                0 <= a < i && 0 <= j < max_nq ==> #[trigger] ids@[a]@[j] == (if j < num_qubits@[a] {
                    packed_qubit(raw.rows@[a]@, j).0
                } else {
                    0
                }),
            forall|a: int, j: int|
                0 <= a < i && 0 <= j < max_nq ==> #[trigger] oris@[a]@[j] == (if j
                    < num_qubits@[a] {
                    packed_qubit(raw.rows@[a]@, j).1
                } else {
                    0
                }),
        decreases total - i,
    {
        let row: &Vec<u8> = &raw.rows[i];
        let nq: usize = num_qubits[i] as usize;
        assert(nq * QUBIT_SIZE <= raw.cols);
        let mut id_row: Vec<i32> = Vec::with_capacity(max_nq);
        let mut ori_row: Vec<u8> = Vec::with_capacity(max_nq);
        let mut j: usize = 0;
        while j < max_nq
            invariant
                j <= max_nq,
                max_nq <= 65535,
                nq * QUBIT_SIZE <= row@.len(),
                id_row@.len() == j,
                ori_row@.len() == j,
                forall|a: int|
                    0 <= a < j ==> #[trigger] id_row@[a] == (if a < nq {
                        packed_qubit(row@, a).0
                    } else {
                        0
                    }),
                forall|a: int|
                    0 <= a < j ==> #[trigger] ori_row@[a] == (if a < nq {
                        packed_qubit(row@, a).1
                    } else {
                        0
                    }),
            decreases max_nq - j,
        {
            if j < nq {
                let off: usize = j * QUBIT_SIZE;
                id_row.push(le_i32(row[off], row[off + 1], row[off + 2], row[off + 3]));
                ori_row.push(row[off + 4]);
            } else {
                id_row.push(0);
                ori_row.push(0);
            }
            j += 1;
        }
        ids.push(id_row);
        oris.push(ori_row);
        i += 1;
    }
    (Matrix { cols: max_nq, rows: ids }, Matrix { cols: max_nq, rows: oris })
}

/// The number of objectives of the state `i` in the layer `l`: none past its own layers or past
/// the layers that are counted.
pub open spec fn objectives_of(
    num_layers: Seq<u8>,
    num_objectives: Matrix<u16>,
    i: int,
    l: int,
) -> nat {
    if l < num_layers[i] && l < num_objectives.cols {
        num_objectives.at(i, l) as nat
    } else {
        0
    }
}

/// The width of the arrays of the layer `l`: the larger of 1 and the largest number of
/// objectives that any of the first `n` states has there.
pub open spec fn layer_width(num_objectives: Matrix<u16>, l: int, n: nat) -> nat {
    if l < num_objectives.cols {
        at_least_one(column(num_objectives, l), n)
    } else {
        1
    }
}

/// The larger of 1 and the largest of the first `n` layer counts.
pub open spec fn layer_count(num_layers: Seq<u8>, n: nat) -> nat
    decreases n,
{
    if n == 0 {
        1
    } else {
        let before = layer_count(num_layers, (n - 1) as nat);
        if num_layers[n - 1] as nat > before {
            num_layers[n - 1] as nat
        } else {
            before
        }
    }
}

/// Whether a layer holds what is packed for it.
pub open spec fn layer_unpacked(
    layer: ObjectiveLayer,
    raw: Matrix<u8>,
    num_layers: Seq<u8>,
    num_objectives: Matrix<u16>,
    stride: int,
    l: int,
) -> bool {
    let n = raw.height();
    let width = layer_width(num_objectives, l, n);
    &&& layer.opcodes.wf() && layer.arg0s.wf() && layer.arg1s.wf()
    &&& layer.opcodes.height() == n && layer.arg0s.height() == n && layer.arg1s.height() == n
    &&& layer.opcodes.cols == width && layer.arg0s.cols == width && layer.arg1s.cols == width
    &&& forall|i: int, k: int|
        #![trigger layer.opcodes.at(i, k)]
        #![trigger layer.arg0s.at(i, k)]
        #![trigger layer.arg1s.at(i, k)]
        0 <= i < n && 0 <= k < width ==> objective_or_zero(
            raw.rows@[i]@,
            l * stride,
            objectives_of(num_layers, num_objectives, i, l),
            k,
        ) == (
            layer.opcodes.at(i, k) as int,
            layer.arg0s.at(i, k) as int,
            layer.arg1s.at(i, k) as int,
        )
}

/// Unpacks the objectives of every state, layer by layer, for as many layers as any state has,
/// at least one. What is past the objectives of a state is 0.
pub fn unpack_objectives_batch_rs(
    raw: &Matrix<u8>,
    num_layers: &Vec<u8>,
    num_objectives: &Matrix<u16>,
    layer_stride: usize,
) -> (r: Vec<ObjectiveLayer>)
    requires
        raw.wf(),
        num_objectives.wf(),
        num_layers@.len() >= raw.height(),
        num_objectives.cols > 0 ==> num_objectives.height() >= raw.height(),
        255 * layer_stride + 65535 * OBJECTIVE_SIZE <= usize::MAX,
        forall|i: int, l: int|
            #![trigger objectives_of(num_layers@, *num_objectives, i, l)]
            0 <= i < raw.height() && 0 <= l && objectives_of(num_layers@, *num_objectives, i, l) > 0
                ==> l * layer_stride + objectives_of(num_layers@, *num_objectives, i, l)
                * OBJECTIVE_SIZE <= raw.cols,
    ensures
        r@.len() == layer_count(num_layers@, num_layers@.len()),
        forall|l: int|
            0 <= l < r@.len() ==> layer_unpacked(
                #[trigger] r@[l],
                *raw,
                num_layers@,
                *num_objectives,
                layer_stride as int,
                l,
            ),
{
    let mut max_nl: usize = 1;
    let mut i: usize = 0;
    while i < num_layers.len()
        invariant
            i <= num_layers@.len(),
            max_nl == layer_count(num_layers@, i as nat),
            1 <= max_nl <= 255,
        decreases num_layers.len() - i,
    {
        let v: usize = num_layers[i] as usize;
        if v > max_nl {
            max_nl = v;
        }
        i += 1;
    }
    let mut result: Vec<ObjectiveLayer> = Vec::with_capacity(max_nl);
    let mut l: usize = 0;
    while l < max_nl
        invariant
            l <= max_nl,
            max_nl <= 255,
            raw.wf(),
            num_objectives.wf(),
            num_layers@.len() >= raw.height(),
            num_objectives.cols > 0 ==> num_objectives.height() >= raw.height(),
            255 * layer_stride + 65535 * OBJECTIVE_SIZE <= usize::MAX,
            forall|i: int, l: int|
                #![trigger objectives_of(num_layers@, *num_objectives, i, l)]
                0 <= i < raw.height() && 0 <= l && objectives_of(
                    num_layers@,
                    *num_objectives,
                    i,
                    l,
                ) > 0 ==> l * layer_stride + objectives_of(num_layers@, *num_objectives, i, l)
                    * OBJECTIVE_SIZE <= raw.cols,
            result@.len() == l,
            forall|a: int|
                0 <= a < l ==> layer_unpacked(
                    #[trigger] result@[a],
                    *raw,
                    num_layers@,
                    *num_objectives,
                    layer_stride as int,
                    a,
                ),
        decreases max_nl - l,
    {
        let layer: ObjectiveLayer = unpack_layer(raw, num_layers, num_objectives, layer_stride, l);
        result.push(layer);
        l += 1;
    }
    result
}

/// Unpacks the objectives of every state in one layer.
fn unpack_layer(
    raw: &Matrix<u8>,
    num_layers: &Vec<u8>,
    num_objectives: &Matrix<u16>,
    layer_stride: usize,
    l: usize,
) -> (r: ObjectiveLayer)
    requires
        raw.wf(),
        num_objectives.wf(),
        num_layers@.len() >= raw.height(),
        num_objectives.cols > 0 ==> num_objectives.height() >= raw.height(),
        255 * layer_stride + 65535 * OBJECTIVE_SIZE <= usize::MAX,
        l < 255,
        forall|i: int, l: int|
            #![trigger objectives_of(num_layers@, *num_objectives, i, l)]
            0 <= i < raw.height() && 0 <= l && objectives_of(num_layers@, *num_objectives, i, l) > 0
                ==> l * layer_stride + objectives_of(num_layers@, *num_objectives, i, l)
                * OBJECTIVE_SIZE <= raw.cols,
    ensures
        layer_unpacked(r, *raw, num_layers@, *num_objectives, layer_stride as int, l as int),
{
    let total: usize = raw.rows.len();
    let ghost col = column(*num_objectives, l as int);
    let counted: bool = l < num_objectives.cols;
    let mut width: usize = 1;
    if counted {
        let mut i: usize = 0;
        while i < total
            invariant
                i <= total,
                total <= num_objectives.height(),
                num_objectives.wf(),
                l < num_objectives.cols,
                col == column(*num_objectives, l as int),
                width == at_least_one(col, i as nat),
                1 <= width <= 65535,
            decreases total - i,
        {
            let v: usize = num_objectives.rows[i][l] as usize;
            assert(v == col[i as int]);
            if v > width {
                width = v;
            }
            i += 1;
        }
    }
    assert(l * layer_stride <= 255 * layer_stride) by (nonlinear_arith)
        requires
            l < 255,
    ;
    let start: usize = l * layer_stride;
    let mut ops: Vec<Vec<i32>> = Vec::with_capacity(total);
    let mut a0s: Vec<Vec<i32>> = Vec::with_capacity(total);
    let mut a1s: Vec<Vec<i32>> = Vec::with_capacity(total);
    let mut i: usize = 0;
    while i < total
        invariant
            i <= total,
            total == raw.height(),
            raw.wf(),
            num_objectives.wf(),
            num_layers@.len() >= total,
            num_objectives.cols > 0 ==> num_objectives.height() >= total,
            counted == (l < num_objectives.cols),
            start == l * layer_stride,
            start + 65535 * OBJECTIVE_SIZE <= usize::MAX,
            1 <= width <= 65535,
            col == column(*num_objectives, l as int),
            counted ==> width == at_least_one(col, total as nat),
            forall|i: int, l: int|
                #![trigger objectives_of(num_layers@, *num_objectives, i, l)]
                0 <= i < raw.height() && 0 <= l && objectives_of(
                    num_layers@,
                    *num_objectives,
                    i,
                    l,
                ) > 0 ==> l * layer_stride + objectives_of(num_layers@, *num_objectives, i, l)
                    * OBJECTIVE_SIZE <= raw.cols,
            ops@.len() == i,
            a0s@.len() == i,
            a1s@.len() == i,
            forall|a: int| 0 <= a < i ==> (#[trigger] ops@[a])@.len() == width,
            forall|a: int| 0 <= a < i ==> (#[trigger] a0s@[a])@.len() == width,
            forall|a: int| 0 <= a < i ==> (#[trigger] a1s@[a])@.len() == width,
            forall|a: int, k: int|
                #![trigger ops@[a]@[k]]
                #![trigger a0s@[a]@[k]]
                #![trigger a1s@[a]@[k]]
                0 <= a < i && 0 <= k < width ==> objective_or_zero(
                    raw.rows@[a]@,
                    start as int,
                    objectives_of(num_layers@, *num_objectives, a, l as int),
                    k,
                ) == (ops@[a]@[k] as int, a0s@[a]@[k] as int, a1s@[a]@[k] as int),
        decreases total - i,
    {
        let row: &Vec<u8> = &raw.rows[i];
        let no: usize = if counted && l < num_layers[i] as usize {
            num_objectives.rows[i][l] as usize
        } else {
            0
        };
        proof {
            assert(no == objectives_of(num_layers@, *num_objectives, i as int, l as int));
        }
        let mut op_row: Vec<i32> = Vec::with_capacity(width);
        let mut a0_row: Vec<i32> = Vec::with_capacity(width);
        let mut a1_row: Vec<i32> = Vec::with_capacity(width);
        let mut k: usize = 0;
        while k < width
            invariant
                k <= width,
                width <= 65535,
                no > 0 ==> start + no * OBJECTIVE_SIZE <= row@.len(),
                start + 65535 * OBJECTIVE_SIZE <= usize::MAX,
                op_row@.len() == k,
                a0_row@.len() == k,
                a1_row@.len() == k,
                forall|b: int|
                    #![trigger op_row@[b]]
                    #![trigger a0_row@[b]]
                    #![trigger a1_row@[b]]
                    0 <= b < k ==> objective_or_zero(row@, start as int, no as nat, b) == (
                        op_row@[b] as int,
                        a0_row@[b] as int,
                        a1_row@[b] as int,
                    ),
            decreases width - k,
        {
            if k < no {
                let o: usize = start + k * OBJECTIVE_SIZE;
                op_row.push(sign_extend(row[o]));
                a0_row.push(le_i32(row[o + 1], row[o + 2], row[o + 3], row[o + 4]));
                a1_row.push(le_i32(row[o + 5], row[o + 6], row[o + 7], row[o + 8]));
            } else {
                op_row.push(0);
                a0_row.push(0);
                a1_row.push(0);
            }
            k += 1;
        }
        ops.push(op_row);
        a0s.push(a0_row);
        a1s.push(a1_row);
        i += 1;
    }
    ObjectiveLayer {
        opcodes: Matrix { cols: width, rows: ops },
        arg0s: Matrix { cols: width, rows: a0s },
        arg1s: Matrix { cols: width, rows: a1s },
    }
}

/// Law: the arrays are wide enough, so no qubit of a state is cut off.
pub proof fn law_placement_fits(num_qubits: Seq<u16>, i: int)
    requires
        0 <= i < num_qubits.len(),
    ensures
        num_qubits[i] <= at_least_one(num_qubits, num_qubits.len()),
{
    lemma_at_least_one(num_qubits, num_qubits.len(), i);
}

/// Law: the arrays of a layer are wide enough, so no objective of a state is cut off.
pub proof fn law_objectives_fit(
    num_layers: Seq<u8>,
    num_objectives: Matrix<u16>,
    n: nat,
    i: int,
    l: int,
)
    requires
        0 <= i < n,
        0 <= l,
        num_objectives.cols > 0 ==> n <= num_objectives.height(),
    ensures
        objectives_of(num_layers, num_objectives, i, l) <= layer_width(num_objectives, l, n),
{
    if l < num_objectives.cols {
        lemma_at_least_one(column(num_objectives, l), n, i);
    }
}

} // verus!
