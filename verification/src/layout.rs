//! Laws of the flat buffers: where each field and byte lies in the words
//! and bytes that a device is handed and hands back.

use crate::eval::RunError;
use crate::gpu::{collected, BatchPlan, GpuParams, Resident};
use crate::ir::{Op, OpKind, Program};
use crate::kernel::{lane_result, lane_run, lane_step, narrow, packed_row, row_written};
use crate::laws::{lemma_starts_alike, starts_with};
use crate::pack::{
    addr_words, decode, flat_byte, is_packed, kind_code, kind_of_code, law_bytes_determine_words,
    native_byte, native_bytes, op_stream, stream_words, word_byte, words_for, zero_bytes,
};
use crate::semantics::step;
use vstd::endian::{endianness, Endian};
use vstd::prelude::*;

verus! {

/// A word is its four bytes, the first of least weight.
pub proof fn law_word_is_its_bytes(w: u32)
    ensures
        w == word_byte(w, 0) + 256 * word_byte(w, 1) + 65536 * word_byte(w, 2) + 16777216
            * word_byte(w, 3),
{
    assert(w == ((w >> 0) & 0xff) as u8 + 256 * (((w >> 8) & 0xff) as u8) + 65536 * (((w >> 16)
        & 0xff) as u8) + 16777216 * (((w >> 24) & 0xff) as u8)) by (bit_vector);
}

/// The codes of the instruction kinds in the op stream, and the kinds
/// that codes stand for; 18 and above stand for none.
pub proof fn law_kind_codes(code: u32)
    ensures
        kind_code(OpKind::SetImm) == 0,
        kind_code(OpKind::Copy) == 1,
        kind_code(OpKind::Not) == 2,
        kind_code(OpKind::Abs) == 3,
        kind_code(OpKind::And) == 4,
        kind_code(OpKind::Or) == 5,
        kind_code(OpKind::Xor) == 6,
        kind_code(OpKind::Add) == 7,
        kind_code(OpKind::Sub) == 8,
        kind_code(OpKind::Mul) == 9,
        kind_code(OpKind::Div) == 10,
        kind_code(OpKind::CmpEq) == 11,
        kind_code(OpKind::CmpNe) == 12,
        kind_code(OpKind::CmpLt) == 13,
        kind_code(OpKind::CmpLe) == 14,
        kind_code(OpKind::CmpGt) == 15,
        kind_code(OpKind::CmpGe) == 16,
        kind_code(OpKind::Select) == 17,
        code < 18 <==> kind_of_code(code) is Some,
        kind_of_code(code) matches Some(k) ==> kind_code(k) == code,
{
}

/// An instruction takes four words of the op stream: the first holds its
/// code, immediate and destination, the second `a` and `b`, the third
/// `c`, each from the low end up, and the fourth is zero.
pub proof fn law_instruction_layout(ops: Seq<Op>, k: int)
    requires
        0 <= k < ops.len(),
    ensures
        op_stream(ops).len() == 4 * ops.len(),
        op_stream(ops)[4 * k] == kind_code(ops[k].kind) + 256 * ops[k].imm + 65536 * ops[k].dst,
        op_stream(ops)[4 * k + 1] == ops[k].a + 65536 * ops[k].b,
        op_stream(ops)[4 * k + 2] == ops[k].c,
        op_stream(ops)[4 * k + 3] == 0,
{
    assert((4 * k) / 4 == k && (4 * k + 1) / 4 == k && (4 * k + 2) / 4 == k && (4 * k + 3) / 4
        == k);
}

/// Reading an instruction takes its fields from where they were put,
/// whatever the upper half of the third word holds.
pub proof fn law_instruction_fields(op: Op, spare: u16)
    ensures
        decode(
            (
                (kind_code(op.kind) + 256 * op.imm + 65536 * op.dst) as u32,
                (op.a + 65536 * op.b) as u32,
                (op.c + 65536 * spare) as u32,
            ),
        ) == Some(op),
{
    let code = kind_code(op.kind);
    let w0 = (code + 256 * op.imm + 65536 * op.dst) as u32;
    let w1 = (op.a + 65536 * op.b) as u32;
    let w2 = (op.c + 65536 * spare) as u32;
    law_kind_codes(code);
    assert(kind_of_code(code) == Some(op.kind));
    assert(w0 == code + 256 * op.imm + 65536 * op.dst);
    assert(w0 % 0x100 == code);
    assert(w0 / 0x1_0000 == op.dst);
    assert((w0 / 0x100) % 0x100 == op.imm);
    assert(w1 == op.a + 65536 * op.b);
    assert(w1 % 0x1_0000 == op.a);
    assert(w1 / 0x1_0000 == op.b);
    assert(w2 == op.c + 65536 * spare);
    assert(w2 % 0x1_0000 == op.c);
}

/// Words whose low byte is no code encode no instruction.
pub proof fn law_unknown_codes(w: (u32, u32, u32))
    ensures
        decode(w) is None <==> w.0 % 256 >= 18,
{
}

/// Words for `n` bytes: enough of them, and not one too many.
pub proof fn law_words_for(n: nat)
    ensures
        n <= 4 * words_for(n) < n + 4,
{
}

/// Word `i` of packed bytes is made of bytes `4 * i` to `4 * i + 3`, the
/// first of least weight, with zeros past the end.
pub proof fn law_packed_words(bytes: Seq<u8>, words: Seq<u32>, i: int)
    requires
        is_packed(bytes, words),
        0 <= i < words.len(),
    ensures
        bytes.len() <= 4 * words.len() < bytes.len() + 4,
        ({
            let b0 = bytes[4 * i];
            let b1 = if 4 * i + 1 < bytes.len() {
                bytes[4 * i + 1]
            } else {
                0
            };
            let b2 = if 4 * i + 2 < bytes.len() {
                bytes[4 * i + 2]
            } else {
                0
            };
            let b3 = if 4 * i + 3 < bytes.len() {
                bytes[4 * i + 3]
            } else {
                0
            };
            words[i] == b0 + 256 * b1 + 65536 * b2 + 16777216 * b3
        }),
{
    law_word_is_its_bytes(words[i]);
    assert(flat_byte(words, 4 * i) == word_byte(words[i], 0));
    assert(flat_byte(words, 4 * i + 1) == word_byte(words[i], 1));
    assert(flat_byte(words, 4 * i + 2) == word_byte(words[i], 2));
    assert(flat_byte(words, 4 * i + 3) == word_byte(words[i], 3));
}

/// Bytes `4 * i` to `4 * i + 3` of a matrix of words are the bytes of
/// word `i`, the first of least weight.
pub proof fn law_matrix_bytes(words: Seq<u32>, i: int)
    ensures
        words[i] == flat_byte(words, 4 * i) + 256 * flat_byte(words, 4 * i + 1) + 65536
            * flat_byte(words, 4 * i + 2) + 16777216 * flat_byte(words, 4 * i + 3),
{
    law_word_is_its_bytes(words[i]);
    assert((4 * i) / 4 == i && (4 * i + 1) / 4 == i && (4 * i + 2) / 4 == i && (4 * i + 3) / 4
        == i);
}

/// In memory a word takes four bytes, the first of least weight on a
/// little-endian machine and of most on a big-endian one.
pub proof fn law_words_in_memory(words: Seq<u32>, i: int)
    requires
        0 <= i < words.len(),
    ensures
        native_bytes(words).len() == 4 * words.len(),
        ({
            let b = native_bytes(words);
            match endianness() {
                Endian::Little => words[i] == b[4 * i] + 256 * b[4 * i + 1] + 65536 * b[4 * i + 2]
                    + 16777216 * b[4 * i + 3],
                Endian::Big => words[i] == b[4 * i + 3] + 256 * b[4 * i + 2] + 65536 * b[4 * i + 1]
                    + 16777216 * b[4 * i],
            }
        }),
{
    law_word_is_its_bytes(words[i]);
    assert((4 * i) / 4 == i && (4 * i + 1) / 4 == i && (4 * i + 2) / 4 == i && (4 * i + 3) / 4
        == i);
    assert(native_bytes(words)[4 * i] == native_byte(words, 4 * i));
    assert(native_bytes(words)[4 * i + 1] == native_byte(words, 4 * i + 1));
    assert(native_bytes(words)[4 * i + 2] == native_byte(words, 4 * i + 2));
    assert(native_bytes(words)[4 * i + 3] == native_byte(words, 4 * i + 3));
}

/// An address table holds one word per address, in order; cleared memory
/// holds zeros.
pub proof fn law_tables(addrs: Seq<u16>, n: nat, i: int)
    ensures
        addr_words(addrs).len() == addrs.len(),
        0 <= i < addrs.len() ==> addr_words(addrs)[i] == addrs[i],
        narrow(addr_words(addrs), addrs.len()) == addrs,
        zero_bytes(n).len() == n,
        0 <= i < n ==> zero_bytes(n)[i] == 0,
{
    assert(narrow(addr_words(addrs), addrs.len()) =~= addrs);
}

/// The uniform block holds the five launch arguments in order: the
/// instances, the instructions, the inputs, the outputs, and the words
/// that hold the cells 0 to `max_addr` of an instance.
pub proof fn law_uniform_block(p: GpuParams, prog: Program, n: nat)
    requires
        p.is_for(prog, n),
    ensures
        p.n_instances == n,
        p.n_ops == prog.kinds@.len(),
        p.n_in == prog.inputs@.len(),
        p.n_out == prog.outputs@.len(),
        prog.max_addr < 4 * p.cell_words <= prog.max_addr + 4,
        p.words().len() == 5,
        p.words()[0] == p.n_instances,
        p.words()[1] == p.n_ops,
        p.words()[2] == p.n_in,
        p.words()[3] == p.n_out,
        p.words()[4] == p.cell_words,
{
}

/// What stays on the device for a program: its op stream and its address
/// tables, whole words for the cells 0 to `max_addr` of every instance,
/// and one trap word for each.
pub proof fn law_resident_buffers(
    r: Resident,
    prog: Program,
    ops: Seq<u32>,
    in_addrs: Seq<u32>,
    out_addrs: Seq<u32>,
)
    requires
        r.is_of(prog),
        native_bytes(ops) == r.ops@,
        native_bytes(in_addrs) == r.in_addrs@,
        native_bytes(out_addrs) == r.out_addrs@,
    ensures
        ops == op_stream(prog.ops()),
        in_addrs.len() == prog.inputs@.len(),
        forall|i: int| 0 <= i < in_addrs.len() ==> #[trigger] in_addrs[i] == prog.inputs@[i],
        out_addrs.len() == prog.outputs@.len(),
        forall|i: int| 0 <= i < out_addrs.len() ==> #[trigger] out_addrs[i] == prog.outputs@[i],
        r.n_ops == prog.kinds@.len(),
        r.n_in == prog.inputs@.len(),
        r.n_out == prog.outputs@.len(),
        prog.max_addr < 4 * r.cell_words <= prog.max_addr + 4,
        r.cells_bytes == r.capacity * (4 * r.cell_words),
        r.traps_bytes == 4 * r.capacity,
{
    law_bytes_determine_words(ops, op_stream(prog.ops()));
    law_bytes_determine_words(in_addrs, addr_words(prog.inputs@));
    law_bytes_determine_words(out_addrs, addr_words(prog.outputs@));
    assert(r.capacity * r.cell_words * 4 == r.capacity * (4 * r.cell_words)) by (nonlinear_arith);
}

/// A batch uploads its packed instances and a zeroed output matrix that
/// holds every output byte, and launches as many workgroups of 64 lanes
/// as have an instance to run.
pub proof fn law_batch_buffers(
    plan: BatchPlan,
    instances: Seq<u8>,
    n: nat,
    n_out: nat,
    inputs: Seq<u32>,
)
    requires
        plan.is_for(instances, n, n_out),
        native_bytes(inputs) == plan.inputs@,
    ensures
        is_packed(instances, inputs),
        n * n_out <= 4 * plan.out_words < n * n_out + 4,
        plan.outputs@.len() == 4 * plan.out_words,
        forall|i: int| 0 <= i < plan.outputs@.len() ==> #[trigger] plan.outputs@[i] == 0,
        n <= 64 * plan.groups < n + 64,
{
    let packed = choose|words: Seq<u32>|
        is_packed(instances, words) && plan.inputs@ == #[trigger] native_bytes(words);
    law_bytes_determine_words(inputs, packed);
    law_words_for(n * n_out);
}

/// Rows lie end to end in a packed matrix: byte `j` of row `inst` is byte
/// `inst * width + j` of the matrix.
pub proof fn law_packed_rows(words: Seq<u32>, inst: int, width: nat, j: int)
    requires
        0 <= j < width,
    ensures
        packed_row(words, inst, width).len() == width,
        packed_row(words, inst, width)[j] == flat_byte(words, inst * width + j),
{
}

/// What is collected from a batch: if no instance raised its trap flag,
/// one row of output bytes for each, in order; otherwise the first that
/// did, with no position of the instruction.
pub proof fn law_collected_answers(
    words: Seq<u32>,
    traps: Seq<u32>,
    n_out: nat,
    n: nat,
    r: Result<Vec<Vec<u8>>, (usize, RunError)>,
    i: int,
)
    requires
        collected(words, traps, n_out, n, r),
        0 <= i < n,
    ensures
        r is Ok <==> (forall|k: int| 0 <= k < n ==> #[trigger] traps[k] == 0),
        r matches Ok(rows) ==> {
            &&& rows@.len() == n
            &&& rows@[i]@.len() == n_out
            &&& forall|j: int|
                0 <= j < n_out ==> #[trigger] rows@[i]@[j] == flat_byte(words, i * n_out + j)
        },
        r matches Err((k, e)) ==> {
            &&& k < n
            &&& traps[k as int] != 0
            &&& i < k ==> traps[i] == 0
            &&& e matches RunError::DivideByZero { op_index } && op_index == usize::MAX
        },
{
    match r {
        Ok(rows) => {
            assert(rows@[i]@ == packed_row(words, i, n_out));
        },
        Err((k, e)) => {
            assert(traps[k as int] != 0);
        },
    }
}

/// Writing a row changes its own bytes of the matrix and no other.
pub proof fn law_written_rows(before: Seq<u32>, after: Seq<u32>, inst: int, row: Seq<u8>, i: int)
    requires
        row_written(before, after, inst, row),
        0 <= i < 4 * before.len(),
    ensures
        after.len() == before.len(),
        0 <= i - inst * row.len() < row.len() ==> flat_byte(after, i) == row[i - inst
            * row.len()],
        !(0 <= i - inst * row.len() < row.len()) ==> flat_byte(after, i) == flat_byte(before, i),
{
}

/// One instruction of the op stream does to a lane what it does to the
/// machine; an instruction that traps, or that is none, leaves the cells
/// alone and raises flag 1 or 2.
pub proof fn law_lane_steps(words: (u32, u32, u32), op: Op, mem: Seq<u8>)
    ensures
        words.0 % 256 >= 18 ==> lane_step(words, mem) == (mem, 2u32),
        decode(words) == Some(op) && step(op, mem) is None ==> lane_step(words, mem) == (mem, 1u32),
        decode(words) == Some(op) && step(op, mem) is Some ==> lane_step(words, mem) == (
            step(op, mem)->0,
            0u32,
        ),
{
}

/// A lane walks the op stream instruction by instruction: however the
/// stream is split, the second part runs on the cells that the first
/// leaves, unless the first raised a flag, which ends the walk.
pub proof fn law_lane_runs_compose(stream: Seq<u32>, j: nat, k: nat, mem: Seq<u8>)
    requires
        4 * (j + k) <= stream.len(),
    ensures
        lane_run(stream, 0, mem) == (mem, 0u32),
        stream.len() >= 4 ==> lane_run(stream, 1, mem) == lane_step(
            (stream[0], stream[1], stream[2]),
            mem,
        ),
        lane_run(stream, j + k, mem) == (if lane_run(stream, j, mem).1 != 0 {
            lane_run(stream, j, mem)
        } else {
            lane_run(stream.skip((4 * j) as int), k, lane_run(stream, j, mem).0)
        }),
    decreases k,
{
    reveal_with_fuel(lane_run, 2);
    if k > 0 {
        law_lane_runs_compose(stream, j, (k - 1) as nat, mem);
        let rest = stream.skip((4 * j) as int);
        assert(stream_words(rest, k - 1) == stream_words(stream, j + k - 1));
        assert((j + k - 1) as nat == j + (k - 1) as nat);
    }
}

/// A lane runs its instance from the cells that the instance starts from:
/// its row in the input cells, the last where several share one, and
/// zeros elsewhere.
pub proof fn law_lanes_start_clean(
    stream: Seq<u32>,
    n_ops: nat,
    in_addrs: Seq<u32>,
    inputs: Seq<u32>,
    inst: int,
    n_in: nat,
    mem: Seq<u8>,
)
    requires
        starts_with(narrow(in_addrs, n_in), packed_row(inputs, inst, n_in), mem),
    ensures
        lane_result(stream, n_ops, in_addrs, inputs, inst, n_in) == lane_run(stream, n_ops, mem),
{
    let addrs = narrow(in_addrs, n_in);
    let row = packed_row(inputs, inst, n_in);
    lemma_starts_alike(addrs, row, mem);
}

} // verus!
