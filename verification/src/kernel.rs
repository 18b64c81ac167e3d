//! The interpreter in pure 32-bit arithmetic over byte-packed words, one
//! lane per instance: the model of what a compute backend executes for
//! each lane. What devices run are copies of it in their own languages,
//! which are not verified; the shader text differs from it in that it
//! leaves zeros in the output row of a trapped lane.
//!
//! What is proved of several lanes is proved of lanes that run one at a
//! time, in any order. Lanes of neighbouring instances share output words
//! when the row width is no multiple of 4; how a device interleaves their
//! reads and writes of such a word is outside the model.
//!
//! Signed compares use the sign-bias trick and floor division works on
//! magnitudes, so the same arithmetic works on every backend. Division
//! by zero sets a per-instance trap flag instead of unwinding.

use crate::ir::{Op, Program};
use crate::pack::{
    addr_words, decode, flat_byte, is_packed, kind_of_code,
    law_decode_inverts_encode, lemma_or_byte, lemma_put_byte, lemma_zero_word, op_stream, op_words,
    stream_words, word_byte,
};
use crate::runner::row_of;
use crate::semantics::{
    address_space, as_signed, blank, compute, eval_op, floor_div, gather,
    lemma_floor_div_by_magnitudes, load, magnitude, run_ops, step, to_byte, truth,
};
use vstd::prelude::*;

verus! {

/// The byte that a stored word contributes: its low byte.
pub open spec fn low_byte(v: u32) -> u8 {
    (v & 0xff) as u8
}

/// The low byte of a word is its residue modulo 256.
proof fn lemma_low_byte(v: u32)
    ensures
        low_byte(v) == to_byte(v as int),
        v <= 0xff ==> low_byte(v) == v,
{
    assert(v & 0xff == v % 256) by (bit_vector);
}

/// The cells of the lane that owns `cell_words` words from `base` on,
/// seen as the whole address space.
pub open spec fn lane_mem(cells: Seq<u32>, base: int, cell_words: int) -> Seq<u8> {
    Seq::new(
        address_space(),
        |i: int|
            if i < 4 * cell_words {
                word_byte(cells[base + i / 4], (i % 4) as nat)
            } else {
                0
            },
    )
}

/// `after` differs from `before` in the words of one lane at most.
pub open spec fn only_lane_changed(
    before: Seq<u32>,
    after: Seq<u32>,
    base: int,
    cell_words: int,
) -> bool {
    &&& after.len() == before.len()
    &&& forall|i: int|
        0 <= i < before.len() && !(base <= i < base + cell_words) ==> (#[trigger] after[i])
            == before[i]
}

/// Byte `idx` of the lane that starts at word `base`.
fn cell_get(cells: &[u32], base: usize, idx: u32) -> (v: u32)
    requires
        base + idx / 4 < cells@.len(),
    ensures
        v == word_byte(cells@[base + idx / 4], (idx % 4) as nat),
        v <= 0xff,
{
    assert(cells@.len() == cells.len());
    let w: u32 = cells[base + (idx / 4) as usize];
    let s: u32 = (idx % 4) * 8;
    assert((w >> s) & 0xff <= 0xff) by (bit_vector);
    (w >> s) & 0xff
}

/// The word `w` with byte `k` replaced by the low byte of `v`.
pub open spec fn with_byte(w: u32, k: u32, v: u32) -> u32 {
    (w & !(0xffu32 << ((8 * k) as u32))) | ((v & 0xff) << ((8 * k) as u32))
}

/// Store the low byte of `v` as byte `idx` of the lane that starts at
/// word `base`.
fn cell_set(cells: &mut [u32], base: usize, idx: u32, v: u32)
    requires
        base + idx / 4 < old(cells)@.len(),
    ensures
        final(cells)@ == old(cells)@.update(
            base + idx / 4,
            with_byte(old(cells)@[base + idx / 4], idx % 4, v),
        ),
{
    assert(cells@.len() == cells.len());
    let wi: usize = base + (idx / 4) as usize;
    let sh: u32 = (idx % 4) * 8;
    let w: u32 = cells[wi];
    cells[wi] = (w & !(0xffu32 << sh)) | ((v & 0xff) << sh);
}

/// Storing a byte of a lane updates that cell of the lane and nothing
/// else.
proof fn lemma_lane_store(cells: Seq<u32>, base: int, cell_words: int, idx: u32, v: u32)
    requires
        0 <= base,
        idx < 4 * cell_words,
        idx < address_space(),
        base + cell_words <= cells.len(),
    ensures
        ({
            let after = cells.update(
                base + idx / 4,
                with_byte(cells[base + idx / 4], idx % 4, v),
            );
            &&& lane_mem(after, base, cell_words) == lane_mem(cells, base, cell_words).update(
                idx as int,
                low_byte(v),
            )
            &&& only_lane_changed(cells, after, base, cell_words)
        }),
{
    let w = cells[base + idx / 4];
    let after = cells.update(base + idx / 4, with_byte(w, idx % 4, v));
    let mem = lane_mem(cells, base, cell_words).update(idx as int, low_byte(v));
    let now = lane_mem(after, base, cell_words);
    assert forall|i: int| 0 <= i < address_space() implies #[trigger] now[i] == mem[i] by {
        if i < 4 * cell_words && i / 4 == idx / 4 {
            lemma_put_byte(w, idx % 4, v, (i % 4) as u32);
        }
    }
    assert(now =~= mem);
}

/// Signed less-than on 8-bit interpretations, in pure u32: shift both
/// bytes to the top, flip the sign bit, compare unsigned.
fn signed_lt(x: u32, y: u32) -> (b: bool)
    requires
        x <= 0xff,
        y <= 0xff,
    ensures
        b == (as_signed(x as u8) < as_signed(y as u8)),
{
    let sx: u32 = (x << 24) ^ 0x8000_0000;
    let sy: u32 = (y << 24) ^ 0x8000_0000;
    assert(sx == (if x < 128 {
        (x + 128) * 0x100_0000
    } else {
        (x - 128) * 0x100_0000
    })) by (bit_vector)
        requires
            x <= 0xff,
            sx == (x << 24) ^ 0x8000_0000,
    ;
    assert(sy == (if y < 128 {
        (y + 128) * 0x100_0000
    } else {
        (y - 128) * 0x100_0000
    })) by (bit_vector)
        requires
            y <= 0xff,
            sy == (y << 24) ^ 0x8000_0000,
    ;
    sx < sy
}

fn select_u32(otherwise: u32, chosen: u32, cond: bool) -> (v: u32)
    ensures
        v == (if cond {
            chosen
        } else {
            otherwise
        }),
{
    let mut out: u32 = otherwise;
    if cond {
        out = chosen;
    }
    out
}

fn bool_u32(b: bool) -> (v: u32)
    ensures
        v == truth(b),
        v <= 1,
{
    select_u32(0, 1, b)
}

/// Negated byte, in two's complement.
fn negated(x: u32) -> (v: u32)
    requires
        x <= 0x100,
    ensures
        v == (256 - x) % 256,
{
    let v: u32 = (!x).wrapping_add(1) & 0xff;
    assert(v == (if x == 0 || x == 256 {
        0
    } else {
        256 - x
    })) by {
        let c: u32 = (!x);
        assert(c == 0xffff_ffffu32 - x) by (bit_vector)
            requires
                c == !x,
        ;
        let d: u32 = c.wrapping_add(1);
        assert(x == 0 ==> d == 0);
        assert(x > 0 ==> d == 0x1_0000_0000 - x);
        assert(d & 0xff == d % 256) by (bit_vector);
    }
    v
}

/// Magnitude of a byte's signed reading.
fn byte_magnitude(x: u32) -> (m: u32)
    requires
        x <= 0xff,
    ensures
        m == magnitude(as_signed(x as u8)),
{
    let s: u32 = x >> 7;
    assert(s == (if x < 128 {
        0u32
    } else {
        1u32
    }) && (x < 128 ==> x & 0x7f == x)) by (bit_vector)
        requires
            x <= 0xff,
            s == x >> 7,
    ;
    select_u32(x & 0x7f, negated(x), s == 1)
}

/// Floor division on signed interpretations, via magnitudes.
fn floor_div_u32(x: u32, y: u32) -> (v: u32)
    requires
        x <= 0xff,
        0 < y <= 0xff,
    ensures
        v == to_byte(floor_div(as_signed(x as u8), as_signed(y as u8))),
{
    let xs: u32 = x >> 7;
    let ys: u32 = y >> 7;
    assert(xs == (if x < 128 {
        0u32
    } else {
        1u32
    })) by (bit_vector)
        requires
            x <= 0xff,
            xs == x >> 7,
    ;
    assert(ys == (if y < 128 {
        0u32
    } else {
        1u32
    })) by (bit_vector)
        requires
            y <= 0xff,
            ys == y >> 7,
    ;
    let xm: u32 = byte_magnitude(x);
    let ym: u32 = byte_magnitude(y);
    proof {
        lemma_floor_div_by_magnitudes(as_signed(x as u8), as_signed(y as u8));
    }
    let mut q: u32 = xm / ym;
    let r: u32 = xm % ym;
    if r != 0 && xs != ys {
        q = q + 1;
    }
    proof {
        let quotient = floor_div(as_signed(x as u8), as_signed(y as u8));
        if xs != ys {
            assert(quotient == -(q as int));
            assert((256 - q) % 256 == (-(q as int)) % 256);
        } else {
            assert(quotient == q);
        }
    }
    select_u32(q, negated(q), xs != ys)
}

/// What one instruction of the op stream does to a lane: the cells after
/// it and the trap flag it raises (1 for a division by zero, 2 for an
/// unknown kind).
pub open spec fn lane_step(words: (u32, u32, u32), mem: Seq<u8>) -> (Seq<u8>, u32) {
    match decode(words) {
        None => (mem, 2),
        Some(op) => match step(op, mem) {
            Some(m) => (m, 0),
            None => (mem, 1),
        },
    }
}

/// The cells of a lane and its trap flag after the first `k`
/// instructions of the op stream: a raised flag stops the lane.
pub open spec fn lane_run(stream: Seq<u32>, k: nat, mem: Seq<u8>) -> (Seq<u8>, u32)
    decreases k,
{
    if k == 0 {
        (mem, 0)
    } else {
        let (m, trap) = lane_run(stream, (k - 1) as nat, mem);
        if trap != 0 {
            (m, trap)
        } else {
            lane_step(stream_words(stream, k - 1), m)
        }
    }
}

/// The words of the op stream encode an unknown kind, or an instruction
/// whose cells lie within the lane.
pub open spec fn step_within(words: (u32, u32, u32), cell_words: nat) -> bool {
    decode(words) matches Some(op) ==> op.within(4 * cell_words)
}

/// The stored low byte of `v` is what an instruction of kind `kind`
/// computes from the bytes of its operands.
spec fn computes(kind: u32, imm: u32, x: u32, y: u32, z: u32, v: u32) -> bool {
    kind_of_code(kind) matches Some(k) && compute(k, imm as u8, x as u8, y as u8, z as u8) == Some(
        low_byte(v),
    )
}

/// Moves and bitwise kinds, codes 0 to 6.
fn alu_bits(kind: u32, imm: u32, x: u32, y: u32, z: u32) -> (v: u32)
    requires
        kind <= 6,
        imm <= 0xff,
        x <= 0xff,
        y <= 0xff,
    ensures
        computes(kind, imm, x, y, z, v),
{
    let v: u32 = if kind == 0 {
        imm
    } else if kind == 1 {
        x
    } else if kind == 2 {
        assert(x ^ 0xff == 255 - x) by (bit_vector)
            requires
                x <= 0xff,
        ;
        x ^ 0xff
    } else if kind == 3 {
        byte_magnitude(x)
    } else if kind == 4 {
        assert((x & y) <= 0xff && ((x & y) as u8) == ((x as u8) & (y as u8))) by (bit_vector)
            requires
                x <= 0xff,
                y <= 0xff,
        ;
        x & y
    } else if kind == 5 {
        assert((x | y) <= 0xff && ((x | y) as u8) == ((x as u8) | (y as u8))) by (bit_vector)
            requires
                x <= 0xff,
                y <= 0xff,
        ;
        x | y
    } else {
        assert((x ^ y) <= 0xff && ((x ^ y) as u8) == ((x as u8) ^ (y as u8))) by (bit_vector)
            requires
                x <= 0xff,
                y <= 0xff,
        ;
        x ^ y
    };
    proof {
        lemma_low_byte(v);
    }
    v
}

/// Arithmetic kinds, codes 7 to 10; the divisor is not zero.
fn alu_arithmetic(kind: u32, imm: u32, x: u32, y: u32, z: u32) -> (v: u32)
    requires
        7 <= kind <= 10,
        x <= 0xff,
        y <= 0xff,
        kind == 10 ==> y != 0,
    ensures
        computes(kind, imm, x, y, z, v),
{
    let v: u32 = if kind == 7 {
        x.wrapping_add(y)
    } else if kind == 8 {
        x.wrapping_sub(y)
    } else if kind == 9 {
        assert(0 <= x * y <= 0xff * 0xff) by (nonlinear_arith)
            requires
                x <= 0xff,
                y <= 0xff,
        ;
        x.wrapping_mul(y)
    } else {
        floor_div_u32(x, y)
    };
    proof {
        lemma_low_byte(v);
    }
    v
}

/// Comparisons and `select`, codes 11 to 17.
fn alu_choice(kind: u32, imm: u32, x: u32, y: u32, z: u32) -> (v: u32)
    requires
        11 <= kind <= 17,
        x <= 0xff,
        y <= 0xff,
        z <= 0xff,
    ensures
        computes(kind, imm, x, y, z, v),
{
    let v: u32 = if kind == 11 {
        bool_u32(x == y)
    } else if kind == 12 {
        bool_u32(x != y)
    } else if kind == 13 {
        bool_u32(signed_lt(x, y))
    } else if kind == 14 {
        bool_u32(!signed_lt(y, x))
    } else if kind == 15 {
        bool_u32(signed_lt(y, x))
    } else if kind == 16 {
        bool_u32(!signed_lt(x, y))
    } else {
        select_u32(z, y, x != 0)
    };
    proof {
        lemma_low_byte(v);
    }
    v
}

/// The word that an instruction of kind `kind` computes from the bytes
/// of its operands, and the trap flag it raises.
fn alu(kind: u32, imm: u32, x: u32, y: u32, z: u32) -> (r: (u32, u32))
    requires
        imm <= 0xff,
        x <= 0xff,
        y <= 0xff,
        z <= 0xff,
    ensures
        match kind_of_code(kind) {
            None => r.1 == 2,
            Some(k) => match compute(k, imm as u8, x as u8, y as u8, z as u8) {
                None => r.1 == 1,
                Some(byte) => r.1 == 0 && low_byte(r.0) == byte,
            },
        },
{
    if kind <= 6 {
        (alu_bits(kind, imm, x, y, z), 0)
    } else if kind == 10 && y == 0 {
        (0, 1)
    } else if kind <= 10 {
        (alu_arithmetic(kind, imm, x, y, z), 0)
    } else if kind <= 17 {
        (alu_choice(kind, imm, x, y, z), 0)
    } else {
        (0, 2)
    }
}

/// Execute one instruction of the op stream on a lane; returns the trap
/// flag it raises.
fn packed_step(
    o0: u32,
    o1: u32,
    o2: u32,
    cells: &mut [u32],
    base: usize,
    cell_words: usize,
) -> (trap: u32)
    requires
        step_within((o0, o1, o2), cell_words as nat),
        base + cell_words <= old(cells)@.len(),
    ensures
        (lane_mem(final(cells)@, base as int, cell_words as int), trap) == lane_step(
            (o0, o1, o2),
            lane_mem(old(cells)@, base as int, cell_words as int),
        ),
        only_lane_changed(old(cells)@, final(cells)@, base as int, cell_words as int),
{
    let kind: u32 = o0 & 0xff;
    let imm: u32 = (o0 >> 8) & 0xff;
    let dst: u32 = o0 >> 16;
    let a: u32 = o1 & 0xffff;
    let b: u32 = o1 >> 16;
    let c: u32 = o2 & 0xffff;
    assert(kind == o0 % 0x100 && imm == (o0 / 0x100) % 0x100 && dst == o0 / 0x1_0000)
        by (bit_vector)
        requires
            kind == o0 & 0xff,
            imm == (o0 >> 8) & 0xff,
            dst == o0 >> 16,
    ;
    assert(a == o1 % 0x1_0000 && b == o1 / 0x1_0000 && c == o2 % 0x1_0000) by (bit_vector)
        requires
            a == o1 & 0xffff,
            b == o1 >> 16,
            c == o2 & 0xffff,
    ;
    if kind > 17 {
        return 2;
    }
    let ghost mem = lane_mem(cells@, base as int, cell_words as int);
    let ghost op = decode((o0, o1, o2))->0;
    let x: u32 = if kind >= 1 {
        cell_get(cells, base, a)
    } else {
        0
    };
    let y: u32 = if kind >= 4 {
        cell_get(cells, base, b)
    } else {
        0
    };
    let z: u32 = if kind == 17 {
        cell_get(cells, base, c)
    } else {
        0
    };
    let (v, trap) = alu(kind, imm, x, y, z);
    proof {
        assert(compute(op.kind, op.imm, x as u8, y as u8, z as u8) == eval_op(op, mem));
    }
    if trap == 0 {
        proof {
            lemma_lane_store(cells@, base as int, cell_words as int, dst, v);
        }
        cell_set(cells, base, dst, v);
    }
    trap
}

/// Address words as addresses.
pub open spec fn narrow(words: Seq<u32>, n: nat) -> Seq<u16> {
    Seq::new(n, |j: int| words[j] as u16)
}

/// Row `inst` of a byte-packed matrix whose rows have `width` bytes.
pub open spec fn packed_row(words: Seq<u32>, inst: int, width: nat) -> Seq<u8> {
    Seq::new(width, |j: int| flat_byte(words, inst * width + j))
}

/// The first `n` address words are 16-bit and lie within a lane of
/// `cell_words` words.
pub open spec fn addrs_within(words: Seq<u32>, n: nat, cell_words: nat) -> bool {
    &&& n <= words.len()
    &&& forall|j: int|
        0 <= j < n ==> (#[trigger] words[j]) < 4 * cell_words && words[j] < address_space()
}

/// The first `n_ops` instructions of the op stream lie within a lane of
/// `cell_words` words.
pub open spec fn stream_within(stream: Seq<u32>, n_ops: nat, cell_words: nat) -> bool {
    &&& 4 * n_ops <= stream.len()
    &&& forall|k: int|
        0 <= k < n_ops ==> step_within(#[trigger] stream_words(stream, k), cell_words)
}

/// The packed matrix holds row `inst`, of `width` bytes.
pub open spec fn holds_row(words: Seq<u32>, inst: nat, width: nat) -> bool {
    &&& (inst + 1) * width <= 4 * words.len()
    &&& (inst + 1) * width <= usize::MAX
}

/// The cells of a lane and its trap flag once it has run instance
/// `inst`: cleared cells, the instance's row stored into the input
/// cells, then the op stream.
pub open spec fn lane_result(
    stream: Seq<u32>,
    n_ops: nat,
    in_addrs: Seq<u32>,
    inputs: Seq<u32>,
    inst: int,
    n_in: nat,
) -> (Seq<u8>, u32) {
    lane_run(
        stream,
        n_ops,
        load(narrow(in_addrs, n_in), packed_row(inputs, inst, n_in), n_in, blank()),
    )
}

/// Position `inst * width + j` in a matrix that holds row `inst`.
proof fn lemma_flat_position(inst: nat, width: nat, j: nat)
    requires
        j < width,
    ensures
        0 <= inst * width,
        inst * width + j < (inst + 1) * width,
        (inst + 1) * width == inst * width + width,
{
    assert((inst + 1) * width == inst * width + width) by (nonlinear_arith);
    assert(0 <= inst * width) by (nonlinear_arith);
}

/// Clear a lane and store row `inst` of the packed inputs into its input
/// cells.
fn load_lane(
    inst: usize,
    in_addrs: &[u32],
    inputs: &[u32],
    cells: &mut [u32],
    base: usize,
    n_in: usize,
    cell_words: usize,
)
    requires
        addrs_within(in_addrs@, n_in as nat, cell_words as nat),
        holds_row(inputs@, inst as nat, n_in as nat),
        base + cell_words <= old(cells)@.len(),
    ensures
        lane_mem(final(cells)@, base as int, cell_words as int) == load(
            narrow(in_addrs@, n_in as nat),
            packed_row(inputs@, inst as int, n_in as nat),
            n_in as nat,
            blank(),
        ),
        only_lane_changed(old(cells)@, final(cells)@, base as int, cell_words as int),
{
    assert(cells@.len() == cells.len());
    for i in 0..cell_words
        invariant
            base + cell_words <= cells@.len(),
            cells@.len() == old(cells)@.len(),
            cells@.len() == cells.len(),
            only_lane_changed(old(cells)@, cells@, base as int, cell_words as int),
            forall|k: int| base <= k < base + i ==> (#[trigger] cells@[k]) == 0,
    {
        cells[base + i] = 0;
    }
    proof {
        let mem = lane_mem(cells@, base as int, cell_words as int);
        assert forall|i: int| 0 <= i < address_space() implies #[trigger] mem[i] == blank()[i] by {
            lemma_zero_word((i % 4) as nat);
        }
        assert(mem =~= blank());
    }
    let ghost addrs = narrow(in_addrs@, n_in as nat);
    let ghost row = packed_row(inputs@, inst as int, n_in as nat);
    for j in 0..n_in
        invariant
            addrs == narrow(in_addrs@, n_in as nat),
            row == packed_row(inputs@, inst as int, n_in as nat),
            addrs_within(in_addrs@, n_in as nat, cell_words as nat),
            holds_row(inputs@, inst as nat, n_in as nat),
            base + cell_words <= cells@.len(),
            only_lane_changed(old(cells)@, cells@, base as int, cell_words as int),
            lane_mem(cells@, base as int, cell_words as int) == load(addrs, row, j as nat, blank()),
    {
        proof {
            lemma_flat_position(inst as nat, n_in as nat, j as nat);
        }
        let flat: usize = inst * n_in + j;
        let w: u32 = inputs[flat / 4];
        let s: u32 = ((flat % 4) * 8) as u32;
        let b: u32 = (w >> s) & 0xff;
        let addr: u32 = in_addrs[j];
        proof {
            assert(b <= 0xff) by (bit_vector)
                requires
                    b == (w >> s) & 0xff,
            ;
            lemma_low_byte(b);
            lemma_lane_store(cells@, base as int, cell_words as int, addr, b);
        }
        cell_set(cells, base, addr, b);
    }
}

/// Walk the op stream on a loaded lane until it ends or a trap is
/// raised; returns the trap flag.
fn run_lane(ops: &[u32], cells: &mut [u32], base: usize, n_ops: usize, cell_words: usize) -> (trap:
    u32)
    requires
        stream_within(ops@, n_ops as nat, cell_words as nat),
        base + cell_words <= old(cells)@.len(),
    ensures
        (lane_mem(final(cells)@, base as int, cell_words as int), trap) == lane_run(
            ops@,
            n_ops as nat,
            lane_mem(old(cells)@, base as int, cell_words as int),
        ),
        only_lane_changed(old(cells)@, final(cells)@, base as int, cell_words as int),
{
    let ghost start = lane_mem(cells@, base as int, cell_words as int);
    assert(ops@.len() == ops.len());
    let mut trap: u32 = 0;
    for k in 0..n_ops
        invariant
            stream_within(ops@, n_ops as nat, cell_words as nat),
            ops@.len() == ops.len(),
            base + cell_words <= cells@.len(),
            only_lane_changed(old(cells)@, cells@, base as int, cell_words as int),
            (lane_mem(cells@, base as int, cell_words as int), trap) == lane_run(
                ops@,
                k as nat,
                start,
            ),
    {
        if trap == 0 {
            assert(step_within(stream_words(ops@, k as int), cell_words as nat));
            trap = packed_step(ops[k * 4], ops[k * 4 + 1], ops[k * 4 + 2], cells, base, cell_words);
        }
    }
    trap
}

/// Or the output cells of a lane into row `inst` of the packed outputs.
fn emit_row(
    inst: usize,
    out_addrs: &[u32],
    cells: &[u32],
    outputs: &mut [u32],
    base: usize,
    n_out: usize,
    cell_words: usize,
)
    requires
        addrs_within(out_addrs@, n_out as nat, cell_words as nat),
        holds_row(old(outputs)@, inst as nat, n_out as nat),
        base + cell_words <= cells@.len(),
        packed_row(old(outputs)@, inst as int, n_out as nat) == Seq::new(
            n_out as nat,
            |j: int| 0u8,
        ),
    ensures
        row_written(
            old(outputs)@,
            final(outputs)@,
            inst as int,
            gather(
                narrow(out_addrs@, n_out as nat),
                lane_mem(cells@, base as int, cell_words as int),
            ),
        ),
{
    let ghost mem = lane_mem(cells@, base as int, cell_words as int);
    let ghost first = inst * n_out;
    for j in 0..n_out
        invariant
            addrs_within(out_addrs@, n_out as nat, cell_words as nat),
            holds_row(old(outputs)@, inst as nat, n_out as nat),
            outputs@.len() == old(outputs)@.len(),
            base + cell_words <= cells@.len(),
            mem == lane_mem(cells@, base as int, cell_words as int),
            first == inst * n_out,
            packed_row(old(outputs)@, inst as int, n_out as nat) == Seq::new(
                n_out as nat,
                |j: int| 0u8,
            ),
            forall|i: int|
                0 <= i < 4 * outputs@.len() ==> #[trigger] flat_byte(outputs@, i) == (if first <= i
                    < first + j {
                    mem[out_addrs@[i - first] as int]
                } else {
                    flat_byte(old(outputs)@, i)
                }),
    {
        proof {
            lemma_flat_position(inst as nat, n_out as nat, j as nat);
        }
        let flat: usize = inst * n_out + j;
        let addr: u32 = out_addrs[j];
        let v: u32 = cell_get(cells, base, addr);
        let k: u32 = (flat % 4) as u32;
        let w: u32 = outputs[flat / 4];
        let ghost before = outputs@;
        assert(packed_row(old(outputs)@, inst as int, n_out as nat)[j as int] == 0);
        assert(flat_byte(before, flat as int) == 0);
        outputs[flat / 4] = w | (v << (k * 8));
        assert forall|i: int| 0 <= i < 4 * outputs@.len() implies #[trigger] flat_byte(outputs@, i)
            == (if first <= i < first + j + 1 {
            mem[out_addrs@[i - first] as int]
        } else {
            flat_byte(old(outputs)@, i)
        }) by {
            assert(flat_byte(before, i) == (if first <= i < first + j {
                mem[out_addrs@[i - first] as int]
            } else {
                flat_byte(old(outputs)@, i)
            }));
            if i / 4 == flat / 4 {
                lemma_or_byte(w, k, v, (i % 4) as u32);
            }
        }
    }
}

/// `after` is `before` with row `inst` of the packed matrix replaced by
/// `row`.
pub open spec fn row_written(before: Seq<u32>, after: Seq<u32>, inst: int, row: Seq<u8>) -> bool {
    &&& after.len() == before.len()
    &&& forall|i: int|
        0 <= i < 4 * after.len() ==> #[trigger] flat_byte(after, i) == (if inst * row.len() <= i
            < inst * row.len() + row.len() {
            row[i - inst * row.len()]
        } else {
            flat_byte(before, i)
        })
}

/// Whether the output cells of a lane are row `inst` of the packed
/// answer key.
fn grade_row(
    inst: usize,
    out_addrs: &[u32],
    cells: &[u32],
    expected: &[u32],
    base: usize,
    n_out: usize,
    cell_words: usize,
) -> (same: bool)
    requires
        addrs_within(out_addrs@, n_out as nat, cell_words as nat),
        holds_row(expected@, inst as nat, n_out as nat),
        base + cell_words <= cells@.len(),
    ensures
        same == (gather(
            narrow(out_addrs@, n_out as nat),
            lane_mem(cells@, base as int, cell_words as int),
        ) == packed_row(expected@, inst as int, n_out as nat)),
{
    let ghost got = gather(
        narrow(out_addrs@, n_out as nat),
        lane_mem(cells@, base as int, cell_words as int),
    );
    let ghost want = packed_row(expected@, inst as int, n_out as nat);
    let mut same: bool = true;
    assert(got.take(0) =~= want.take(0));
    for j in 0..n_out
        invariant
            addrs_within(out_addrs@, n_out as nat, cell_words as nat),
            holds_row(expected@, inst as nat, n_out as nat),
            base + cell_words <= cells@.len(),
            got == gather(
                narrow(out_addrs@, n_out as nat),
                lane_mem(cells@, base as int, cell_words as int),
            ),
            want == packed_row(expected@, inst as int, n_out as nat),
            same == (got.take(j as int) == want.take(j as int)),
    {
        proof {
            lemma_flat_position(inst as nat, n_out as nat, j as nat);
        }
        let flat: usize = inst * n_out + j;
        let s: u32 = ((flat % 4) * 8) as u32;
        let w: u32 = expected[flat / 4];
        let eb: u32 = (w >> s) & 0xff;
        let v: u32 = cell_get(cells, base, out_addrs[j]);
        proof {
            assert(eb <= 0xff) by (bit_vector)
                requires
                    eb == (w >> s) & 0xff,
            ;
            assert(got[j as int] == v);
            assert(want[j as int] == eb);
            assert(got.take(j + 1) =~= got.take(j as int).push(got[j as int]));
            assert(want.take(j + 1) =~= want.take(j as int).push(want[j as int]));
            assert(got.take(j + 1).drop_last() =~= got.take(j as int));
            assert(want.take(j + 1).drop_last() =~= want.take(j as int));
            assert(got.take(j + 1).last() == got[j as int]);
            assert(want.take(j + 1).last() == want[j as int]);
        }
        if v != eb {
            same = false;
        }
    }
    assert(got.take(n_out as int) =~= got);
    assert(want.take(n_out as int) =~= want);
    same
}

/// The buffers hold what lane `inst` of a launch reads.
pub open spec fn lane_ready(
    ops: Seq<u32>,
    n_ops: nat,
    in_addrs: Seq<u32>,
    n_in: nat,
    out_addrs: Seq<u32>,
    n_out: nat,
    inputs: Seq<u32>,
    inst: nat,
    cell_words: nat,
) -> bool {
    &&& stream_within(ops, n_ops, cell_words)
    &&& addrs_within(in_addrs, n_in, cell_words)
    &&& addrs_within(out_addrs, n_out, cell_words)
    &&& holds_row(inputs, inst, n_in)
}

/// Row `inst` of the packed matrix `words` is there, and zero.
pub open spec fn row_is_zero(words: Seq<u32>, inst: nat, width: nat) -> bool {
    &&& holds_row(words, inst, width)
    &&& packed_row(words, inst as int, width) == Seq::new(width, |j: int| 0u8)
}

/// What a lane does to the output matrix and to the trap words: a lane
/// past the last instance nothing, any other stores its trap flag and
/// writes its output cells as its row of the matrix.
pub open spec fn lane_ran(
    inst: int,
    n_instances: nat,
    result: (Seq<u8>, u32),
    out_addrs: Seq<u16>,
    outputs: Seq<u32>,
    outputs_after: Seq<u32>,
    traps: Seq<u32>,
    traps_after: Seq<u32>,
) -> bool {
    if inst < n_instances {
        &&& traps_after == traps.update(inst, result.1)
        &&& row_written(outputs, outputs_after, inst, gather(out_addrs, result.0))
    } else {
        outputs_after == outputs && traps_after == traps
    }
}

/// What a graded lane does to the trap words and to the flags: a lane
/// past the last instance nothing, any other stores its trap flag, and
/// flag 1 if it raised none and its output cells are its row of the
/// answer key, flag 0 if not.
pub open spec fn lane_was_graded(
    inst: int,
    n_instances: nat,
    result: (Seq<u8>, u32),
    out_addrs: Seq<u16>,
    expected: Seq<u32>,
    traps: Seq<u32>,
    traps_after: Seq<u32>,
    flags: Seq<u32>,
    flags_after: Seq<u32>,
) -> bool {
    if inst < n_instances {
        &&& traps_after == traps.update(inst, result.1)
        &&& flags_after == flags.update(
            inst,
            if result.1 == 0 && gather(out_addrs, result.0) == packed_row(
                expected,
                inst,
                out_addrs.len(),
            ) {
                1
            } else {
                0
            },
        )
    } else {
        traps_after == traps && flags_after == flags
    }
}

/// The lane at absolute position `inst` of a launch whose cells live in
/// one global buffer, `cell_words` words per instance: run the instance,
/// store its trap flag, and or its output cells into its row of the
/// packed outputs, which starts out zero. Lanes past the last instance
/// do nothing.
pub fn dally_kernel(
    inst: usize,
    ops: &[u32],
    in_addrs: &[u32],
    out_addrs: &[u32],
    inputs: &[u32],
    cells: &mut [u32],
    outputs: &mut [u32],
    traps: &mut [u32],
    n_instances: usize,
    n_ops: usize,
    n_in: usize,
    n_out: usize,
    cell_words: usize,
)
    requires
        inst < n_instances ==> {
            &&& lane_ready(
                ops@,
                n_ops as nat,
                in_addrs@,
                n_in as nat,
                out_addrs@,
                n_out as nat,
                inputs@,
                inst as nat,
                cell_words as nat,
            )
            &&& (inst + 1) * cell_words <= old(cells)@.len()
            &&& row_is_zero(old(outputs)@, inst as nat, n_out as nat)
            &&& inst < old(traps)@.len()
        },
    ensures
        lane_ran(
            inst as int,
            n_instances as nat,
            lane_result(ops@, n_ops as nat, in_addrs@, inputs@, inst as int, n_in as nat),
            narrow(out_addrs@, n_out as nat),
            old(outputs)@,
            final(outputs)@,
            old(traps)@,
            final(traps)@,
        ),
        inst >= n_instances ==> {
            &&& final(cells)@ == old(cells)@
            &&& final(outputs)@ == old(outputs)@
            &&& final(traps)@ == old(traps)@
        },
        inst < n_instances ==> {
            let (mem, trap) = lane_result(
                ops@,
                n_ops as nat,
                in_addrs@,
                inputs@,
                inst as int,
                n_in as nat,
            );
            &&& final(traps)@ == old(traps)@.update(inst as int, trap)
            &&& row_written(
                old(outputs)@,
                final(outputs)@,
                inst as int,
                gather(narrow(out_addrs@, n_out as nat), mem),
            )
            &&& only_lane_changed(
                old(cells)@,
                final(cells)@,
                inst * cell_words,
                cell_words as int,
            )
        },
{
    if inst >= n_instances {
        return;
    }
    assert(cells@.len() == cells.len());
    assert((inst + 1) * cell_words == inst * cell_words + cell_words && inst * cell_words >= 0)
        by (nonlinear_arith)
        requires
            inst >= 0,
            cell_words >= 0,
    ;
    let base: usize = inst * cell_words;
    load_lane(inst, in_addrs, inputs, cells, base, n_in, cell_words);
    let trap: u32 = run_lane(ops, cells, base, n_ops, cell_words);
    traps[inst] = trap;
    emit_row(inst, out_addrs, cells, outputs, base, n_out, cell_words);
}

/// The lane `unit_pos` of workgroup `cube_pos` of a launch whose cells
/// live in workgroup shared memory, `cell_words` words per lane and
/// `lanes` lanes per workgroup. In mode 0 it stores the instance's trap
/// flag and ors its output cells into its row of the packed outputs; in
/// the scored mode it stores the trap flag and, instead of the outputs,
/// a flag that is 1 when the instance ran without a trap and its output
/// cells equal its row of the answer key. Lanes past the last instance
/// do nothing.
pub fn dally_lds_kernel(
    cube_pos: usize,
    unit_pos: usize,
    ops: &[u32],
    in_addrs: &[u32],
    out_addrs: &[u32],
    inputs: &[u32],
    lds: &mut [u32],
    outputs: &mut [u32],
    traps: &mut [u32],
    expected: &[u32],
    flags: &mut [u32],
    n_instances: usize,
    n_ops: usize,
    n_in: usize,
    n_out: usize,
    cell_words: usize,
    lanes: usize,
    mode: u32,
)
    requires
        unit_pos < lanes,
        cube_pos * lanes + unit_pos <= usize::MAX,
        lanes * cell_words <= old(lds)@.len(),
        cube_pos * lanes + unit_pos < n_instances ==> {
            let inst = (cube_pos * lanes + unit_pos) as nat;
            &&& lane_ready(
                ops@,
                n_ops as nat,
                in_addrs@,
                n_in as nat,
                out_addrs@,
                n_out as nat,
                inputs@,
                inst,
                cell_words as nat,
            )
            &&& inst < old(traps)@.len()
            &&& mode == 0 ==> row_is_zero(old(outputs)@, inst, n_out as nat)
            &&& mode != 0 ==> holds_row(expected@, inst, n_out as nat)
            &&& mode != 0 ==> inst < old(flags)@.len()
        },
    ensures
        ({
            let inst = cube_pos * lanes + unit_pos;
            let (mem, trap) = lane_result(
                ops@,
                n_ops as nat,
                in_addrs@,
                inputs@,
                inst,
                n_in as nat,
            );
            let row = gather(narrow(out_addrs@, n_out as nat), mem);
            &&& mode == 0 ==> lane_ran(
                inst,
                n_instances as nat,
                (mem, trap),
                narrow(out_addrs@, n_out as nat),
                old(outputs)@,
                final(outputs)@,
                old(traps)@,
                final(traps)@,
            )
            &&& mode != 0 ==> lane_was_graded(
                inst,
                n_instances as nat,
                (mem, trap),
                narrow(out_addrs@, n_out as nat),
                expected@,
                old(traps)@,
                final(traps)@,
                old(flags)@,
                final(flags)@,
            )
            &&& inst >= n_instances ==> {
                &&& final(lds)@ == old(lds)@
                &&& final(outputs)@ == old(outputs)@
                &&& final(traps)@ == old(traps)@
                &&& final(flags)@ == old(flags)@
            }
            &&& inst < n_instances ==> {
                &&& final(traps)@ == old(traps)@.update(inst, trap)
                &&& only_lane_changed(
                    old(lds)@,
                    final(lds)@,
                    unit_pos * cell_words,
                    cell_words as int,
                )
            }
            &&& inst < n_instances && mode == 0 ==> {
                &&& row_written(old(outputs)@, final(outputs)@, inst, row)
                &&& final(flags)@ == old(flags)@
            }
            &&& inst < n_instances && mode != 0 ==> {
                &&& final(outputs)@ == old(outputs)@
                &&& final(flags)@ == old(flags)@.update(
                    inst,
                    if trap == 0 && row == packed_row(expected@, inst, n_out as nat) {
                        1
                    } else {
                        0
                    },
                )
            }
        }),
{
    assert(cube_pos * lanes >= 0) by (nonlinear_arith)
        requires
            cube_pos >= 0,
            lanes >= 0,
    ;
    let inst: usize = cube_pos * lanes + unit_pos;
    if inst >= n_instances {
        return;
    }
    assert(lds@.len() == lds.len());
    assert(unit_pos * cell_words >= 0 && unit_pos * cell_words + cell_words <= lanes * cell_words)
        by (nonlinear_arith)
        requires
            0 <= unit_pos < lanes,
            cell_words >= 0,
    ;
    let base: usize = unit_pos * cell_words;
    load_lane(inst, in_addrs, inputs, lds, base, n_in, cell_words);
    let trap: u32 = run_lane(ops, lds, base, n_ops, cell_words);
    traps[inst] = trap;
    if mode == 0 {
        emit_row(inst, out_addrs, lds, outputs, base, n_out, cell_words);
    } else {
        let same: bool = grade_row(inst, out_addrs, lds, expected, base, n_out, cell_words);
        flags[inst] = if trap == 0 && same {
            1
        } else {
            0
        };
    }
}

/// Writing one row of a packed matrix sets that row and leaves every
/// other as it was.
pub proof fn lemma_row_frame(
    before: Seq<u32>,
    after: Seq<u32>,
    inst: nat,
    row: Seq<u8>,
    other: nat,
)
    requires
        row_written(before, after, inst as int, row),
        (inst + 1) * row.len() <= 4 * before.len(),
        (other + 1) * row.len() <= 4 * before.len(),
    ensures
        packed_row(after, inst as int, row.len()) == row,
        other != inst ==> packed_row(after, other as int, row.len()) == packed_row(
            before,
            other as int,
            row.len(),
        ),
{
    let width = row.len();
    assert forall|j: int| 0 <= j < width implies #[trigger] packed_row(
        after,
        inst as int,
        width,
    )[j] == row[j] by {
        lemma_flat_position(inst, width, j as nat);
        assert(flat_byte(after, inst * width + j) == row[j]);
    }
    assert(packed_row(after, inst as int, width) =~= row);
    if other != inst {
        assert forall|j: int| 0 <= j < width implies #[trigger] packed_row(
            after,
            other as int,
            width,
        )[j] == packed_row(before, other as int, width)[j] by {
            lemma_flat_position(other, width, j as nat);
            if other < inst {
                assert((other + 1) * width <= inst * width) by (nonlinear_arith)
                    requires
                        other + 1 <= inst,
                        width >= 0,
                ;
            } else {
                assert((inst + 1) * width <= other * width) by (nonlinear_arith)
                    requires
                        inst + 1 <= other,
                        width >= 0,
                ;
                lemma_flat_position(inst, width, j as nat);
            }
            let at = other * width + j;
            assert(flat_byte(after, at) == flat_byte(before, at));
        }
        assert(packed_row(after, other as int, width) =~= packed_row(before, other as int, width));
    }
}

/// Each lane owns a private slice of the cells, so no barriers are
/// needed: what one lane changes leaves the cells of every other lane as
/// they were.
pub proof fn law_lanes_own_private_cells(
    before: Seq<u32>,
    after: Seq<u32>,
    lane: nat,
    other: nat,
    cell_words: nat,
)
    requires
        lane != other,
        only_lane_changed(before, after, (lane * cell_words) as int, cell_words as int),
        (other + 1) * cell_words <= before.len(),
    ensures
        lane_mem(after, (other * cell_words) as int, cell_words as int) == lane_mem(
            before,
            (other * cell_words) as int,
            cell_words as int,
        ),
{
    let base = (other * cell_words) as int;
    assert((other + 1) * cell_words == other * cell_words + cell_words) by (nonlinear_arith);
    assert(base >= 0) by (nonlinear_arith)
        requires
            base == other * cell_words,
    ;
    if lane < other {
        assert(lane * cell_words + cell_words <= base) by (nonlinear_arith)
            requires
                lane + 1 <= other,
                base == other * cell_words,
                cell_words >= 0,
        ;
    } else {
        assert(base + cell_words <= lane * cell_words) by (nonlinear_arith)
            requires
                other + 1 <= lane,
                base == other * cell_words,
                cell_words >= 0,
        ;
    }
    assert(lane_mem(after, base, cell_words as int) =~= lane_mem(before, base, cell_words as int));
}

/// Lanes do not disturb each other: when lanes with different instances
/// write their rows one after the other, in any order, each finds its
/// own row as it was at the start, and at the end every row is the one
/// its lane wrote.
pub proof fn law_lanes_do_not_interfere(
    states: Seq<Seq<u32>>,
    order: Seq<nat>,
    rows: Seq<Seq<u8>>,
    width: nat,
    k: int,
)
    requires
        states.len() == order.len() + 1,
        rows.len() == order.len(),
        order.no_duplicates(),
        forall|i: int|
            0 <= i < order.len() ==> {
                &&& #[trigger] rows[i].len() == width
                &&& (order[i] + 1) * width <= 4 * states[0].len()
                &&& row_written(states[i], states[i + 1], order[i] as int, rows[i])
            },
        0 <= k < order.len(),
    ensures
        states[k].len() == states[0].len(),
        packed_row(states[k], order[k] as int, width) == packed_row(
            states[0],
            order[k] as int,
            width,
        ),
        packed_row(states.last(), order[k] as int, width) == rows[k],
{
    lemma_rows_so_far(states, order, rows, width, k, k);
    lemma_rows_so_far(states, order, rows, width, k, order.len() as int);
}

/// The row of lane `k` after the first `t` lanes have written: as at the
/// start up to its own turn, its own row from then on.
proof fn lemma_rows_so_far(
    states: Seq<Seq<u32>>,
    order: Seq<nat>,
    rows: Seq<Seq<u8>>,
    width: nat,
    k: int,
    t: int,
)
    requires
        states.len() == order.len() + 1,
        rows.len() == order.len(),
        order.no_duplicates(),
        forall|i: int|
            0 <= i < order.len() ==> {
                &&& #[trigger] rows[i].len() == width
                &&& (order[i] + 1) * width <= 4 * states[0].len()
                &&& row_written(states[i], states[i + 1], order[i] as int, rows[i])
            },
        0 <= k < order.len(),
        0 <= t <= order.len(),
    ensures
        states[t].len() == states[0].len(),
        packed_row(states[t], order[k] as int, width) == (if t <= k {
            packed_row(states[0], order[k] as int, width)
        } else {
            rows[k]
        }),
    decreases t,
{
    if t > 0 {
        lemma_rows_so_far(states, order, rows, width, k, t - 1);
        assert(rows[t - 1].len() == width && rows[k].len() == width);
        lemma_row_frame(states[t - 1], states[t], order[t - 1], rows[t - 1], order[k]);
    }
}

/// A lane that runs the op stream of a program does what the machine
/// does: it raises flag 1 exactly when the program traps, and otherwise
/// ends in the same cells.
proof fn lemma_lane_run_matches(stream: Seq<u32>, ops: Seq<Op>, k: nat, mem: Seq<u8>)
    requires
        k <= ops.len(),
        stream == op_stream(ops),
    ensures
        match run_ops(ops, k, mem) {
            Ok(m) => lane_run(stream, k, mem) == (m, 0u32),
            Err(_) => lane_run(stream, k, mem).1 == 1,
        },
    decreases k,
{
    if k > 0 {
        lemma_lane_run_matches(stream, ops, (k - 1) as nat, mem);
        assert(stream_words(stream, k - 1) == op_words(ops[k - 1]));
        law_decode_inverts_encode(ops[k - 1]);
    }
}

/// Bit-exact parity: on the packed form of a program and of a batch, a
/// lane raises trap flag 1 exactly when the program traps on the
/// instance, raises no flag otherwise, and then its output cells are the
/// bytes that the program yields.
pub proof fn law_kernel_matches_machine(
    prog: Program,
    stream: Seq<u32>,
    in_addrs: Seq<u32>,
    out_addrs: Seq<u32>,
    instances: Seq<u8>,
    inputs: Seq<u32>,
    inst: int,
)
    requires
        stream == op_stream(prog.ops()),
        in_addrs == addr_words(prog.inputs@),
        out_addrs == addr_words(prog.outputs@),
        is_packed(instances, inputs),
        0 <= inst,
        (inst + 1) * prog.inputs@.len() <= instances.len(),
    ensures
        ({
            let (mem, trap) = lane_result(
                stream,
                prog.ops().len(),
                in_addrs,
                inputs,
                inst,
                prog.inputs@.len(),
            );
            match prog.outcome(row_of(instances, prog.inputs@.len(), inst)) {
                Ok(bytes) => trap == 0 && gather(narrow(out_addrs, prog.outputs@.len()), mem)
                    == bytes,
                Err(_) => trap == 1,
            }
        }),
{
    let n_in = prog.inputs@.len();
    let row = row_of(instances, n_in, inst);
    assert(narrow(in_addrs, n_in) =~= prog.inputs@);
    assert(narrow(out_addrs, prog.outputs@.len()) =~= prog.outputs@);
    assert((inst + 1) * n_in == inst * n_in + n_in && inst * n_in >= 0) by (nonlinear_arith)
        requires
            inst >= 0,
            n_in >= 0,
    ;
    assert(packed_row(inputs, inst, n_in) =~= row) by {
        assert forall|j: int| 0 <= j < n_in implies #[trigger] packed_row(inputs, inst, n_in)[j]
            == row[j] by {
            assert(flat_byte(inputs, inst * n_in + j) == instances[inst * n_in + j]);
        }
    }
    lemma_lane_run_matches(
        stream,
        prog.ops(),
        prog.ops().len(),
        load(prog.inputs@, row, n_in, blank()),
    );
}

} // verus!
