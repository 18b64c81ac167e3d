//! What a program means: a mathematical model of the 8-bit cell machine
//! that every engine is held to.

use crate::ir::{Op, OpKind, Program};
use vstd::arithmetic::div_mod::{lemma_fundamental_div_mod, lemma_fundamental_div_mod_converse};
use vstd::prelude::*;

verus! {

/// Number of addressable cells: addresses are 16-bit.
pub open spec fn address_space() -> nat {
    65536
}

/// Two's-complement reading of a byte.
pub open spec fn as_signed(x: u8) -> int {
    if x < 128 {
        x as int
    } else {
        x - 256
    }
}

/// The byte that stores an integer: its residue modulo 256.
pub open spec fn to_byte(v: int) -> u8 {
    (v % 256) as u8
}

/// Quotient rounded toward negative infinity, for `y != 0`.
pub open spec fn floor_div(x: int, y: int) -> int {
    if y > 0 {
        x / y
    } else {
        (-x) / (-y)
    }
}

/// Distance from zero.
pub open spec fn magnitude(v: int) -> int {
    if v < 0 {
        -v
    } else {
        v
    }
}

/// The byte that stores a truth value.
pub open spec fn truth(b: bool) -> u8 {
    if b {
        1
    } else {
        0
    }
}

/// The byte an instruction of kind `kind` computes from the bytes `x`,
/// `y`, `z` of its operands `a`, `b`, `c`; `None` is the division trap.
pub open spec fn compute(kind: OpKind, imm: u8, x: u8, y: u8, z: u8) -> Option<u8> {
    match kind {
        OpKind::SetImm => Some(imm),
        OpKind::Copy => Some(x),
        OpKind::Not => Some(to_byte(255 - x)),
        OpKind::Abs => Some(to_byte(magnitude(as_signed(x)))),
        OpKind::And => Some(x & y),
        OpKind::Or => Some(x | y),
        OpKind::Xor => Some(x ^ y),
        OpKind::Add => Some(to_byte(x + y)),
        OpKind::Sub => Some(to_byte(x - y)),
        OpKind::Mul => Some(to_byte(x * y)),
        OpKind::Div => if y == 0 {
            None
        } else {
            Some(to_byte(floor_div(as_signed(x), as_signed(y))))
        },
        OpKind::CmpEq => Some(truth(x == y)),
        OpKind::CmpNe => Some(truth(x != y)),
        OpKind::CmpLt => Some(truth(as_signed(x) < as_signed(y))),
        OpKind::CmpLe => Some(truth(as_signed(x) <= as_signed(y))),
        OpKind::CmpGt => Some(truth(as_signed(x) > as_signed(y))),
        OpKind::CmpGe => Some(truth(as_signed(x) >= as_signed(y))),
        OpKind::Select => Some(
            if x != 0 {
                y
            } else {
                z
            },
        ),
    }
}

/// The byte `op` computes on the cells `mem`.
pub open spec fn eval_op(op: Op, mem: Seq<u8>) -> Option<u8> {
    compute(op.kind, op.imm, mem[op.a as int], mem[op.b as int], mem[op.c as int])
}

/// The cells after `op`; `None` when it traps.
pub open spec fn step(op: Op, mem: Seq<u8>) -> Option<Seq<u8>> {
    match eval_op(op, mem) {
        Some(v) => Some(mem.update(op.dst as int, v)),
        None => None,
    }
}

/// The cells after the first `k` instructions, or the position of the
/// instruction that trapped.
pub open spec fn run_ops(ops: Seq<Op>, k: nat, mem: Seq<u8>) -> Result<Seq<u8>, nat>
    decreases k,
{
    if k == 0 {
        Ok(mem)
    } else {
        match run_ops(ops, (k - 1) as nat, mem) {
            Err(i) => Err(i),
            Ok(m) => match step(ops[k - 1], m) {
                Some(m2) => Ok(m2),
                None => Err((k - 1) as nat),
            },
        }
    }
}

/// The cells after storing the first `k` of `row` into the cells that
/// `addrs` lists, in order.
pub open spec fn load(addrs: Seq<u16>, row: Seq<u8>, k: nat, mem: Seq<u8>) -> Seq<u8>
    decreases k,
{
    if k == 0 {
        mem
    } else {
        load(addrs, row, (k - 1) as nat, mem).update(addrs[k - 1] as int, row[k - 1])
    }
}

/// All cells zero.
pub open spec fn blank() -> Seq<u8> {
    Seq::new(address_space(), |i: int| 0u8)
}

/// The bytes of the listed cells.
pub open spec fn gather(addrs: Seq<u16>, mem: Seq<u8>) -> Seq<u8> {
    Seq::new(addrs.len(), |i: int| mem[addrs[i] as int])
}

/// What a program yields on one instance: the bytes of the output cells,
/// or the position of the instruction that divided by zero. Cells that
/// were never written read as zero.
pub open spec fn outcome(
    ops: Seq<Op>,
    inputs: Seq<u16>,
    outputs: Seq<u16>,
    row: Seq<u8>,
) -> Result<Seq<u8>, nat> {
    match run_ops(ops, ops.len(), load(inputs, row, inputs.len(), blank())) {
        Ok(m) => Ok(gather(outputs, m)),
        Err(i) => Err(i),
    }
}

impl Program {
    /// What this program yields on the instance `row`.
    pub open spec fn outcome(&self, row: Seq<u8>) -> Result<Seq<u8>, nat> {
        outcome(self.ops(), self.inputs@, self.outputs@, row)
    }
}

/// An arena seen as the whole address space: cells beyond it are zero.
pub open spec fn widen(cells: Seq<u8>) -> Seq<u8> {
    Seq::new(
        address_space(),
        |i: int|
            if i < cells.len() {
                cells[i]
            } else {
                0u8
            },
    )
}

/// Floor division in terms of magnitudes: the quotient of the
/// magnitudes for operands of one sign, and its negation, pushed down by
/// one when there is a remainder, for operands of opposite signs.
pub proof fn lemma_floor_div_by_magnitudes(x: int, y: int)
    requires
        y != 0,
    ensures
        magnitude(y) > 0,
        0 <= magnitude(x) / magnitude(y) <= magnitude(x),
        0 <= magnitude(x) % magnitude(y) < magnitude(y),
        magnitude(x) == 0 ==> magnitude(x) / magnitude(y) == 0 && magnitude(x) % magnitude(y) == 0,
        (x >= 0 && y > 0) || (x <= 0 && y < 0) ==> floor_div(x, y) == magnitude(x) / magnitude(y),
        (x < 0 && y > 0) || (x > 0 && y < 0) ==> floor_div(x, y) == -(magnitude(x) / magnitude(y))
            - (if magnitude(x) % magnitude(y) == 0 {
            0int
        } else {
            1int
        }),
{
    let xm = magnitude(x);
    let ym = magnitude(y);
    let q = xm / ym;
    let r = xm % ym;
    lemma_fundamental_div_mod(xm, ym);
    assert(0 <= q <= xm) by (nonlinear_arith)
        requires
            xm == ym * q + r,
            xm >= 0,
            0 <= r < ym,
    ;
    if xm == 0 {
        assert(ym * q == 0) by (nonlinear_arith)
            requires
                q == 0,
        ;
    }
    if (x < 0 && y > 0) || (x > 0 && y < 0) {
        if r == 0 {
            assert(-xm == (-q) * ym + 0) by (nonlinear_arith)
                requires
                    xm == ym * q + r,
                    r == 0,
            ;
            lemma_fundamental_div_mod_converse(-xm, ym, -q, 0);
        } else {
            assert(-xm == (-q - 1) * ym + (ym - r)) by (nonlinear_arith)
                requires
                    xm == ym * q + r,
            ;
            lemma_fundamental_div_mod_converse(-xm, ym, -q - 1, ym - r);
        }
    }
}

/// Once an instruction trapped, the run ends there.
pub proof fn lemma_trap_is_final(ops: Seq<Op>, i: nat, k: nat, mem: Seq<u8>)
    requires
        i < k,
        run_ops(ops, i, mem) matches Ok(m) && step(ops[i as int], m) is None,
    ensures
        run_ops(ops, k, mem) == Err::<Seq<u8>, nat>(i),
    decreases k,
{
    if k > i + 1 {
        lemma_trap_is_final(ops, i, (k - 1) as nat, mem);
    }
}

/// Executing an instruction on an arena that holds its cells is
/// executing it on the whole address space.
pub proof fn lemma_step_on_arena(op: Op, cells: Seq<u8>)
    requires
        op.within(cells.len()),
        cells.len() <= address_space(),
    ensures
        eval_op(op, widen(cells)) == eval_op(op, cells),
        eval_op(op, cells) matches Some(v) ==> step(op, widen(cells)) == Some(
            widen(cells.update(op.dst as int, v)),
        ),
{
    if let Some(v) = eval_op(op, cells) {
        assert(widen(cells).update(op.dst as int, v) =~= widen(cells.update(op.dst as int, v)));
    }
}

} // verus!
