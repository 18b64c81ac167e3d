//! Zero-allocation simulator and correctness checkers.
//!
//! 8-bit cells, wrapping `add`/`sub`/`mul`, *floor* signed division
//! (traps on zero), signed compares, `select` as a ternary on a nonzero
//! condition, and every write storing the two's-complement byte.

use crate::ir::{Op, OpKind, Program};
use crate::semantics::{
    address_space, as_signed, blank, eval_op, floor_div, gather, lemma_floor_div_by_magnitudes,
    lemma_step_on_arena, lemma_trap_is_final, load, magnitude, run_ops, to_byte, truth, widen,
};
use vstd::arithmetic::div_mod::{lemma_fundamental_div_mod, lemma_fundamental_div_mod_converse};
use vstd::prelude::*;
use vstd::slice::slice_to_vec;

verus! {

/// Failure modes while interpreting one instance.
#[derive(Clone, Debug, PartialEq, Eq)]
pub enum RunError {
    /// `div` by zero: the instance traps.
    DivideByZero { op_index: usize },
    /// An operand cell was never written (well-formed programs do not
    /// do this).
    ReadBeforeWrite { op_index: usize, addr: u16 },
    /// The GPU backend could not initialize (no adapter / device).
    GpuUnavailable(String),
}

impl RunError {
    /// This is the trap of a `div` at position `i`.
    pub open spec fn is_trap_at(self, i: int) -> bool {
        self matches RunError::DivideByZero { op_index } && op_index == i
    }
}

/// The result `r` of running one instance is the outcome `o` that the
/// model gives: the output bytes, or the trap at the position that
/// divided by zero.
pub open spec fn reports(r: Result<Vec<u8>, RunError>, o: Result<Seq<u8>, nat>) -> bool {
    match o {
        Ok(bytes) => r matches Ok(v) && v@ == bytes,
        Err(i) => r matches Err(e) && e.is_trap_at(i as int),
    }
}

/// Reusable machine: owns the cell arena so batch evaluation allocates
/// nothing per instance.
pub struct Machine {
    cells: Vec<u8>,
    /// Highest address written so far (for cheap clears between runs).
    high_water: usize,
}

impl Machine {
    /// Number of cells in the arena.
    pub closed spec fn cell_count(&self) -> nat {
        self.cells@.len()
    }

    /// The arena has a cell, fits the address space, and is zero above
    /// the highest address written.
    pub closed spec fn wf(&self) -> bool {
        &&& 0 < self.cells@.len() <= address_space()
        &&& self.high_water < self.cells@.len()
        &&& forall|i: int|
            self.high_water < i < self.cells@.len() ==> (#[trigger] self.cells@[i]) == 0
    }

    /// A machine whose arena holds the addresses up to `max_addr`.
    pub fn new(max_addr: u16) -> (m: Self)
        ensures
            m.wf(),
            m.cell_count() == max_addr + 1,
    {
        Machine { cells: vec![0u8; max_addr as usize + 1], high_water: 0 }
    }

    /// Run one instance: write `inputs` into the declared input cells,
    /// interpret every op, return the declared output bytes. Every run
    /// starts from cleared cells, whatever ran on the machine before.
    pub fn run(&mut self, prog: &Program, inputs: &[u8]) -> (r: Result<Vec<u8>, RunError>)
        requires
            old(self).wf(),
            prog.wf(),
            prog.within(old(self).cell_count()),
            inputs@.len() == prog.inputs@.len(),
        ensures
            final(self).wf(),
            final(self).cell_count() == old(self).cell_count(),
            reports(r, prog.outcome(inputs@)),
    {
        self.reset();
        let ghost count = self.cells@.len();
        let n_in: usize = prog.inputs.len();
        for k in 0..n_in
            invariant
                n_in == prog.inputs@.len(),
                inputs@.len() == n_in,
                prog.within(count),
                self.wf(),
                self.cells@.len() == count,
                widen(self.cells@) == load(prog.inputs@, inputs@, k as nat, blank()),
        {
            self.store(prog.inputs[k], inputs[k]);
        }
        let ghost loaded = load(prog.inputs@, inputs@, n_in as nat, blank());
        let n_ops: usize = prog.len();
        for i in 0..n_ops
            invariant
                n_ops == prog.ops().len(),
                prog.wf(),
                prog.within(count),
                self.wf(),
                self.cells@.len() == count,
                loaded == load(prog.inputs@, inputs@, prog.inputs@.len(), blank()),
                run_ops(prog.ops(), i as nat, loaded) == Ok::<Seq<u8>, nat>(widen(self.cells@)),
                count == old(self).cell_count(),
        {
            let op: Op = prog.op(i);
            assert(op == prog.op_at(i as int));
            let ghost before = self.cells@;
            proof {
                lemma_step_on_arena(op, before);
            }
            let done = exec_op(&op, i, self.cells.as_mut_slice());
            if op.dst as usize > self.high_water {
                self.high_water = op.dst as usize;
            }
            if let Err(e) = done {
                proof {
                    lemma_trap_is_final(prog.ops(), i as nat, prog.ops().len(), loaded);
                }
                return Err(e);
            }
        }
        let n_out: usize = prog.outputs.len();
        let mut out: Vec<u8> = Vec::with_capacity(n_out);
        for k in 0..n_out
            invariant
                n_out == prog.outputs@.len(),
                prog.within(count),
                count <= address_space(),
                self.cells@.len() == count,
                out@ =~= gather(prog.outputs@, widen(self.cells@)).take(k as int),
        {
            out.push(self.cells[prog.outputs[k] as usize]);
        }
        assert(out@ =~= gather(prog.outputs@, widen(self.cells@)));
        Ok(out)
    }

    /// Clear every cell that was written.
    fn reset(&mut self)
        requires
            old(self).wf(),
        ensures
            final(self).wf(),
            final(self).cells@.len() == old(self).cells@.len(),
            widen(final(self).cells@) == blank(),
    {
        let n: usize = self.high_water;
        for i in 0..n + 1
            invariant
                n < self.cells@.len(),
                self.cells@.len() == old(self).cells@.len(),
                forall|j: int| 0 <= j < i ==> (#[trigger] self.cells@[j]) == 0,
                forall|j: int| n < j < self.cells@.len() ==> (#[trigger] self.cells@[j]) == 0,
        {
            self.cells[i] = 0;
        }
        self.high_water = 0;
        assert(widen(self.cells@) =~= blank());
    }

    /// Store a byte, recording the address in the high-water mark.
    fn store(&mut self, addr: u16, val: u8)
        requires
            old(self).wf(),
            addr < old(self).cells@.len(),
        ensures
            final(self).wf(),
            final(self).cells@ == old(self).cells@.update(addr as int, val),
            widen(final(self).cells@) == widen(old(self).cells@).update(addr as int, val),
    {
        self.cells[addr as usize] = val;
        if addr as usize > self.high_water {
            self.high_water = addr as usize;
        }
        assert(widen(self.cells@) =~= widen(old(self).cells@).update(addr as int, val));
    }
}

/// Reads a byte as two's complement.
fn signed(x: u8) -> (s: i16)
    ensures
        s == as_signed(x),
{
    if x < 128 {
        x as i16
    } else {
        x as i16 - 256
    }
}

/// Stores a truth value as a byte.
fn truth_byte(b: bool) -> (r: u8)
    ensures
        r == truth(b),
{
    if b {
        1
    } else {
        0
    }
}

/// Dividing by a negative number negates the quotient and keeps the
/// remainder.
proof fn lemma_negative_divisor(m: int, d: int)
    requires
        m >= 0,
        d < 0,
    ensures
        m / d == -(m / -d),
        m % d == m % -d,
{
    let q = m / d;
    let r = m % d;
    lemma_fundamental_div_mod(m, d);
    assert(0 <= r < -d) by (nonlinear_arith)
        requires
            d < 0,
            r == m % d,
    ;
    assert(m == (-q) * (-d) + r) by (nonlinear_arith)
        requires
            m == d * q + r,
    ;
    lemma_fundamental_div_mod_converse(m, -d, -q, r);
}

/// Floor division on the signed readings of two bytes.
fn floor_div_byte(xb: u8, yb: u8) -> (r: u8)
    requires
        yb != 0,
    ensures
        r == to_byte(floor_div(as_signed(xb), as_signed(yb))),
{
    let x: i16 = signed(xb);
    let y: i16 = signed(yb);
    proof {
        lemma_floor_div_by_magnitudes(x as int, y as int);
        if y < 0 {
            lemma_negative_divisor(magnitude(x as int), y as int);
        }
    }
    let q: i16 = x / y;
    let r: i16 = x % y;
    let floored: i16 = if r != 0 && (r < 0) != (y < 0) {
        q - 1
    } else {
        q
    };
    assert(floored == floor_div(x as int, y as int));
    if floored < 0 {
        (floored + 256) as u8
    } else {
        floored as u8
    }
}

/// Reference semantics for one instruction over the cell array.
/// Exposed for GPU-parity cross-checks.
pub fn exec_op(op: &Op, i: usize, cells: &mut [u8]) -> (r: Result<(), RunError>)
    requires
        op.within(old(cells)@.len()),
    ensures
        match eval_op(*op, old(cells)@) {
            Some(v) => {
                &&& r is Ok
                &&& final(cells)@ == old(cells)@.update(op.dst as int, v)
            },
            None => {
                &&& r matches Err(e) && e.is_trap_at(i as int)
                &&& final(cells)@ == old(cells)@
            },
        },
{
    match op.kind {
        OpKind::SetImm => {
            cells[op.dst as usize] = op.imm;
        },
        OpKind::Copy => {
            let x: u8 = cells[op.a as usize];
            cells[op.dst as usize] = x;
        },
        OpKind::Not => {
            let x: u8 = cells[op.a as usize];
            assert(!x == 255 - x) by (bit_vector);
            cells[op.dst as usize] = !x;
        },
        OpKind::Abs => {
            let x: u8 = cells[op.a as usize];
            cells[op.dst as usize] = if x < 128 {
                x
            } else {
                0u8.wrapping_sub(x)
            };
        },
        OpKind::And => {
            let x: u8 = cells[op.a as usize];
            let y: u8 = cells[op.b as usize];
            cells[op.dst as usize] = x & y;
        },
        OpKind::Or => {
            let x: u8 = cells[op.a as usize];
            let y: u8 = cells[op.b as usize];
            cells[op.dst as usize] = x | y;
        },
        OpKind::Xor => {
            let x: u8 = cells[op.a as usize];
            let y: u8 = cells[op.b as usize];
            cells[op.dst as usize] = x ^ y;
        },
        OpKind::Add => {
            let x: u8 = cells[op.a as usize];
            let y: u8 = cells[op.b as usize];
            cells[op.dst as usize] = x.wrapping_add(y);
        },
        OpKind::Sub => {
            let x: u8 = cells[op.a as usize];
            let y: u8 = cells[op.b as usize];
            cells[op.dst as usize] = x.wrapping_sub(y);
        },
        OpKind::Mul => {
            let x: u8 = cells[op.a as usize];
            let y: u8 = cells[op.b as usize];
            cells[op.dst as usize] = x.wrapping_mul(y);
        },
        OpKind::Div => {
            let x: u8 = cells[op.a as usize];
            let y: u8 = cells[op.b as usize];
            if y == 0 {
                return Err(RunError::DivideByZero { op_index: i });
            }
            cells[op.dst as usize] = floor_div_byte(x, y);
        },
        OpKind::CmpEq => {
            let x: u8 = cells[op.a as usize];
            let y: u8 = cells[op.b as usize];
            cells[op.dst as usize] = truth_byte(x == y);
        },
        OpKind::CmpNe => {
            let x: u8 = cells[op.a as usize];
            let y: u8 = cells[op.b as usize];
            cells[op.dst as usize] = truth_byte(x != y);
        },
        OpKind::CmpLt => {
            let x: i16 = signed(cells[op.a as usize]);
            let y: i16 = signed(cells[op.b as usize]);
            cells[op.dst as usize] = truth_byte(x < y);
        },
        OpKind::CmpLe => {
            let x: i16 = signed(cells[op.a as usize]);
            let y: i16 = signed(cells[op.b as usize]);
            cells[op.dst as usize] = truth_byte(x <= y);
        },
        OpKind::CmpGt => {
            let x: i16 = signed(cells[op.a as usize]);
            let y: i16 = signed(cells[op.b as usize]);
            cells[op.dst as usize] = truth_byte(x > y);
        },
        OpKind::CmpGe => {
            let x: i16 = signed(cells[op.a as usize]);
            let y: i16 = signed(cells[op.b as usize]);
            cells[op.dst as usize] = truth_byte(x >= y);
        },
        OpKind::Select => {
            let cond: u8 = cells[op.a as usize];
            let x: u8 = cells[op.b as usize];
            let y: u8 = cells[op.c as usize];
            cells[op.dst as usize] = if cond != 0 {
                x
            } else {
                y
            };
        },
    }
    Ok(())
}

/// Pluggable reference function for correctness checking: decides
/// whether a program's outputs are *correct* for one instance.
pub trait Checker {
    type Instance;

    /// Ground-truth output bytes for an instance, computed natively.
    fn reference(&self, instance: &Self::Instance) -> Vec<u8>;

    /// Number of output cells the checker compares.
    fn out_len(&self) -> usize;
}

/// Sparse-parity mask checker: instance = (input bits, secret mask);
/// correct iff every output byte equals the mask byte.
pub struct MaskChecker {
    pub n_bits: usize,
}

impl Checker for MaskChecker {
    type Instance = (Vec<u8>, Vec<u8>);

    fn reference(&self, instance: &(Vec<u8>, Vec<u8>)) -> (mask: Vec<u8>)
        ensures
            mask@ == instance.1@,
    {
        slice_to_vec(instance.1.as_slice())
    }

    fn out_len(&self) -> (n: usize)
        ensures
            n == self.n_bits,
    {
        self.n_bits
    }
}

} // verus!
