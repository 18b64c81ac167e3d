//! Laws of the cost model and of the machine that span several parts of
//! the library.

use crate::cost::lemma_distance_is;
use crate::eval::{reports, RunError};
use crate::ir::{cells_price, ops_price, Op, OpKind, Program};
use crate::semantics::{
    as_signed, blank, compute, eval_op, floor_div, gather, load, outcome, run_ops, step, to_byte,
};
use vstd::arithmetic::div_mod::lemma_fundamental_div_mod;
use vstd::prelude::*;

verus! {

/// Two instructions that agree on everything their kind uses: the
/// destination, the operands it reads, and for `set` the immediate.
pub open spec fn agree_where_used(x: Op, y: Op) -> bool {
    &&& x.kind == y.kind
    &&& x.dst == y.dst
    &&& x.kind == OpKind::SetImm ==> x.imm == y.imm
    &&& x.kind.arity() >= 1 ==> x.a == y.a
    &&& x.kind.arity() >= 2 ==> x.b == y.b
    &&& x.kind.arity() >= 3 ==> x.c == y.c
}

/// Unused fields are inert: they are never priced and never read, and do
/// not count among the addresses touched.
pub proof fn law_unused_fields_are_inert(x: Op, y: Op, mem: Seq<u8>)
    requires
        agree_where_used(x, y),
    ensures
        x.reads_price() == y.reads_price(),
        x.priceable() == y.priceable(),
        x.top_addr() == y.top_addr(),
        eval_op(x, mem) == eval_op(y, mem),
        step(x, mem) == step(y, mem),
{
}

/// Writes are free: where an instruction stores its result, and what an
/// immediate is, does not change its price; `set` costs nothing.
pub proof fn law_writes_are_free(x: Op, dst: u16, imm: u8)
    ensures
        (Op { dst, imm, ..x }).reads_price() == x.reads_price(),
        x.kind == OpKind::SetImm ==> x.reads_price() == 0,
{
}

/// Program cost is static and additive: a sequence of instructions costs
/// what its parts cost.
pub proof fn law_cost_is_additive(x: Seq<Op>, y: Seq<Op>)
    ensures
        ops_price(x + y) == ops_price(x) + ops_price(y),
    decreases y.len(),
{
    if y.len() == 0 {
        assert(x + y =~= x);
    } else {
        assert((x + y).drop_last() =~= x + y.drop_last());
        law_cost_is_additive(x, y.drop_last());
    }
}

/// Division rounds toward negative infinity: the remainder that it
/// leaves is smaller than the divisor and has its sign.
pub proof fn law_division_is_floor(x: int, y: int)
    requires
        y != 0,
    ensures
        ({
            let r = x - floor_div(x, y) * y;
            if y > 0 {
                0 <= r < y
            } else {
                y < r <= 0
            }
        }),
{
    if y > 0 {
        lemma_fundamental_div_mod(x, y);
        let q = x / y;
        assert(q * y == y * q) by (nonlinear_arith);
    } else {
        lemma_fundamental_div_mod(-x, -y);
        let q = (-x) / (-y);
        assert(q * y == -((-y) * q)) by (nonlinear_arith);
    }
}

/// `div` traps exactly when its divisor is zero, and is the only
/// instruction that traps.
pub proof fn law_only_division_by_zero_traps(op: Op, mem: Seq<u8>)
    ensures
        step(op, mem) is None <==> op.kind == OpKind::Div && mem[op.b as int] == 0,
{
}

/// The machine's bytes are closed under wrapping: `sub` undoes `add`.
pub proof fn law_sub_undoes_add(x: u8, y: u8)
    ensures
        compute(OpKind::Add, 0, x, y, 0) matches Some(s) && compute(OpKind::Sub, 0, s, y, 0)
            == Some(x),
{
    let s = to_byte(x + y);
    assert((s - y) % 256 == x as int);
}

/// Addresses renamed by `f`.
pub open spec fn renamed(addrs: Seq<u16>, f: spec_fn(u16) -> u16) -> Seq<u16> {
    Seq::new(addrs.len(), |i: int| f(addrs[i]))
}

/// An instruction whose addresses are renamed by `f`.
pub open spec fn renamed_op(op: Op, f: spec_fn(u16) -> u16) -> Op {
    Op { dst: f(op.dst), a: f(op.a), b: f(op.b), c: f(op.c), ..op }
}

/// Instructions whose addresses are renamed by `f`.
pub open spec fn renamed_ops(ops: Seq<Op>, f: spec_fn(u16) -> u16) -> Seq<Op> {
    Seq::new(ops.len(), |i: int| renamed_op(ops[i], f))
}

/// Different addresses keep different names.
pub open spec fn one_to_one(f: spec_fn(u16) -> u16) -> bool {
    forall|x: u16, y: u16| #[trigger] f(x) == #[trigger] f(y) ==> x == y
}

/// The cells `moved` are the cells `mem` under the names that `f` gives.
pub open spec fn same_cells(mem: Seq<u8>, moved: Seq<u8>, f: spec_fn(u16) -> u16) -> bool {
    &&& mem.len() == 65536
    &&& moved.len() == 65536
    &&& forall|x: u16| moved[#[trigger] f(x) as int] == mem[x as int]
}

/// Storing under the renamed address keeps the cells the same.
proof fn lemma_store_renamed(
    mem: Seq<u8>,
    moved: Seq<u8>,
    f: spec_fn(u16) -> u16,
    addr: u16,
    v: u8,
)
    requires
        one_to_one(f),
        same_cells(mem, moved, f),
    ensures
        same_cells(mem.update(addr as int, v), moved.update(f(addr) as int, v), f),
{
    let mem2 = mem.update(addr as int, v);
    let moved2 = moved.update(f(addr) as int, v);
    assert forall|x: u16| moved2[#[trigger] f(x) as int] == mem2[x as int] by {
        assert(moved[f(x) as int] == mem[x as int]);
        if f(x) == f(addr) {
            assert(x == addr);
        }
    }
}

/// Loading an instance into renamed input cells.
proof fn lemma_load_renamed(
    addrs: Seq<u16>,
    row: Seq<u8>,
    k: nat,
    f: spec_fn(u16) -> u16,
)
    requires
        one_to_one(f),
        k <= addrs.len(),
    ensures
        same_cells(
            load(addrs, row, k, blank()),
            load(renamed(addrs, f), row, k, blank()),
            f,
        ),
    decreases k,
{
    if k > 0 {
        lemma_load_renamed(addrs, row, (k - 1) as nat, f);
        lemma_store_renamed(
            load(addrs, row, (k - 1) as nat, blank()),
            load(renamed(addrs, f), row, (k - 1) as nat, blank()),
            f,
            addrs[k - 1],
            row[k - 1],
        );
    }
}

/// Running renamed instructions on renamed cells.
proof fn lemma_run_renamed(
    ops: Seq<Op>,
    k: nat,
    mem: Seq<u8>,
    moved: Seq<u8>,
    f: spec_fn(u16) -> u16,
)
    requires
        one_to_one(f),
        k <= ops.len(),
        same_cells(mem, moved, f),
    ensures
        match run_ops(ops, k, mem) {
            Ok(m) => run_ops(renamed_ops(ops, f), k, moved) matches Ok(m2) && same_cells(m, m2, f),
            Err(i) => run_ops(renamed_ops(ops, f), k, moved) == Err::<Seq<u8>, nat>(i),
        },
    decreases k,
{
    if k > 0 {
        lemma_run_renamed(ops, (k - 1) as nat, mem, moved, f);
        if let Ok(m) = run_ops(ops, (k - 1) as nat, mem) {
            let m2 = run_ops(renamed_ops(ops, f), (k - 1) as nat, moved)->Ok_0;
            let op = ops[k - 1];
            assert(renamed_ops(ops, f)[k - 1] == renamed_op(op, f));
            assert(m2[f(op.a) as int] == m[op.a as int]);
            assert(m2[f(op.b) as int] == m[op.b as int]);
            assert(m2[f(op.c) as int] == m[op.c as int]);
            assert(eval_op(renamed_op(op, f), m2) == eval_op(op, m));
            if let Some(v) = eval_op(op, m) {
                lemma_store_renamed(m, m2, f, op.dst, v);
            }
        }
    }
}

/// A change of layout preserves meaning: renaming the cells of a program
/// one to one leaves what it yields on every instance unchanged, so only
/// its cost can change.
pub proof fn law_relabelling_preserves_outcomes(
    ops: Seq<Op>,
    inputs: Seq<u16>,
    outputs: Seq<u16>,
    row: Seq<u8>,
    f: spec_fn(u16) -> u16,
)
    requires
        one_to_one(f),
    ensures
        outcome(renamed_ops(ops, f), renamed(inputs, f), renamed(outputs, f), row) == outcome(
            ops,
            inputs,
            outputs,
            row,
        ),
{
    lemma_load_renamed(inputs, row, inputs.len(), f);
    let mem = load(inputs, row, inputs.len(), blank());
    let moved = load(renamed(inputs, f), row, inputs.len(), blank());
    lemma_run_renamed(ops, ops.len(), mem, moved, f);
    if let Ok(m) = run_ops(ops, ops.len(), mem) {
        let m2 = run_ops(renamed_ops(ops, f), ops.len(), moved)->Ok_0;
        assert forall|i: int| 0 <= i < outputs.len() implies #[trigger] gather(
            renamed(outputs, f),
            m2,
        )[i] == gather(outputs, m)[i] by {
            assert(m2[f(outputs[i]) as int] == m[outputs[i] as int]);
        }
        assert(gather(renamed(outputs, f), m2) =~= gather(outputs, m));
    }
}

/// A completed program's cost is the price of its operand reads plus one
/// read of every output cell, whatever it computes: programs with the
/// same instructions and outputs cost the same.
pub proof fn law_cost_is_static(p: Program, q: Program)
    requires
        p.finalized(),
        q.finalized(),
        p.ops() == q.ops(),
        p.outputs@ == q.outputs@,
    ensures
        p.static_cost == q.static_cost,
        p.static_cost == ops_price(p.ops()) + cells_price(p.outputs@),
{
}

/// What one instruction stores, kind by kind, in plain arithmetic on the
/// bytes that its operand cells hold before it: `x`, `y` and `z` in the
/// cells `a`, `b` and `c`, whichever of them the destination is. Every
/// other cell keeps its byte.
pub proof fn law_each_kind_stores(op: Op, mem: Seq<u8>)
    requires
        op.dst < mem.len(),
    ensures
        ({
            let x = mem[op.a as int] as int;
            let y = mem[op.b as int] as int;
            let z = mem[op.c as int] as int;
            let sx = if x < 128 {
                x
            } else {
                x - 256
            };
            let sy = if y < 128 {
                y
            } else {
                y - 256
            };
            &&& eval_op(op, mem) is None <==> op.kind == OpKind::Div && y == 0
            &&& step(op, mem) is None <==> op.kind == OpKind::Div && y == 0
            &&& eval_op(op, mem) matches Some(byte) ==> step(op, mem) == Some(
                mem.update(op.dst as int, byte),
            )
            &&& step(op, mem) matches Some(after) ==> {
                let v = after[op.dst as int] as int;
                &&& after.len() == mem.len()
                &&& forall|i: int|
                    0 <= i < mem.len() && i != op.dst ==> (#[trigger] after[i]) == mem[i]
                &&& match op.kind {
                    OpKind::SetImm => v == op.imm,
                    OpKind::Copy => v == x,
                    OpKind::Not => v + x == 255,
                    OpKind::Abs => if x < 128 {
                        v == x
                    } else {
                        v + x == 256
                    },
                    OpKind::And => after[op.dst as int] == mem[op.a as int] & mem[op.b as int],
                    OpKind::Or => after[op.dst as int] == mem[op.a as int] | mem[op.b as int],
                    OpKind::Xor => after[op.dst as int] == mem[op.a as int] ^ mem[op.b as int],
                    OpKind::Add => v == x + y || v + 256 == x + y,
                    OpKind::Sub => v + y == x || v + y == x + 256,
                    OpKind::Mul => (x * y - v) % 256 == 0,
                    OpKind::Div => {
                        let q = if v < 128 || (sx == -128 && sy == -1) {
                            v
                        } else {
                            v - 256
                        };
                        if sy > 0 {
                            0 <= sx - q * sy < sy
                        } else {
                            sy < sx - q * sy <= 0
                        }
                    },
                    OpKind::CmpEq => v == (if x == y {
                        1int
                    } else {
                        0
                    }),
                    OpKind::CmpNe => v == (if x != y {
                        1int
                    } else {
                        0
                    }),
                    OpKind::CmpLt => v == (if sx < sy {
                        1int
                    } else {
                        0
                    }),
                    OpKind::CmpLe => v == (if sx <= sy {
                        1int
                    } else {
                        0
                    }),
                    OpKind::CmpGt => v == (if sx > sy {
                        1int
                    } else {
                        0
                    }),
                    OpKind::CmpGe => v == (if sx >= sy {
                        1int
                    } else {
                        0
                    }),
                    OpKind::Select => v == (if x != 0 {
                        y
                    } else {
                        z
                    }),
                }
            }
        }),
{
    let x = mem[op.a as int];
    let y = mem[op.b as int];
    if op.kind == OpKind::Div && y != 0 {
        lemma_quotient_byte(x, y);
    }
    if op.kind == OpKind::Mul {
        lemma_residue(x * y);
    }
}

/// The byte that stores a number differs from it by a multiple of 256.
proof fn lemma_residue(p: int)
    ensures
        (p - to_byte(p)) % 256 == 0,
{
    assert((p - p % 256) % 256 == 0);
}

/// The byte that stores the quotient of two bytes, read as the quotient.
proof fn lemma_quotient_byte(x: u8, y: u8)
    requires
        y != 0,
    ensures
        ({
            let sx = as_signed(x);
            let sy = as_signed(y);
            let v = to_byte(floor_div(sx, sy)) as int;
            let q = if v < 128 || (sx == -128 && sy == -1) {
                v
            } else {
                v - 256
            };
            if sy > 0 {
                0 <= sx - q * sy < sy
            } else {
                sy < sx - q * sy <= 0
            }
        }),
{
    let sx = as_signed(x);
    let sy = as_signed(y);
    let f = floor_div(sx, sy);
    law_division_is_floor(sx, sy);
    lemma_quotient_range(sx, sy, f);
    let v = to_byte(f) as int;
    assert(v == f % 256);
    if f >= 0 {
        assert(v == f);
    } else {
        assert(v == f + 256);
    }
    let q = if v < 128 || (sx == -128 && sy == -1) {
        v
    } else {
        v - 256
    };
    assert(q == f);
}

/// The quotient of two signed bytes fits a byte, up to the one overflow.
proof fn lemma_quotient_range(sx: int, sy: int, q: int)
    requires
        -128 <= sx < 128,
        -128 <= sy < 128,
        sy != 0,
        sy > 0 ==> 0 <= sx - q * sy < sy,
        sy < 0 ==> sy < sx - q * sy <= 0,
    ensures
        -128 <= q <= 128,
        q == 128 ==> sx == -128 && sy == -1,
        sx == -128 && sy == -1 ==> q == 128,
{
    if sy == -1 {
        assert(q * sy == -q) by (nonlinear_arith)
            requires
                sy == -1,
        ;
    }
    assert(q == 128 ==> sx == -128 && sy == -1) by (nonlinear_arith)
        requires
            -128 <= sx < 128,
            sy != 0,
            sy > 0 ==> 0 <= sx - q * sy < sy,
            sy < 0 ==> sy < sx - q * sy <= 0,
    ;
    assert(-128 <= q <= 128) by (nonlinear_arith)
        requires
            -128 <= sx < 128,
            sy != 0,
            sy > 0 ==> 0 <= sx - q * sy < sy,
            sy < 0 ==> sy < sx - q * sy <= 0,
    ;
}

/// Running nothing changes nothing; running one instruction is stepping
/// it, and its trap is reported at position 0.
pub proof fn law_short_runs(op: Op, mem: Seq<u8>)
    ensures
        run_ops(Seq::<Op>::empty(), 0, mem) == Ok::<Seq<u8>, nat>(mem),
        run_ops(seq![op], 1, mem) == (match step(op, mem) {
            Some(m) => Ok::<Seq<u8>, nat>(m),
            None => Err::<Seq<u8>, nat>(0),
        }),
{
    reveal_with_fuel(run_ops, 2);
}

/// The first instructions of a sequence run as they do alone.
proof fn lemma_run_prefix(x: Seq<Op>, y: Seq<Op>, k: nat, mem: Seq<u8>)
    requires
        k <= x.len(),
    ensures
        run_ops(x + y, k, mem) == run_ops(x, k, mem),
    decreases k,
{
    if k > 0 {
        lemma_run_prefix(x, y, (k - 1) as nat, mem);
        assert((x + y)[k - 1] == x[k - 1]);
    }
}

/// The instructions `y` after `x` run on the cells that `x` leaves.
proof fn lemma_run_suffix(x: Seq<Op>, y: Seq<Op>, k: nat, mem: Seq<u8>)
    requires
        k <= y.len(),
    ensures
        run_ops(x + y, x.len() + k, mem) == (match run_ops(x, x.len(), mem) {
            Err(i) => Err::<Seq<u8>, nat>(i),
            Ok(m) => match run_ops(y, k, m) {
                Ok(m2) => Ok::<Seq<u8>, nat>(m2),
                Err(j) => Err::<Seq<u8>, nat>(x.len() + j),
            },
        }),
    decreases k,
{
    if k == 0 {
        lemma_run_prefix(x, y, x.len(), mem);
    } else {
        lemma_run_suffix(x, y, (k - 1) as nat, mem);
        assert((x + y)[x.len() + k - 1] == y[k - 1]);
        assert((x.len() + k - 1) as nat == x.len() + (k - 1) as nat);
    }
}

/// Running a program is running its instructions one after the other:
/// however the instructions are split, the second part runs on the cells
/// that the first leaves, nothing happens between the two, and a trap is
/// reported at its place in the whole.
pub proof fn law_runs_compose(x: Seq<Op>, y: Seq<Op>, mem: Seq<u8>)
    ensures
        run_ops(x + y, (x + y).len(), mem) == (match run_ops(x, x.len(), mem) {
            Err(i) => Err::<Seq<u8>, nat>(i),
            Ok(m) => match run_ops(y, y.len(), m) {
                Ok(m2) => Ok::<Seq<u8>, nat>(m2),
                Err(j) => Err::<Seq<u8>, nat>(x.len() + j),
            },
        }),
{
    lemma_run_suffix(x, y, y.len(), mem);
    assert((x + y).len() == x.len() + y.len());
}

/// The cells that an instance starts from: an input cell holds the byte
/// of the last input declared there, and every other cell is zero.
pub open spec fn starts_with(inputs: Seq<u16>, row: Seq<u8>, mem: Seq<u8>) -> bool {
    &&& mem.len() == 65536
    &&& forall|c: u16|
        (forall|j: int| 0 <= j < inputs.len() ==> #[trigger] inputs[j] != c) ==> #[trigger]
            mem[c as int] == 0
    &&& forall|j: int|
        0 <= j < inputs.len() && (forall|k: int| j < k < inputs.len() ==> #[trigger] inputs[k]
            != inputs[j]) ==> mem[#[trigger] inputs[j] as int] == row[j]
}

/// Where each of the first `k` inputs lands.
proof fn lemma_inputs_land(inputs: Seq<u16>, row: Seq<u8>, k: nat, c: u16)
    requires
        k <= inputs.len(),
    ensures
        load(inputs, row, k, blank()).len() == 65536,
        (forall|j: int| 0 <= j < k ==> #[trigger] inputs[j] != c) ==> load(
            inputs,
            row,
            k,
            blank(),
        )[c as int] == 0,
        forall|j: int|
            0 <= j < k && inputs[j] == c && (forall|i: int|
                j < i < k ==> #[trigger] inputs[i] != c) ==> load(inputs, row, k, blank())[c as int]
                == #[trigger] row[j],
    decreases k,
{
    if k > 0 {
        lemma_inputs_land(inputs, row, (k - 1) as nat, c);
        assert forall|j: int|
            0 <= j < k && inputs[j] == c && (forall|i: int|
                j < i < k ==> #[trigger] inputs[i] != c) implies load(inputs, row, k, blank())[
        c as int] == #[trigger] row[j] by {
            if j < k - 1 {
                assert(inputs[k - 1] != c);
            }
        }
    }
}

/// Some position is the last that holds `c`, if any does.
proof fn lemma_last_position(inputs: Seq<u16>, c: u16, k: int) -> (j: int)
    requires
        0 <= k <= inputs.len(),
        exists|i: int| 0 <= i < k && #[trigger] inputs[i] == c,
    ensures
        0 <= j < k,
        inputs[j] == c,
        forall|i: int| j < i < k ==> #[trigger] inputs[i] != c,
    decreases k,
{
    if inputs[k - 1] == c {
        k - 1
    } else {
        lemma_last_position(inputs, c, k - 1)
    }
}

/// Only one state of the cells is the one an instance starts from.
pub proof fn lemma_starts_alike(inputs: Seq<u16>, row: Seq<u8>, mem: Seq<u8>)
    requires
        row.len() == inputs.len(),
        starts_with(inputs, row, mem),
    ensures
        load(inputs, row, inputs.len(), blank()) == mem,
{
    let loaded = load(inputs, row, inputs.len(), blank());
    lemma_inputs_land(inputs, row, inputs.len(), 0);
    assert forall|i: int| 0 <= i < 65536 implies #[trigger] loaded[i] == mem[i] by {
        let c = i as u16;
        assert(c as int == i);
        lemma_inputs_land(inputs, row, inputs.len(), c);
        if exists|j: int| 0 <= j < inputs.len() && #[trigger] inputs[j] == c {
            let j = lemma_last_position(inputs, c, inputs.len() as int);
            assert(loaded[c as int] == row[j]);
            assert(mem[inputs[j] as int] == row[j]);
        } else {
            assert(mem[c as int] == 0);
        }
    }
    assert(loaded =~= mem);
}

/// What a program yields on an instance: its instructions run on the cells
/// that the instance starts from, and yield the bytes of the output cells
/// in order, or the position of the trap.
pub proof fn law_outcome_is_a_run(p: Program, row: Seq<u8>, mem: Seq<u8>)
    requires
        row.len() == p.inputs@.len(),
        starts_with(p.inputs@, row, mem),
    ensures
        match run_ops(p.ops(), p.ops().len(), mem) {
            Ok(m) => p.outcome(row) matches Ok(bytes) && bytes.len() == p.outputs@.len() && (
            forall|i: int| 0 <= i < bytes.len() ==> #[trigger] bytes[i] == m[p.outputs@[i] as int]),
            Err(i) => p.outcome(row) == Err::<Seq<u8>, nat>(i),
        },
{
    lemma_starts_alike(p.inputs@, row, mem);
}

/// Every instance has cells that it starts from.
pub proof fn law_every_instance_starts(inputs: Seq<u16>, row: Seq<u8>) -> (mem: Seq<u8>)
    requires
        row.len() == inputs.len(),
    ensures
        starts_with(inputs, row, mem),
{
    let mem = load(inputs, row, inputs.len(), blank());
    lemma_inputs_land(inputs, row, inputs.len(), 0);
    assert forall|c: u16|
        (forall|j: int| 0 <= j < inputs.len() ==> #[trigger] inputs[j] != c) implies #[trigger]
    mem[c as int] == 0 by {
        lemma_inputs_land(inputs, row, inputs.len(), c);
    }
    assert forall|j: int|
        0 <= j < inputs.len() && (forall|k: int| j < k < inputs.len() ==> #[trigger] inputs[k]
            != inputs[j]) implies mem[#[trigger] inputs[j] as int] == row[j] by {
        lemma_inputs_land(inputs, row, inputs.len(), inputs[j]);
        assert(row[j] == row[j]);
    }
    mem
}

/// A result that reports an outcome is that outcome: the same bytes, or a
/// division by zero at the same position.
pub proof fn law_reports_are_faithful(r: Result<Vec<u8>, RunError>, o: Result<Seq<u8>, nat>)
    requires
        reports(r, o),
    ensures
        o matches Ok(bytes) ==> r is Ok && r->Ok_0@ == bytes,
        o matches Err(i) ==> r matches Err(RunError::DivideByZero { op_index }) && op_index == i,
{
}

/// The columns of a program are its instructions, field by field.
pub proof fn law_columns_are_instructions(p: Program, i: int)
    requires
        p.wf(),
        0 <= i < p.kinds@.len(),
    ensures
        p.ops().len() == p.kinds@.len(),
        p.dst@.len() == p.kinds@.len(),
        p.a@.len() == p.kinds@.len(),
        p.b@.len() == p.kinds@.len(),
        p.c@.len() == p.kinds@.len(),
        p.imm@.len() == p.kinds@.len(),
        p.ops()[i].kind == p.kinds@[i],
        p.ops()[i].dst == p.dst@[i],
        p.ops()[i].a == p.a@[i],
        p.ops()[i].b == p.b@[i],
        p.ops()[i].c == p.c@[i],
        p.ops()[i].imm == p.imm@[i],
{
}

/// Every operand that an instruction reads is charged the rounded-up root
/// of its address, whatever the other operands are, the same cell read
/// twice included; nothing else is charged.
pub proof fn law_every_read_is_charged(op: Op, pa: int, pb: int, pc: int)
    requires
        pa >= 0 && op.a <= pa * pa && (pa == 0 || (pa - 1) * (pa - 1) < op.a),
        pb >= 0 && op.b <= pb * pb && (pb == 0 || (pb - 1) * (pb - 1) < op.b),
        pc >= 0 && op.c <= pc * pc && (pc == 0 || (pc - 1) * (pc - 1) < op.c),
    ensures
        op.reads_price() == (match op.kind {
            OpKind::SetImm => 0int,
            OpKind::Copy | OpKind::Not | OpKind::Abs => pa,
            OpKind::And
            | OpKind::Or
            | OpKind::Xor
            | OpKind::Add
            | OpKind::Sub
            | OpKind::Mul
            | OpKind::Div
            | OpKind::CmpEq
            | OpKind::CmpNe
            | OpKind::CmpLt
            | OpKind::CmpLe
            | OpKind::CmpGt
            | OpKind::CmpGe => pa + pb,
            OpKind::Select => pa + pb + pc,
        }),
{
    lemma_distance_is(op.a as nat, pa as nat);
    lemma_distance_is(op.b as nat, pb as nat);
    lemma_distance_is(op.c as nat, pc as nat);
}

/// One instruction costs its reads, one output its cell's rounded-up root,
/// and the outputs of a program what its parts cost.
pub proof fn law_costs_add_up(op: Op, x: Seq<u16>, y: Seq<u16>, addr: u16, c: int)
    requires
        c >= 0 && addr <= c * c && (c == 0 || (c - 1) * (c - 1) < addr),
    ensures
        ops_price(Seq::<Op>::empty()) == 0,
        ops_price(seq![op]) == op.reads_price(),
        cells_price(Seq::<u16>::empty()) == 0,
        cells_price(seq![addr]) == c,
        cells_price(x + y) == cells_price(x) + cells_price(y),
{
    reveal_with_fuel(ops_price, 2);
    reveal_with_fuel(cells_price, 2);
    assert(seq![op].drop_last() =~= Seq::<Op>::empty());
    assert(seq![addr].drop_last() =~= Seq::<u16>::empty());
    lemma_distance_is(addr as nat, c as nat);
    lemma_cells_price_concat(x, y);
}

/// The outputs of a program cost what its parts cost.
proof fn lemma_cells_price_concat(x: Seq<u16>, y: Seq<u16>)
    ensures
        cells_price(x + y) == cells_price(x) + cells_price(y),
    decreases y.len(),
{
    if y.len() == 0 {
        assert(x + y =~= x);
    } else {
        assert((x + y).drop_last() =~= x + y.drop_last());
        lemma_cells_price_concat(x, y.drop_last());
    }
}

/// An instruction touches its destination and the operands its kind
/// reads, no more and no less; `top` bounds what it touches and is
/// touched.
pub proof fn law_touched_addresses(op: Op, limit: nat)
    ensures
        ({
            let reads_a = op.kind != OpKind::SetImm;
            let reads_b = reads_a && op.kind != OpKind::Copy && op.kind != OpKind::Not && op.kind
                != OpKind::Abs;
            let reads_c = op.kind == OpKind::Select;
            let top = op.top_addr();
            &&& op.within(limit) <==> {
                &&& op.dst < limit
                &&& reads_a ==> op.a < limit
                &&& reads_b ==> op.b < limit
                &&& reads_c ==> op.c < limit
            }
            &&& op.priceable() <==> {
                &&& reads_a ==> op.a >= 1
                &&& reads_b ==> op.b >= 1
                &&& reads_c ==> op.c >= 1
            }
            &&& op.dst <= top
            &&& reads_a ==> op.a <= top
            &&& reads_b ==> op.b <= top
            &&& reads_c ==> op.c <= top
            &&& {
                ||| top == op.dst
                ||| reads_a && top == op.a
                ||| reads_b && top == op.b
                ||| reads_c && top == op.c
            }
        }),
{
}

/// What a program touches is what its instructions, inputs and outputs
/// touch.
pub proof fn law_program_within(p: Program, limit: nat)
    requires
        p.wf(),
    ensures
        p.within(limit) <==> {
            &&& forall|i: int| 0 <= i < p.ops().len() ==> (#[trigger] p.ops()[i]).within(limit)
            &&& forall|i: int| 0 <= i < p.inputs@.len() ==> (#[trigger] p.inputs@[i]) < limit
            &&& forall|i: int| 0 <= i < p.outputs@.len() ==> (#[trigger] p.outputs@[i]) < limit
        },
{
    if p.within(limit) {
        assert forall|i: int| 0 <= i < p.ops().len() implies (#[trigger] p.ops()[i]).within(
            limit,
        ) by {
            assert(p.ops()[i] == p.op_at(i));
        }
    }
    if forall|i: int| 0 <= i < p.ops().len() ==> (#[trigger] p.ops()[i]).within(limit) {
        assert forall|i: int| 0 <= i < p.kinds@.len() implies (#[trigger] p.op_at(i)).within(
            limit,
        ) by {
            assert(p.ops()[i] == p.op_at(i));
        }
    }
}

} // verus!
