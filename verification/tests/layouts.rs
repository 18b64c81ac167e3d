//! Layout and schedule choices: staging operands near their consumers
//! changes the cost of a program and nothing else.

use dally_eval::eval::Machine;
use dally_eval::ir::{Op, OpKind, Program};

struct Builder {
    p: Program,
    next: u16,
}

impl Builder {
    fn op(&mut self, kind: OpKind, a: u16, b: u16, imm: u8) -> u16 {
        self.next += 1;
        self.p.push(Op { kind, dst: self.next, a, b, c: 1, imm });
        self.next
    }
    fn mul_add(&mut self, a: u16, b: u16, acc: u16) -> u16 {
        let prod = self.op(OpKind::Mul, a, b, 0);
        self.op(OpKind::Add, acc, prod, 0)
    }
}

fn scratch_start(a_base: u16, k: u16) -> u16 {
    if a_base == 1 {
        a_base + 2 * k * k + 1
    } else {
        1
    }
}

fn gemm(a_base: u16, b_base: u16, k: u16, staged: bool) -> Program {
    let mut b = Builder { p: Program::default(), next: scratch_start(a_base, k) };
    let mut a_cells: Vec<u16> = (a_base..a_base + k * k).collect();
    let mut b_cells: Vec<u16> = (b_base..b_base + k * k).collect();
    let inputs: Vec<u16> = a_cells.iter().chain(&b_cells).copied().collect();
    if staged {
        a_cells = a_cells.iter().map(|&src| b.op(OpKind::Copy, src, 1, 0)).collect();
        b_cells = b_cells.iter().map(|&src| b.op(OpKind::Copy, src, 1, 0)).collect();
    }
    let mut outputs = vec![];
    for i in 0..k {
        for j in 0..k {
            let mut acc = b.op(OpKind::SetImm, 1, 1, 0);
            for kk in 0..k {
                acc = b.mul_add(a_cells[(i * k + kk) as usize], b_cells[(kk * k + j) as usize], acc);
            }
            outputs.push(acc);
        }
    }
    b.p.inputs = inputs;
    b.p.outputs = outputs;
    b.p.finalize();
    b.p
}

fn check(k: u16, a_base: u16, b_base: u16, naive_cost: u64, staged_cost: u64) {
    let naive = gemm(a_base, b_base, k, false);
    let staged = gemm(a_base, b_base, k, true);
    assert_eq!(naive.static_cost, naive_cost);
    assert_eq!(staged.static_cost, staged_cost);
    let n = (k * k) as usize;
    let k = k as usize;
    let a: Vec<u8> = (0..n).map(|x| (x * 7 + 3) as u8).collect();
    let bm: Vec<u8> = (0..n).map(|x| (x * 5 + 1) as u8).collect();
    let input: Vec<u8> = a.iter().chain(&bm).copied().collect();
    let mut want = vec![0u8; n];
    for i in 0..k {
        for j in 0..k {
            for kk in 0..k {
                want[i * k + j] =
                    want[i * k + j].wrapping_add(a[i * k + kk].wrapping_mul(bm[kk * k + j]));
            }
        }
    }
    for prog in [&naive, &staged] {
        let mut m = Machine::new(prog.max_addr);
        assert_eq!(m.run(prog, &input).unwrap(), want);
    }
}

#[test]
fn gemm_costs_with_near_inputs() {
    check(4, 1, 17, 2_072, 2_846);
}

#[test]
fn gemm_costs_with_far_inputs() {
    check(4, 2001, 3001, 7_634, 3_684);
    check(8, 5001, 7001, 104_104, 46_147);
}

#[test]
fn gemm_costs_at_full_size() {
    check(16, 20001, 50001, 2_023_849, 783_912);
}

/// Rename every cell of a program.
fn relabelled(prog: &Program, f: fn(u16) -> u16) -> Program {
    let mut out = Program::default();
    for i in 0..prog.len() {
        let op = prog.op(i);
        out.push(Op { dst: f(op.dst), a: f(op.a), b: f(op.b), c: f(op.c), ..op });
    }
    out.inputs = prog.inputs.iter().map(|&a| f(a)).collect();
    out.outputs = prog.outputs.iter().map(|&a| f(a)).collect();
    out.finalize();
    out
}

#[test]
fn relabelling_changes_only_the_cost() {
    let base = gemm(1, 17, 4, false);
    let moved = relabelled(&base, |a| 60_000 - a);
    assert!(moved.static_cost > base.static_cost);
    let mut m1 = Machine::new(base.max_addr);
    let mut m2 = Machine::new(moved.max_addr);
    for seed in 0..20usize {
        let input: Vec<u8> = (0..32).map(|i| (i * 31 + seed * 57) as u8).collect();
        assert_eq!(m1.run(&base, &input), m2.run(&moved, &input));
    }
}

#[test]
fn cost_is_additive_and_writes_are_free() {
    let op = Op { kind: OpKind::Mul, dst: 40, a: 1, b: 17, c: 1, imm: 0 };
    assert_eq!(op.read_cost(), 6);
    assert_eq!(Op { dst: 60_000, imm: 3, ..op }.read_cost(), 6);
    let mut p = Program::default();
    p.push(op);
    p.push(op);
    assert_eq!(p.static_cost, 12);
    assert_eq!(Op { kind: OpKind::SetImm, ..op }.read_cost(), 0);
}
