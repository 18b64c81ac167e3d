use dally_eval::eval::{exec_op, Checker, Machine, MaskChecker, RunError};
use dally_eval::ir::{Op, OpKind, Program};

fn run(text: &str, inputs: &[u8]) -> Vec<u8> {
    let prog = Program::parse(text).unwrap();
    let mut m = Machine::new(prog.max_addr);
    m.run(&prog, inputs).unwrap()
}

fn op(kind: OpKind, dst: u16, a: u16, b: u16, c: u16, imm: u8) -> Op {
    Op { kind, dst, a, b, c, imm }
}

#[test]
fn wrapping_semantics() {
    // 200 + 100 wraps to 44; 0 - 1 wraps to 255
    let out = run(
        "5\nset 1,200\nset 2,100\nadd 3,1,2\nsub 4,1,2\n3,4\n",
        &[0u8; 1],
    );
    assert_eq!(out, vec![44, 100]);
}

#[test]
fn floor_division_matches_python() {
    // Python: -7 // 2 == -4 (floor), 7 // -2 == -4, -8 // 2 == -4
    let out = run(
        "1\nset 1,-7\nset 2,2\ndiv 3,1,2\nset 4,7\nset 5,-2\ndiv 6,4,5\n3,6\n",
        &[0u8; 1],
    );
    // -4 as u8 = 252
    assert_eq!(out, vec![252, 252]);
}

#[test]
fn div_by_zero_traps() {
    let prog = Program::parse("1\nset 1,0\nset 2,5\ndiv 3,2,1\n3\n").unwrap();
    let mut m = Machine::new(prog.max_addr);
    assert!(matches!(
        m.run(&prog, &[0]),
        Err(RunError::DivideByZero { .. })
    ));
}

#[test]
fn signed_compares_and_select() {
    // -1 (255) < 1 -> 1; select picks else-branch on cond 0
    let out = run(
        "1\nset 1,255\nset 2,1\ncmp 3,1,2,lt\nset 4,7\nset 7,0\nselect 5,3,4,2\nselect 6,7,4,2\n3,5,6\n",
        &[0u8; 1],
    );
    assert_eq!(out, vec![1, 7, 1]);
}

#[test]
fn not_abs() {
    let out = run("1\nset 1,0\nnot 2,1\nset 3,128\nabs 4,3\n2,4\n", &[0u8; 1]);
    // !0 = 255; abs(-128) wraps to 128
    assert_eq!(out, vec![255, 128]);
}

#[test]
fn trap_reports_the_position_of_the_division() {
    let prog = Program::parse("1\nset 1,0\nset 2,5\ndiv 3,2,1\n3\n").unwrap();
    let mut m = Machine::new(prog.max_addr);
    assert_eq!(m.run(&prog, &[0]), Err(RunError::DivideByZero { op_index: 2 }));
}

#[test]
fn every_operand_pair_of_every_binary_kind() {
    for x in 0u16..256 {
        for y in 0u16..256 {
            let (x, y) = (x as u8, y as u8);
            let (sx, sy) = (x as i8 as i32, y as i8 as i32);
            let cases = [
                (OpKind::And, x & y),
                (OpKind::Or, x | y),
                (OpKind::Xor, x ^ y),
                (OpKind::Add, x.wrapping_add(y)),
                (OpKind::Sub, x.wrapping_sub(y)),
                (OpKind::Mul, x.wrapping_mul(y)),
                (OpKind::CmpEq, (x == y) as u8),
                (OpKind::CmpNe, (x != y) as u8),
                (OpKind::CmpLt, (sx < sy) as u8),
                (OpKind::CmpLe, (sx <= sy) as u8),
                (OpKind::CmpGt, (sx > sy) as u8),
                (OpKind::CmpGe, (sx >= sy) as u8),
            ];
            for (kind, want) in cases {
                let mut cells = [0u8, x, y, 9];
                assert_eq!(exec_op(&op(kind, 3, 1, 2, 1, 0), 0, &mut cells), Ok(()));
                assert_eq!(cells, [0, x, y, want], "{kind:?} {x} {y}");
            }
            let mut cells = [0u8, x, y, 9];
            let done = exec_op(&op(OpKind::Div, 3, 1, 2, 1, 0), 7, &mut cells);
            if y == 0 {
                assert_eq!(done, Err(RunError::DivideByZero { op_index: 7 }));
                assert_eq!(cells, [0, x, y, 9]);
            } else {
                assert_eq!(done, Ok(()));
                let floor = (sx as f64 / sy as f64).floor() as i32;
                assert_eq!(cells[3], floor as u8, "{sx} // {sy}");
            }
        }
    }
}

#[test]
fn unary_kinds_and_select() {
    for x in 0u16..256 {
        let x = x as u8;
        let mut cells = [0u8, x, 3, 4];
        exec_op(&op(OpKind::Copy, 2, 1, 1, 1, 0), 0, &mut cells).unwrap();
        assert_eq!(cells[2], x);
        exec_op(&op(OpKind::Not, 2, 1, 1, 1, 0), 0, &mut cells).unwrap();
        assert_eq!(cells[2], !x);
        exec_op(&op(OpKind::Abs, 2, 1, 1, 1, 0), 0, &mut cells).unwrap();
        assert_eq!(cells[2], (x as i8).wrapping_abs() as u8);
        exec_op(&op(OpKind::SetImm, 2, 1, 1, 1, x), 0, &mut cells).unwrap();
        assert_eq!(cells[2], x);
        let mut cells = [0u8, x, 30, 40];
        exec_op(&op(OpKind::Select, 0, 1, 2, 3, 0), 0, &mut cells).unwrap();
        assert_eq!(cells[0], if x != 0 { 30 } else { 40 });
    }
}

#[test]
fn smallest_byte_divided_by_minus_one_wraps() {
    let out = run("1\nset 1,-128\nset 2,-1\ndiv 3,1,2\n3\n", &[0]);
    assert_eq!(out, vec![128]);
}

#[test]
fn a_reused_machine_starts_from_cleared_cells() {
    // cell 9 is written by the program after it is read
    let prog = Program::parse("1\ncopy 2,9\nset 9,77\n2\n").unwrap();
    let mut m = Machine::new(prog.max_addr);
    assert_eq!(m.run(&prog, &[5]), Ok(vec![0]));
    assert_eq!(m.run(&prog, &[5]), Ok(vec![0]));
    // after a trap as well
    let trap = Program::parse("1\nset 9,3\ndiv 2,9,1\n2\n").unwrap();
    let mut m = Machine::new(9);
    assert_eq!(m.run(&trap, &[0]), Err(RunError::DivideByZero { op_index: 1 }));
    assert_eq!(m.run(&prog, &[5]), Ok(vec![0]));
}

#[test]
fn inputs_load_in_order_and_repeated_cells_keep_the_last() {
    let prog = Program::parse("4,2,4\n4,2\n").unwrap();
    let mut m = Machine::new(prog.max_addr);
    assert_eq!(m.run(&prog, &[7, 8, 9]), Ok(vec![9, 8]));
}

#[test]
fn unused_fields_are_inert() {
    let x = op(OpKind::Copy, 3, 1, 1, 1, 0);
    let y = op(OpKind::Copy, 3, 1, 2, 2, 99);
    assert_eq!(x.read_cost(), y.read_cost());
    let mut cx = [0u8, 5, 6, 7];
    let mut cy = [0u8, 5, 6, 7];
    exec_op(&x, 0, &mut cx).unwrap();
    exec_op(&y, 0, &mut cy).unwrap();
    assert_eq!(cx, cy);
}

#[test]
fn mask_checker_returns_the_mask() {
    let checker = MaskChecker { n_bits: 3 };
    assert_eq!(checker.out_len(), 3);
    assert_eq!(checker.reference(&(vec![1, 1, 0], vec![0, 1, 1])), vec![0, 1, 1]);
}

#[test]
fn sub_undoes_add() {
    for x in 0u16..256 {
        for y in 0u16..256 {
            let mut cells = [x as u8, y as u8, 0];
            exec_op(&op(OpKind::Add, 2, 0, 1, 1, 0), 0, &mut cells).unwrap();
            exec_op(&op(OpKind::Sub, 2, 2, 1, 1, 0), 0, &mut cells).unwrap();
            assert_eq!(cells[2], x as u8);
        }
    }
}
