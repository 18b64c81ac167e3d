use dally_eval::eval::{Machine, RunError};
use dally_eval::ir::Program;
use dally_eval::runner::{is_batch_ready, rows_or_first_error, BatchRunner, CpuRunner};

#[test]
fn parallel_batch_matches_serial() {
    let text = "10,11\nset 1,3\nadd 2,10,11\nmul 3,2,1\n3,2\n";
    let prog = Program::parse(text).unwrap();
    let width = prog.inputs.len();
    let instances: Vec<u8> = (0..1024u32)
        .flat_map(|i| vec![(i % 7) as u8, (i % 13) as u8])
        .collect();
    let out = CpuRunner.run_batch(&prog, &instances, 1024).unwrap();
    for (i, row) in out.iter().enumerate() {
        let a = (i as u32 % 7) as u8;
        let b = (i as u32 % 13) as u8;
        assert_eq!(row[0], (a.wrapping_add(b)).wrapping_mul(3));
        assert_eq!(row[1], a.wrapping_add(b));
    }
    assert_eq!(width, 2);
}

#[test]
fn batch_agrees_with_one_machine_row_by_row() {
    let prog = Program::parse("1,2\ncopy 5,9\nset 9,3\ndiv 4,1,2\n4,5\n").unwrap();
    let instances: Vec<u8> = (0..600u32)
        .flat_map(|i| vec![(i * 37) as u8, (i * 11 % 255 + 1) as u8])
        .collect();
    let rows = CpuRunner.run_batch(&prog, &instances, 600).unwrap();
    assert_eq!(rows.len(), 600);
    let mut m = Machine::new(prog.max_addr);
    for (row, instance) in rows.iter().zip(instances.chunks(2)) {
        assert_eq!(Ok(row.clone()), m.run(&prog, instance));
        assert_eq!(row[1], 0);
    }
}

#[test]
fn the_first_trap_is_reported_with_its_instance() {
    let prog = Program::parse("1,2\ndiv 3,1,2\n3\n").unwrap();
    let mut instances = vec![1u8; 200];
    instances[2 * 40 + 1] = 0;
    instances[2 * 17 + 1] = 0;
    assert_eq!(
        CpuRunner.run_batch(&prog, &instances, 100),
        Err((17, RunError::DivideByZero { op_index: 0 }))
    );
}

#[test]
fn an_empty_batch_has_no_rows() {
    let prog = Program::parse("1\n1\n").unwrap();
    assert_eq!(CpuRunner.run_batch(&prog, &[], 0), Ok(vec![]));
}

#[test]
fn rows_or_the_first_error() {
    let trap = RunError::DivideByZero { op_index: 3 };
    assert_eq!(
        rows_or_first_error(vec![Ok(vec![1]), Ok(vec![2])]),
        Ok(vec![vec![1], vec![2]])
    );
    assert_eq!(
        rows_or_first_error(vec![
            Ok(vec![1]),
            Err(trap.clone()),
            Err(RunError::GpuUnavailable("later".to_string()))
        ]),
        Err((1, trap))
    );
}

#[test]
fn readiness_of_a_batch() {
    let prog = Program::parse("1,2\nadd 3,1,2\n3\n").unwrap();
    assert!(is_batch_ready(&prog, &[1, 2, 3, 4], 2));
    assert!(!is_batch_ready(&prog, &[1, 2, 3], 2));
    assert!(!is_batch_ready(&prog, &[], usize::MAX));
    let mut short = prog.clone();
    short.max_addr = 2;
    assert!(!is_batch_ready(&short, &[1, 2], 1));
    let mut ragged = prog.clone();
    ragged.imm.clear();
    assert!(!is_batch_ready(&ragged, &[1, 2], 1));
    let mut blind = prog;
    blind.inputs.clear();
    assert!(!is_batch_ready(&blind, &[], 0));
}
