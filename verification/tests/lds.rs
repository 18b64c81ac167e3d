use dally_eval::dispatch::{Cursor, RawRun, ScoredRun};
use dally_eval::eval::RunError;
use dally_eval::ir::Program;
use dally_eval::kernel::dally_lds_kernel;
use dally_eval::lds::{
    chunk_capacity, chunk_for, prev_pow2, LdsPlan, Tiling, MAX_CELLS_BUFFER, WORK_CAP,
};
use dally_eval::pack::{pack_bytes, read_words};
use dally_eval::runner::{BatchRunner, CpuRunner};

fn bytes_of(words: &[u32]) -> Vec<u8> {
    words.iter().flat_map(|w| w.to_ne_bytes()).collect()
}

#[test]
fn tiling_of_the_benchmark_program() {
    // 32 lanes x 451 words = 57.7KB of the 64KB budget
    let t = Tiling::from_limits(65_536, 1024, 1801);
    assert_eq!(t.cell_words, 451);
    assert_eq!(t.lanes, 32);
    assert_eq!(t.lds_bytes, 57_728);
    assert_eq!((t.max_lds_bytes, t.max_workgroup), (65_536, 1024));
}

#[test]
fn tiling_is_clamped_to_the_workgroup() {
    assert_eq!(Tiling::from_limits(65_536, 256, 4).lanes, 256);
    assert_eq!(Tiling::from_limits(65_536, 48, 4).lanes, 48);
    assert_eq!(Tiling::from_limits(65_536, 0, 4).lanes, 1);
    assert_eq!(Tiling::from_limits(0, 256, 4).lanes, 1);
    let t = Tiling::from_limits(16, 256, 0);
    assert_eq!((t.lanes, t.cell_words, t.lds_bytes), (4, 0, 0));
}

#[test]
fn a_capped_tiling_uses_the_smaller_budget() {
    let t = Tiling::from_limits(65_536, 1024, 1801);
    assert_eq!(t.capped(16_384, 1801).lanes, 8);
    assert_eq!(t.capped(16_384, 1801).max_lds_bytes, 16_384);
    assert_eq!(t.capped(1 << 30, 1801), t);
}

#[test]
fn previous_power_of_two() {
    assert_eq!(prev_pow2(0), 1);
    assert_eq!(prev_pow2(1), 1);
    assert_eq!(prev_pow2(2), 2);
    assert_eq!(prev_pow2(3), 2);
    assert_eq!(prev_pow2(1023), 512);
    assert_eq!(prev_pow2(1024), 1024);
    for n in 1usize..5000 {
        assert_eq!(prev_pow2(n), 1 << (usize::BITS - 1 - n.leading_zeros()));
    }
    assert_eq!(prev_pow2(usize::MAX), 1 << (usize::BITS - 1));
}

#[test]
fn chunks_respect_both_caps() {
    assert_eq!(chunk_capacity(1804, 0), MAX_CELLS_BUFFER / 1804);
    assert_eq!(chunk_capacity(0, 0), MAX_CELLS_BUFFER);
    assert_eq!(chunk_capacity(4, MAX_CELLS_BUFFER - 40), 10);
    assert_eq!(chunk_capacity(4, MAX_CELLS_BUFFER + 1), 1);
    assert_eq!(chunk_capacity(usize::MAX, 0), 1);
    assert_eq!(chunk_for(73_293, 1804, 0), 55_800);
    assert_eq!(chunk_for(709_000, 1804, 0), 11_283);
    assert!(11_283 * 709_000u64 <= WORK_CAP && 11_284 * 709_000u64 > WORK_CAP);
    assert_eq!(chunk_for(0, 4, 0), MAX_CELLS_BUFFER / 4);
    assert_eq!(chunk_for(usize::MAX, 4, 0), 1);
}

#[test]
fn a_program_over_the_budget_is_refused() {
    let prog = Program::parse("1\n100\n").unwrap();
    match LdsPlan::new(&prog, 8, 103, 64) {
        Err(e) => assert_eq!(
            e,
            RunError::GpuUnavailable(
                "program cells (104 bytes) exceed LDS budget (103 bytes); use CubeRunner"
                    .to_string()
            )
        ),
        Ok(_) => panic!("accepted"),
    }
    let plan = LdsPlan::new(&prog, 8, 104, 64).unwrap_or_else(|e| panic!("{e:?}"));
    assert_eq!((plan.tiling.lanes, plan.tiling.cell_words), (1, 26));
    assert_eq!(plan.capacity, 8);
    assert_eq!(plan.traps, vec![0u8; 32]);
    assert_eq!(plan.flags, vec![0u8; 32]);
    assert_eq!((plan.n_ops, plan.n_in, plan.n_out), (0, 1, 1));
    assert_eq!(plan.in_addrs, bytes_of(&[1]));
    assert_eq!(plan.out_addrs, bytes_of(&[100]));
}

#[test]
fn a_plan_can_be_capped() {
    let prog = Program::parse("1\n15\n").unwrap();
    let plan = LdsPlan::new(&prog, 8, 1024, 64).unwrap_or_else(|e| panic!("{e:?}"));
    assert_eq!(plan.tiling.lanes, 64);
    let capped = plan.with_lds_cap(&prog, 40);
    assert_eq!((capped.tiling.lanes, capped.tiling.max_lds_bytes), (2, 40));
    assert_eq!(capped.capacity, 8);
}

#[test]
fn a_cursor_walks_the_batch_in_chunks() {
    let mut c = Cursor { n: 10, chunk: 4, start: 0 };
    let mut seen = vec![];
    while !c.done() {
        let end = c.end();
        seen.push((c.start, end));
        c.start = end;
    }
    assert_eq!(seen, vec![(0, 4), (4, 8), (8, 10)]);
}

#[test]
fn a_raw_run_collects_rows_chunk_by_chunk() {
    let prog = Program::parse("1,2\nadd 3,1,2\n3,1,2\n").unwrap();
    let plan = LdsPlan::new(&prog, 2, 1024, 64).unwrap_or_else(|e| panic!("{e:?}"));
    let instances = [1u8, 2, 3, 4, 5, 6];
    let mut run = RawRun::new(&plan, 3);
    assert_eq!((run.cursor.n, run.cursor.chunk, run.cursor.start), (3, 2, 0));
    let d = run.dispatch(&plan, &prog, &instances);
    assert_eq!((d.m, d.out_words, d.groups), (2, 2, 1));
    assert_eq!(d.inputs, bytes_of(&pack_bytes(&[1, 2, 3, 4])));
    assert_eq!(d.outputs, vec![0u8; 8]);
    let back = bytes_of(&pack_bytes(&[3, 1, 2, 7, 3, 4, 0, 0]));
    assert_eq!(run.absorb(&back, &bytes_of(&[0, 0]), 3), Ok(()));
    assert_eq!(run.cursor.start, 2);
    let d = run.dispatch(&plan, &prog, &instances);
    assert_eq!((d.m, d.out_words), (1, 1));
    assert_eq!(d.inputs, bytes_of(&pack_bytes(&[5, 6])));
    let back = bytes_of(&pack_bytes(&[11, 5, 6, 0]));
    assert_eq!(run.absorb(&back, &bytes_of(&[0, 1]), 3), Ok(()));
    assert!(run.cursor.done());
    assert_eq!(run.rows, vec![vec![3, 1, 2], vec![7, 3, 4], vec![11, 5, 6]]);
}

#[test]
fn a_trap_counts_from_the_start_of_the_batch() {
    let trap = RunError::DivideByZero { op_index: usize::MAX };
    let cursor = Cursor { n: 9, chunk: 4, start: 4 };
    let mut raw = RawRun { cursor, rows: vec![vec![1]; 4] };
    assert_eq!(raw.absorb_words(&[0], &[0, 0, 1, 1], 1), Err((6, trap.clone())));
    assert_eq!(raw.rows.len(), 4);
    let mut scored = ScoredRun { cursor, correct: 2 };
    assert_eq!(scored.absorb_words(&[1, 1, 1, 1], &[0, 2, 0, 0]), Err((5, trap)));
    assert_eq!(scored.correct, 2);
}

#[test]
fn a_scored_run_counts_the_flags_of_each_chunk() {
    let prog = Program::parse("1,2\nadd 3,1,2\n3\n").unwrap();
    let plan = LdsPlan::new(&prog, 4, 1024, 64).unwrap_or_else(|e| panic!("{e:?}"));
    let instances: Vec<u8> = (0..12).collect();
    let key: Vec<u8> = (20..26).collect();
    let mut run = ScoredRun::new(&plan, 6);
    let d = run.dispatch(&plan, &prog, &instances, &key);
    assert_eq!((d.m, d.groups), (4, 1));
    assert_eq!(d.inputs, bytes_of(&pack_bytes(&instances[..8])));
    assert_eq!(d.expected, bytes_of(&pack_bytes(&key[..4])));
    let flags = bytes_of(&[1, 0, 1, 2]);
    assert_eq!(run.absorb(&flags, &bytes_of(&[0; 4])), Ok(()));
    assert_eq!(run.correct, 2);
    let d = run.dispatch(&plan, &prog, &instances, &key);
    assert_eq!(d.m, 2);
    assert_eq!(d.expected, bytes_of(&pack_bytes(&key[4..])));
    let flags = bytes_of(&[0, 1, 1, 1]);
    assert_eq!(run.absorb(&flags, &bytes_of(&[0, 0, 5, 5])), Ok(()));
    assert_eq!(run.correct, 3);
    assert!(run.cursor.done());
}

#[test]
fn a_plan_holds_words_for_at_least_one_instance() {
    let prog = Program::parse("1\n1\n").unwrap();
    let plan = LdsPlan::new(&prog, 0, 1024, 64).unwrap_or_else(|e| panic!("{e:?}"));
    assert_eq!((plan.capacity, plan.traps.len(), plan.flags.len()), (1, 4, 4));
    let mut run = RawRun::new(&plan, 3);
    let mut starts = vec![];
    while !run.cursor.done() {
        starts.push(run.cursor.start);
        let d = run.dispatch(&plan, &prog, &[7, 8, 9]);
        assert_eq!(d.m, 1);
        assert_eq!(run.absorb(&d.inputs, &plan.traps, 1), Ok(()));
    }
    assert_eq!(starts, vec![0, 1, 2]);
    assert_eq!(run.rows, vec![vec![7], vec![8], vec![9]]);
}

/// Run one dispatch lane by lane; returns outputs, traps and flags.
fn device(
    plan: &LdsPlan,
    inputs: &[u8],
    expected: &[u8],
    out_words: usize,
    m: usize,
    groups: u32,
    mode: u32,
) -> (Vec<u8>, Vec<u8>, Vec<u8>) {
    let (ops, in_addrs) = (read_words(&plan.ops), read_words(&plan.in_addrs));
    let out_addrs = read_words(&plan.out_addrs);
    let (inputs, expected) = (read_words(inputs), read_words(expected));
    let mut outputs = vec![0u32; out_words];
    let mut traps = read_words(&plan.traps);
    let mut flags = read_words(&plan.flags);
    let (lanes, words) = (plan.tiling.lanes, plan.tiling.cell_words);
    for cube in 0..groups as usize {
        let mut lds = vec![0x5A5A_5A5Au32; lanes * words];
        for unit in (0..lanes).rev() {
            dally_lds_kernel(
                cube,
                unit,
                &ops,
                &in_addrs,
                &out_addrs,
                &inputs,
                &mut lds,
                &mut outputs,
                &mut traps,
                &expected,
                &mut flags,
                m,
                plan.n_ops,
                plan.n_in,
                plan.n_out,
                words,
                lanes,
                mode,
            );
        }
    }
    (bytes_of(&outputs), bytes_of(&traps), bytes_of(&flags))
}

fn run_raw(
    prog: &Program,
    capacity: usize,
    instances: &[u8],
    n: usize,
) -> Result<Vec<Vec<u8>>, (usize, RunError)> {
    let plan = LdsPlan::new(prog, capacity, 64, 8).unwrap_or_else(|e| panic!("{e:?}"));
    let mut run = RawRun::new(&plan, n);
    while !run.cursor.done() {
        let d = run.dispatch(&plan, prog, instances);
        let (outputs, traps, _) = device(&plan, &d.inputs, &[], d.out_words, d.m, d.groups, 0);
        run.absorb(&outputs, &traps, prog.outputs.len())?;
    }
    Ok(run.rows)
}

fn run_scored(
    prog: &Program,
    capacity: usize,
    instances: &[u8],
    key: &[u8],
    n: usize,
) -> Result<usize, (usize, RunError)> {
    let plan = LdsPlan::new(prog, capacity, 64, 8).unwrap_or_else(|e| panic!("{e:?}"));
    let mut run = ScoredRun::new(&plan, n);
    while !run.cursor.done() {
        let d = run.dispatch(&plan, prog, instances, key);
        let (_, traps, flags) = device(&plan, &d.inputs, &d.expected, 0, d.m, d.groups, 1);
        run.absorb(&flags, &traps)?;
    }
    Ok(run.correct)
}

#[test]
fn a_whole_batch_matches_the_cpu_under_any_capacity() {
    let prog = Program::parse("1,2\ndiv 3,1,2\nadd 4,3,1\n3,4,2\n").unwrap();
    let n = 23;
    let mut instances: Vec<u8> = (0..2 * n).map(|i| (i * 53 + 7) as u8 | 1).collect();
    let cpu = CpuRunner.run_batch(&prog, &instances, n).unwrap();
    let mut key: Vec<u8> = cpu.iter().flatten().copied().collect();
    for i in [0usize, 9, 22] {
        key[3 * i + 1] ^= 0x40;
    }
    for capacity in [0usize, 1, 4, 10, 23, 100] {
        assert_eq!(run_raw(&prog, capacity, &instances, n), Ok(cpu.clone()));
        assert_eq!(run_scored(&prog, capacity, &instances, &key, n), Ok(n - 3));
    }
    instances[2 * 17 + 1] = 0;
    instances[2 * 20 + 1] = 0;
    let trap = RunError::DivideByZero { op_index: usize::MAX };
    for capacity in [0usize, 1, 4, 10, 23, 100] {
        assert_eq!(run_raw(&prog, capacity, &instances, n), Err((17, trap.clone())));
        assert_eq!(
            run_scored(&prog, capacity, &instances, &key, n),
            Err((17, trap.clone()))
        );
    }
}
