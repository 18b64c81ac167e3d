use dally_eval::eval::RunError;
use dally_eval::gpu::{
    cell_words, collect_rows, collect_words, groups_for, GpuParams, Resident, WORKGROUP_LANES,
};
use dally_eval::ir::{Op, OpKind, Program};
use dally_eval::kernel::{dally_kernel, dally_lds_kernel};
use dally_eval::pack::{
    op_kind_code, pack_addrs, pack_bytes, pack_ops, read_words, unpack_bytes, word_count,
};
use dally_eval::runner::{BatchRunner, CpuRunner};

/// Run every lane of a launch, one after the other, from the last to the
/// first.
fn launch(prog: &Program, instances: &[u8], n: usize) -> (Vec<u32>, Vec<u32>) {
    let ops = pack_ops(prog);
    let in_addrs = pack_addrs(&prog.inputs);
    let out_addrs = pack_addrs(&prog.outputs);
    let inputs = pack_bytes(instances);
    let words = cell_words(prog);
    // what an earlier batch left in the cells must not matter
    let mut cells = vec![0xDEAD_BEEFu32; n * words];
    let mut outputs = vec![0u32; word_count(n * prog.outputs.len())];
    let mut traps = vec![7u32; n];
    let lanes = groups_for(n, WORKGROUP_LANES) as usize * WORKGROUP_LANES;
    for inst in (0..lanes).rev() {
        dally_kernel(
            inst,
            &ops,
            &in_addrs,
            &out_addrs,
            &inputs,
            &mut cells,
            &mut outputs,
            &mut traps,
            n,
            prog.len(),
            prog.inputs.len(),
            prog.outputs.len(),
            words,
        );
    }
    (outputs, traps)
}

fn all_kinds() -> Program {
    let text = "1,2,3\n\
        copy 4,1\nnot 5,2\nabs 6,1\nand 7,1,2\nor 8,1,2\nxor 9,1,2\nadd 10,1,2\nsub 11,1,2\n\
        mul 12,1,2\ndiv 13,1,3\ncmp 14,1,2,eq\ncmp 15,1,2,ne\ncmp 16,1,2,lt\ncmp 17,1,2,le\n\
        cmp 18,1,2,gt\ncmp 19,1,2,ge\nselect 20,14,1,2\nset 21,-3\n\
        4,5,6,7,8,9,10,11,12,13,14,15,16,17,18,19,20,21,22\n";
    Program::parse(text).unwrap()
}

#[test]
fn lanes_match_the_machine_on_every_kind() {
    let prog = all_kinds();
    let mut instances = Vec::new();
    for x in 0u16..256 {
        for y in (0u16..256).step_by(17) {
            for z in [1u8, 2, 5, 127, 128, 255] {
                instances.extend([x as u8, y as u8, z]);
            }
        }
    }
    let n = instances.len() / 3;
    let (outputs, traps) = launch(&prog, &instances, n);
    assert!(traps.iter().all(|&t| t == 0));
    let gpu = collect_words(&outputs, &traps, prog.outputs.len(), n);
    let cpu = CpuRunner.run_batch(&prog, &instances, n);
    assert_eq!(gpu, cpu);
}

#[test]
fn lanes_divide_like_the_machine() {
    let prog = Program::parse("1,2\ndiv 3,1,2\n3\n").unwrap();
    let mut instances = Vec::new();
    for x in 0u16..256 {
        for y in 1u16..256 {
            instances.extend([x as u8, y as u8]);
        }
    }
    let n = instances.len() / 2;
    let (outputs, traps) = launch(&prog, &instances, n);
    assert_eq!(
        collect_words(&outputs, &traps, 1, n),
        CpuRunner.run_batch(&prog, &instances, n)
    );
}

#[test]
fn a_trapping_lane_raises_its_flag() {
    let prog = Program::parse("1,2\ndiv 3,1,2\nset 4,9\n4\n").unwrap();
    let instances = [6, 2, 6, 0, 6, 3, 1, 0];
    let (outputs, traps) = launch(&prog, &instances, 4);
    assert_eq!(traps, vec![0, 1, 0, 1]);
    assert_eq!(
        collect_words(&outputs, &traps, 1, 4),
        Err((1, RunError::DivideByZero { op_index: usize::MAX }))
    );
    let cpu = CpuRunner.run_batch(&prog, &instances, 4);
    assert_eq!(cpu, Err((1, RunError::DivideByZero { op_index: 0 })));
}

#[test]
fn an_unknown_kind_raises_flag_two() {
    let mut cells = vec![0u32; 1];
    let mut outputs = vec![0u32; 1];
    let mut traps = vec![0u32; 1];
    dally_kernel(
        0,
        &[18, 0, 0, 0],
        &[1],
        &[1],
        &[0x55],
        &mut cells,
        &mut outputs,
        &mut traps,
        1,
        1,
        1,
        1,
        1,
    );
    assert_eq!(traps, vec![2]);
    assert_eq!(outputs, vec![0x55]);
}

#[test]
fn lanes_past_the_batch_do_nothing() {
    let mut cells = vec![1u32; 2];
    let mut outputs = vec![2u32; 2];
    let mut traps = vec![3u32; 2];
    dally_kernel(
        5,
        &[],
        &[],
        &[],
        &[],
        &mut cells,
        &mut outputs,
        &mut traps,
        5,
        0,
        0,
        0,
        1,
    );
    assert_eq!((cells, outputs, traps), (vec![1, 1], vec![2, 2], vec![3, 3]));
}

#[test]
fn shared_memory_lanes_match_the_machine_and_grade() {
    let prog = all_kinds();
    let n = 37;
    let lanes = 8;
    let instances: Vec<u8> = (0..n * 3).map(|i| (i * 29 + 1) as u8 | 1).collect();
    let cpu = CpuRunner.run_batch(&prog, &instances, n).unwrap();
    let ops = pack_ops(&prog);
    let in_addrs = pack_addrs(&prog.inputs);
    let out_addrs = pack_addrs(&prog.outputs);
    let inputs = pack_bytes(&instances);
    let words = cell_words(&prog);
    let n_out = prog.outputs.len();
    // every third row of the answer key is wrong in its last byte
    let mut key: Vec<u8> = cpu.iter().flatten().copied().collect();
    for i in (0..n).step_by(3) {
        key[i * n_out + n_out - 1] ^= 1;
    }
    let expected = pack_bytes(&key);
    for mode in [0u32, 1] {
        let mut outputs = vec![0u32; word_count(n * n_out)];
        let mut traps = vec![9u32; n];
        let mut flags = vec![9u32; n];
        for cube in 0..groups_for(n, lanes) as usize {
            let mut lds = vec![0x1234_5678u32; lanes * words];
            for unit in 0..lanes {
                dally_lds_kernel(
                    cube,
                    unit,
                    &ops,
                    &in_addrs,
                    &out_addrs,
                    &inputs,
                    &mut lds,
                    &mut outputs,
                    &mut traps,
                    &expected,
                    &mut flags,
                    n,
                    prog.len(),
                    3,
                    n_out,
                    words,
                    lanes,
                    mode,
                );
            }
        }
        assert!(traps.iter().all(|&t| t == 0));
        if mode == 0 {
            assert_eq!(collect_words(&outputs, &traps, n_out, n), Ok(cpu.clone()));
            assert!(flags.iter().all(|&f| f == 9));
        } else {
            assert!(outputs.iter().all(|&w| w == 0));
            for (i, &f) in flags.iter().enumerate() {
                assert_eq!(f, (i % 3 != 0) as u32);
            }
        }
    }
}

#[test]
fn a_trapped_lane_is_graded_wrong() {
    let prog = Program::parse("1,2\ndiv 3,1,2\n3\n").unwrap();
    let (mut lds, mut outputs) = (vec![0u32; 1], vec![0u32; 1]);
    let (mut traps, mut flags) = (vec![0u32; 1], vec![5u32; 1]);
    dally_lds_kernel(
        0,
        0,
        &pack_ops(&prog),
        &[1, 2],
        &[3],
        &pack_bytes(&[4, 0]),
        &mut lds,
        &mut outputs,
        &mut traps,
        &pack_bytes(&[0]),
        &mut flags,
        1,
        1,
        2,
        1,
        1,
        1,
        1,
    );
    assert_eq!((traps[0], flags[0]), (1, 0));
}

#[test]
fn op_stream_layout() {
    let mut prog = Program::default();
    prog.push(Op { kind: OpKind::Select, dst: 0x1234, a: 0x5678, b: 0x9ABC, c: 0xDEF0, imm: 0x42 });
    assert_eq!(pack_ops(&prog), vec![0x1234_4211, 0x9ABC_5678, 0xDEF0, 0]);
    let kinds = [
        OpKind::SetImm,
        OpKind::Copy,
        OpKind::Not,
        OpKind::Abs,
        OpKind::And,
        OpKind::Or,
        OpKind::Xor,
        OpKind::Add,
        OpKind::Sub,
        OpKind::Mul,
        OpKind::Div,
        OpKind::CmpEq,
        OpKind::CmpNe,
        OpKind::CmpLt,
        OpKind::CmpLe,
        OpKind::CmpGt,
        OpKind::CmpGe,
        OpKind::Select,
    ];
    for (code, kind) in kinds.into_iter().enumerate() {
        assert_eq!(op_kind_code(kind), code as u32);
    }
}

#[test]
fn bytes_pack_and_unpack() {
    assert_eq!(pack_bytes(&[1, 2, 3, 4, 5]), vec![0x0403_0201, 5]);
    assert_eq!(unpack_bytes(&[0x0403_0201, 5], 5), vec![1, 2, 3, 4, 5]);
    assert_eq!(pack_bytes(&[]), Vec::<u32>::new());
    for n in 0..40usize {
        let bytes: Vec<u8> = (0..n).map(|i| (i * 77 + 13) as u8).collect();
        let words = pack_bytes(&bytes);
        assert_eq!(words.len(), word_count(n));
        assert_eq!(unpack_bytes(&words, n), bytes);
    }
    assert_eq!(pack_addrs(&[1, 65535, 7]), vec![1, 65535, 7]);
}

#[test]
fn uploaded_bytes_are_the_words_in_memory_order() {
    let params = GpuParams { n_instances: 1, n_ops: 0x0102_0304, n_in: 5, n_out: 6, cell_words: 7 };
    let words = [1u32, 0x0102_0304, 5, 6, 7];
    let want: Vec<u8> = words.iter().flat_map(|w| w.to_ne_bytes()).collect();
    assert_eq!(params.bytes(), want);
    assert_eq!(read_words(&want), words.to_vec());
    // an unaligned start does not matter
    let mut shifted = vec![0u8];
    shifted.extend(&want);
    assert_eq!(read_words(&shifted[1..]), words.to_vec());
}

#[test]
fn resident_buffers_and_batch_plan() {
    let prog = Program::parse("1,2\nadd 9,1,2\n9,1,2\n").unwrap();
    let r = Resident::new(&prog, 100);
    let stream: Vec<u8> = pack_ops(&prog).iter().flat_map(|w| w.to_ne_bytes()).collect();
    assert_eq!(r.ops, stream);
    let ins: Vec<u8> = [1u32, 2].iter().flat_map(|w| w.to_ne_bytes()).collect();
    assert_eq!(r.in_addrs, ins);
    let outs: Vec<u8> = [9u32, 1, 2].iter().flat_map(|w| w.to_ne_bytes()).collect();
    assert_eq!(r.out_addrs, outs);
    assert_eq!((r.n_ops, r.n_in, r.n_out, r.cell_words), (1, 2, 3, 3));
    assert_eq!((r.capacity, r.cells_bytes, r.traps_bytes), (100, 1200, 400));
    let instances: Vec<u8> = (0..130).collect();
    let plan = r.plan(&prog, &instances, 65).unwrap();
    let packed: Vec<u8> = pack_bytes(&instances).iter().flat_map(|w| w.to_ne_bytes()).collect();
    assert_eq!(plan.inputs, packed);
    assert_eq!(plan.out_words, 49);
    assert_eq!(plan.outputs, vec![0u8; 196]);
    assert_eq!(plan.groups, 2);
    let p = GpuParams::new(&prog, 65);
    assert_eq!(p, GpuParams { n_instances: 65, n_ops: 1, n_in: 2, n_out: 3, cell_words: 3 });
}

#[test]
fn a_batch_over_capacity_is_refused() {
    let prog = Program::parse("1\n1\n").unwrap();
    let r = Resident::new(&prog, 10);
    assert!(r.plan(&prog, &[0; 10], 10).is_ok());
    match r.plan(&prog, &[0; 11], 11) {
        Err((i, e)) => {
            assert_eq!(i, 0);
            assert_eq!(
                e,
                RunError::GpuUnavailable("batch 11 exceeds runner capacity 10".to_string())
            );
        }
        Ok(_) => panic!("accepted"),
    }
}

#[test]
fn rows_come_back_from_bytes() {
    let words = pack_bytes(&[1, 2, 3, 4, 5, 6]);
    let out_bytes: Vec<u8> = words.iter().flat_map(|w| w.to_ne_bytes()).collect();
    // more trap words than instances: those past the batch do not count
    let trap_bytes: Vec<u8> = [0u32, 0, 0, 1].iter().flat_map(|w| w.to_ne_bytes()).collect();
    assert_eq!(
        collect_rows(&out_bytes, &trap_bytes, 2, 3),
        Ok(vec![vec![1, 2], vec![3, 4], vec![5, 6]])
    );
    let trap_bytes: Vec<u8> = [0u32, 2, 1].iter().flat_map(|w| w.to_ne_bytes()).collect();
    assert_eq!(
        collect_rows(&out_bytes, &trap_bytes, 2, 3),
        Err((1, RunError::DivideByZero { op_index: usize::MAX }))
    );
}

#[test]
fn workgroups_cover_the_batch() {
    assert_eq!(groups_for(0, 64), 0);
    assert_eq!(groups_for(1, 64), 1);
    assert_eq!(groups_for(64, 64), 1);
    assert_eq!(groups_for(65, 64), 2);
    assert_eq!(groups_for(100_000, 32), 3125);
}

#[test]
fn a_lane_may_have_more_cells_than_the_program_needs() {
    let prog = Program::parse("1,2\nadd 3,1,2\n3\n").unwrap();
    for words in [1usize, 5, 16_384, 20_000] {
        let mut cells = vec![0xFFFF_FFFFu32; 2 * words];
        let mut outputs = vec![0u32; 1];
        let mut traps = vec![9u32; 2];
        dally_kernel(
            1,
            &pack_ops(&prog),
            &[1, 2],
            &[3],
            &pack_bytes(&[1, 1, 20, 30]),
            &mut cells,
            &mut outputs,
            &mut traps,
            2,
            1,
            2,
            1,
            words,
        );
        assert_eq!(outputs, vec![50 << 8]);
        assert_eq!(traps, vec![9, 0]);
        assert!(cells[..words].iter().all(|&w| w == 0xFFFF_FFFF));
    }
}

#[test]
fn what_a_trapped_row_holds_does_not_matter() {
    let traps = [0u32, 1, 0];
    let trap = RunError::DivideByZero { op_index: usize::MAX };
    for junk in [0u32, 0xAB00] {
        assert_eq!(collect_words(&[0x0003_0001 | junk], &traps, 1, 3), Err((1, trap.clone())));
        assert_eq!(collect_words(&[0x0003_0001 | junk], &traps, 1, 1), Ok(vec![vec![1]]));
    }
}
