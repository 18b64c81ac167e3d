use dally_eval::cli::{
    check_cost, count_correct, is_fixture, parse_fixture, scoring_facts, synth_instances,
    BENCH_SEED,
};
use dally_eval::ir::Program;

fn fixture(n: u32, width: u32, cost: u64, inputs: &[u8], expected: &[u8]) -> Vec<u8> {
    let mut bin = vec![];
    bin.extend(n.to_le_bytes());
    bin.extend(width.to_le_bytes());
    bin.extend(cost.to_le_bytes());
    bin.extend(inputs);
    bin.extend((expected.len() as u32).to_le_bytes());
    bin.extend(expected);
    bin
}

#[test]
fn fixtures_parse() {
    let bin = fixture(2, 3, 0x0102_0304_0506_0708, &[1, 2, 3, 4, 5, 6], &[7, 8]);
    assert!(is_fixture(&bin));
    let (n, width, cost, inputs, expected) = parse_fixture(&bin);
    assert_eq!((n, width, cost), (2, 3, 0x0102_0304_0506_0708));
    assert_eq!(inputs, vec![1, 2, 3, 4, 5, 6]);
    assert_eq!(expected, vec![7, 8]);
}

#[test]
fn short_fixtures_are_recognised() {
    let bin = fixture(2, 3, 9, &[1, 2, 3, 4, 5, 6], &[7, 8]);
    for cut in 0..bin.len() {
        assert!(!is_fixture(&bin[..cut]), "{cut}");
    }
    // bytes after the fixture do not matter
    let mut longer = bin.clone();
    longer.push(99);
    assert!(is_fixture(&longer));
    assert_eq!(parse_fixture(&longer).4, vec![7, 8]);
    // a header that asks for more than any file holds
    assert!(!is_fixture(&fixture(u32::MAX, u32::MAX, 0, &[], &[])));
}

#[test]
fn scoring_facts_are_one_json_object() {
    let prog = Program::parse("10,11\nset 1,7\nadd 2,10,11\nxor 3,2,1\n2,3\n").unwrap();
    assert_eq!(
        scoring_facts(&prog),
        "{\"cost\":15,\"ops\":3,\"inputs\":2,\"outputs\":2}"
    );
}

#[test]
fn reference_costs_are_compared() {
    assert_eq!(check_cost(15, 15), Ok(()));
    assert_eq!(
        check_cost(15, 16),
        Err("static cost mismatch: rust 15 vs reference 16".to_string())
    );
}

#[test]
fn correct_rows_are_counted() {
    let rows = vec![vec![1, 2], vec![3, 4], vec![5, 6]];
    assert_eq!(count_correct(&rows, &[1, 2, 3, 4, 5, 6], 2), 3);
    assert_eq!(count_correct(&rows, &[1, 2, 0, 4, 5, 6], 2), 2);
    // a chunk that is cut short equals no full row
    assert_eq!(count_correct(&rows, &[1, 2, 3], 2), 1);
    assert_eq!(count_correct(&rows, &[], 2), 0);
    assert_eq!(count_correct(&[vec![], vec![]].to_vec(), &[1, 2], 2), 0);
    assert_eq!(count_correct(&vec![vec![7]], &[7], 2), 1);
}

#[test]
fn synthetic_instances_follow_the_generator() {
    let prog = Program::parse("1,2,3\n1\n").unwrap();
    let v = synth_instances(&prog, 50, BENCH_SEED);
    assert_eq!(v.len(), 150);
    let mut s = 0x2545F4914F6CDD1Du64;
    for &b in &v {
        s = s.wrapping_mul(6364136223846793005).wrapping_add(1442695040888963407);
        assert_eq!(b, (s >> 33) as u8);
    }
    assert_eq!(synth_instances(&prog, 0, 1), Vec::<u8>::new());
}
