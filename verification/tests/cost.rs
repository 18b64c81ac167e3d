use dally_eval::cost::cost;

#[test]
fn matches_reference_formula() {
    // brute force against a naive float ceil for the first 1<<20
    for idx in 1u32..(1 << 20) {
        let want = (idx as f64).sqrt().ceil() as u64;
        assert_eq!(cost(idx), want, "idx={idx}");
    }
}

#[test]
fn known_values() {
    assert_eq!(cost(1), 1);
    assert_eq!(cost(2), 2);
    assert_eq!(cost(4), 2);
    assert_eq!(cost(5), 3);
    assert_eq!(cost(9), 3);
    assert_eq!(cost(10), 4);
    assert_eq!(cost(1_000_000), 1_000);
    assert_eq!(cost(u32::MAX), 65_536);
}

#[test]
fn cost_grows_with_distance() {
    let mut last = 0u64;
    for idx in 1u32..10_000 {
        let c = cost(idx);
        assert!(c >= last && c <= last + 1);
        last = c;
    }
    // the square itself is the last cell of its ring
    for side in 1u32..65_535 {
        assert_eq!(cost(side * side), side as u64);
        assert_eq!(cost(side * side + 1), side as u64 + 1);
    }
}
