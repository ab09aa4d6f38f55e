use zhc::hillis_steele::hillis_steele_scan;

fn carry_op(lo: u8, hi: u8) -> u8 {
    if hi == 1 {
        lo
    } else {
        hi
    }
}

#[test]
fn scan_with_one_associative_operator_gives_prefixes() {
    let add = |a: u64, b: u64| a.wrapping_add(b);
    for n in 0..20usize {
        let xs: Vec<u64> = (1..=n as u64).collect();
        let expected: Vec<u64> = (1..=n as u64).map(|i| i * (i + 1) / 2).collect();
        assert_eq!(hillis_steele_scan(&xs, &add, &add), expected, "n = {n}");
    }
    let pgs = [2u8, 1, 1, 0, 1, 2, 1, 1, 0];
    let mut expected = Vec::new();
    let mut c = pgs[0];
    expected.push(c);
    for &p in &pgs[1..] {
        c = carry_op(c, p);
        expected.push(c);
    }
    assert_eq!(hillis_steele_scan(&pgs, &carry_op, &carry_op), expected);
}

#[test]
fn scan_uses_first_next_to_the_resolved_part() {
    let first = |l: u64, u: u64| 100 + l + u;
    let rest = |l: u64, u: u64| l + u;
    assert_eq!(hillis_steele_scan(&[1, 2, 3, 4], &first, &rest), vec![1, 103, 106, 210]);
    assert_eq!(hillis_steele_scan(&[7], &first, &rest), vec![7]);
}
