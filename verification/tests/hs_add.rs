use zhc::hs_add::{add_hillis_steele_plan, hillis_steele_add_sums, AddLut, AddOps};

fn lut_code(l: AddLut) -> u64 {
    match l {
        AddLut::ExtractPropGroup0 => 1,
        AddLut::ExtractPropGroup1 => 2,
        AddLut::ExtractPropGroup2 => 3,
        AddLut::ExtractPropGroup3Padding => 4,
        AddLut::SolvePropGroupFinal0 => 5,
        AddLut::SolvePropGroupFinal1 => 6,
        AddLut::SolvePropGroupFinal2 => 7,
        AddLut::ReduceCarryPadWrapping => 8,
        AddLut::SolveProp => 9,
        AddLut::SolvePropCarry => 10,
        AddLut::MsgOnly => 11,
        AddLut::CarryIsSome => 12,
    }
}

#[test]
fn one_block_with_transparent_operations() {
    // With lookups that hand their input back, every block of the plan is the raw sum.
    let ops = AddOps {
        add: |a: u64, b: u64| a.wrapping_add(b),
        temper_add: |a: u64, b: u64| a.wrapping_add(b),
        pack: |u: u64, _l: u64| u,
        inc: |a: u64| a,
        lut: |a: u64, _l: AddLut| a,
        lut2: |a: u64| (a, a),
    };
    let (out, cout) = add_hillis_steele_plan(&[3], &[4], None, false, 0, &ops);
    assert_eq!(out, vec![7]);
    assert_eq!(cout, 7);
}

#[test]
fn the_plan_keeps_the_longer_operand_length() {
    let ops = AddOps {
        add: |a: u64, b: u64| a.wrapping_add(b),
        temper_add: |a: u64, b: u64| a.wrapping_add(b).wrapping_mul(3),
        pack: |u: u64, l: u64| u.wrapping_mul(16).wrapping_add(l),
        inc: |a: u64| a.wrapping_add(1),
        lut: |a: u64, l: AddLut| a.wrapping_mul(31).wrapping_add(lut_code(l)),
        lut2: |a: u64| (a % 4, a / 4),
    };
    for n in 1..=9usize {
        let lhs: Vec<u64> = (0..n as u64).collect();
        let rhs: Vec<u64> = vec![1, 2];
        let (out, _) = add_hillis_steele_plan(&lhs, &rhs, Some(1), true, 0, &ops);
        assert_eq!(out.len(), if n < 2 { 2 } else { n });
    }
    // Cleaning applies MsgOnly to each block.
    let (raw_out, c1) = hillis_steele_add_sums(&vec![5, 6, 7], None, false, 0, &ops);
    let (clean_out, c2) = hillis_steele_add_sums(&vec![5, 6, 7], None, true, 0, &ops);
    assert_eq!(c1, c2);
    let expected: Vec<u64> = raw_out.iter().map(|a| a.wrapping_mul(31).wrapping_add(11)).collect();
    assert_eq!(clean_out, expected);
}
