use zhc::mul::{limb_mul_chain_plan, mul_plan, MulCalls, MulLut};

fn clear_lut(x: u64, l: MulLut) -> u64 {
    let (hi, lo) = (x / 4, x % 4);
    match l {
        MulLut::MultCarryMsgLsb => (hi * lo) % 4,
        MulLut::MultCarryMsgMsb => (hi * lo) / 4,
        MulLut::MultCarryMsgIsSome => (hi * lo != 0) as u64,
        MulLut::CarryInMsg => x / 4,
        MulLut::MsgOnly => x % 4,
        MulLut::IsSome => (x != 0) as u64,
    }
}

fn digits(v: u64, n: usize) -> Vec<u64> {
    (0..n).map(|i| (v >> (2 * i)) & 3).collect()
}

fn value(d: &[u64]) -> u64 {
    d.iter().rev().fold(0, |acc, x| acc * 4 + x)
}

fn run(a: u64, b: u64, blocks: usize, cut: u8, nu: usize) -> (Vec<u64>, u64) {
    let ops = MulCalls {
        add: |x: u64, y: u64| x + y,
        pack: |x: u64, y: u64| 4 * x + y,
        lut: clear_lut,
    };
    mul_plan(&digits(a, blocks), &digits(b, blocks), cut, nu, 3, 0, &ops)
}

#[test]
fn cut_product_gives_the_low_digits_and_the_overflow() {
    for &(a, b) in &[(0u64, 0u64), (1, 1), (3, 7), (15, 17), (200, 255), (255, 255), (16, 16), (1, 255)] {
        let (d, flag) = run(a, b, 4, 4, 5);
        assert_eq!(d.len(), 4);
        assert_eq!(value(&d), (a * b) % 256);
        assert_eq!(flag != 0, a * b >= 256, "{a} * {b}");
    }
}

#[test]
fn uncut_product_is_exact_and_flags_nothing() {
    for &(a, b) in &[(0u64, 9u64), (255, 255), (171, 205), (128, 2)] {
        let (d, flag) = run(a, b, 4, 8, 5);
        assert_eq!(value(&d), a * b);
        assert_eq!(flag, 0);
    }
}

#[test]
fn small_carry_threshold_still_multiplies() {
    for &(a, b) in &[(255u64, 255u64), (99, 201), (4095, 4095)] {
        let (d, flag) = run(a, b, 6, 6, 2);
        assert_eq!(value(&d), (a * b) % 4096);
        assert_eq!(flag != 0, a * b >= 4096);
    }
}

#[test]
fn nothing_past_the_cut_gives_the_zero_flag() {
    let ops = MulCalls {
        add: |x: u64, y: u64| x + y,
        pack: |x: u64, y: u64| 4 * x + y,
        lut: clear_lut,
    };
    let (d, flag) = mul_plan(&[], &[], 2, 5, 3, 7, &ops);
    assert!(d.is_empty());
    assert_eq!(flag, 7);
}

#[test]
fn two_chained_links_give_the_full_product() {
    let ops = MulCalls {
        add: |x: u64, y: u64| x + y,
        pack: |x: u64, y: u64| 4 * x + y,
        lut: clear_lut,
    };
    for &(a, b) in &[(255u64, 255u64), (171, 205), (3, 200), (0, 77)] {
        let (da, db) = (digits(a, 4), digits(b, 4));
        let (low, _, carry) = limb_mul_chain_plan(&da, &db, 0, 4, Vec::new(), 5, 3, 0, &ops);
        let (high, flag, rest) = limb_mul_chain_plan(&da, &db, 4, 8, carry, 5, 3, 0, &ops);
        assert_eq!(value(&low), (a * b) % 256);
        let mut all = low.clone();
        all.extend(high);
        assert_eq!(value(&all), a * b);
        assert!(rest.iter().all(|&x| x == 0));
        // The second link flags the nonzero pairs below its window.
        let below = (0..4).any(|i| (0..4).any(|j| i + j < 4 && da[i] * db[j] != 0));
        assert_eq!(flag, below as u64);
    }
}

#[test]
fn carry_in_lands_in_the_first_column_of_the_window() {
    let ops = MulCalls {
        add: |x: u64, y: u64| x + y,
        pack: |x: u64, y: u64| 4 * x + y,
        lut: clear_lut,
    };
    let (d, flag, out) = limb_mul_chain_plan(&[], &[], 2, 3, vec![1, 2, 3], 5, 3, 0, &ops);
    // 1 + 2 + 3 = 6: digit 2, carry 1 into column 3.
    assert_eq!(d, vec![2]);
    assert_eq!(out, vec![1]);
    assert_eq!(flag, 1);
}
