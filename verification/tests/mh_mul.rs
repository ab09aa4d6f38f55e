use zhc::mh_mul::mh_mul_plan;
use zhc::mul::{MulCalls, MulLut};

fn clear_lut(x: u64, l: MulLut) -> u64 {
    let (hi, lo) = (x / 4, x % 4);
    match l {
        MulLut::MultCarryMsgLsb => (hi * lo) % 4,
        MulLut::MultCarryMsgMsb => (hi * lo) / 4,
        MulLut::MultCarryMsgIsSome => (hi * lo != 0) as u64,
        MulLut::CarryInMsg => x / 4,
        MulLut::MsgOnly => x % 4,
        MulLut::IsSome => (x != 0) as u64,
    }
}

fn digits(v: u64, n: usize) -> Vec<u64> {
    (0..n).map(|i| (v >> (2 * i)) & 3).collect()
}

fn value(d: &[u64]) -> u64 {
    d.iter().rev().fold(0, |acc, x| acc * 4 + x)
}

fn add_limbs(x: Vec<u64>, y: Vec<u64>, c: Option<u64>) -> (Vec<u64>, u64) {
    let n = x.len().max(y.len());
    let v = value(&x) + value(&y) + c.unwrap_or(0);
    (digits(v % (1 << (2 * n)), n), v >> (2 * n))
}

fn run(a: u64, b: u64, blocks: usize, split: usize) -> (u64, Vec<Vec<u64>>) {
    let ops = MulCalls {
        add: |x: u64, y: u64| x + y,
        pack: |x: u64, y: u64| 4 * x + y,
        lut: clear_lut,
    };
    mh_mul_plan(&digits(a, blocks), &digits(b, blocks), blocks, split, 5, 3, 0, &ops, &add_limbs)
}

#[test]
fn split_product_gives_the_low_limbs() {
    for &(blocks, split) in &[(4usize, 2usize), (6, 2), (6, 3), (8, 4), (8, 2)] {
        let m = 1u64 << (2 * blocks);
        for &(a, b) in &[(1u64, 1u64), (3, 5), (255, 255), (200, 123), (4095, 4095), (65535, 65535), (1234, 4321)] {
            let (a, b) = (a % m, b % m);
            let (flag, limbs) = run(a, b, blocks, split);
            assert_eq!(limbs.len(), split);
            let all: Vec<u64> = limbs.concat();
            assert_eq!(all.len(), blocks, "{blocks} {split} {a} {b}");
            assert_eq!(value(&all), (a * b) % m, "{blocks} {split} {a} {b}");
            assert!(flag <= 1);
        }
    }
}
