use zhc::div::{div_core_plan, DivCalls, DivLut};

fn digits(v: u64, n: usize) -> Vec<u64> {
    (0..n).map(|i| (v >> (2 * i)) & 3).collect()
}

fn value(d: &[u64]) -> u64 {
    d.iter().rev().fold(0, |acc, x| acc * 4 + x)
}

fn lut(x: u64, l: DivLut) -> u64 {
    match l {
        DivLut::MsgNotNullPos1 => if x % 4 != 0 { 2 } else { 0 },
        DivLut::IsNullPos1 => if x == 0 { 2 } else { 0 },
        DivLut::Refresh => x % 4,
        DivLut::SolveQuotientPos1 => 3 - x / 2,
        _ => unreachable!(),
    }
}

fn pack_lut(a: u64, b: u64, l: DivLut) -> u64 {
    match l {
        DivLut::BwXor => a ^ b,
        DivLut::IfPos1FalseZeroed => if a & 2 != 0 { b % 4 } else { 0 },
        DivLut::IfFalseZeroed => if a & 1 != 0 { b % 4 } else { 0 },
        _ => unreachable!(),
    }
}

/// Adds block-wise with the carries propagated; the top block keeps its carry.
fn adder(x: Vec<u64>, y: Vec<u64>) -> Vec<u64> {
    let n = x.len().max(y.len());
    let mut out = Vec::new();
    let mut carry = 0;
    for i in 0..n {
        let s = x.get(i).copied().unwrap_or(0) + y.get(i).copied().unwrap_or(0) + carry;
        if i + 1 < n {
            out.push(s % 4);
            carry = s / 4;
        } else {
            out.push(s);
        }
    }
    out
}

fn not_null(d: &[u64]) -> Vec<u64> {
    (0..d.len()).map(|i| d[i..].iter().any(|&x| x != 0) as u64).collect()
}

fn opposite(d: &[u64]) -> Vec<u64> {
    let mut out = vec![4 - d[0]];
    out.extend(d[1..].iter().map(|x| 3 - x));
    out.push(3);
    out
}

fn divide(a: u64, b: u64, n: usize) -> (u64, u64) {
    let bd = digits(b, n);
    let x2 = digits(2 * b, n + 1);
    let x3 = digits(3 * b, n + 1);
    let div_x = vec![bd.clone(), x2.clone(), x3.clone()];
    let nn = vec![not_null(&bd), not_null(&x2), not_null(&x3)];
    let md = vec![opposite(&bd), opposite(&x2), opposite(&x3)];
    let ops = DivCalls {
        add: |x: u64, y: u64| x + y,
        sub: |x: u64, y: u64| x - y,
        lut,
        pack_lut,
        adder,
    };
    let (q, r) = div_core_plan(&digits(a, n), nn[0][0], &div_x, &nn, &md, 3, &ops);
    assert_eq!(q.len(), n);
    assert_eq!(r.len(), n);
    (value(&q), value(&r))
}

#[test]
fn divides_small_integers() {
    for &(a, b) in &[(7u64, 2u64), (255, 1), (255, 255), (200, 7), (100, 10), (3, 5), (0, 9), (250, 16), (17, 3)] {
        assert_eq!(divide(a, b, 4), (a / b, a % b), "{a} / {b}");
    }
}

#[test]
fn dividing_by_zero_gives_a_zero_quotient() {
    let (q, _) = divide(77, 0, 4);
    assert_eq!(q, 0);
}
