use zhc::aes::{clear_xtime, AES_SBOX};
use zhc::match_value::{match_value_bypass, match_value_plan, MatchBypass};

fn run(src: &[u8], table: &[(u128, u128)], in_size: u16, out_size: u16) -> (Vec<u8>, Vec<u8>) {
    match_value_plan(
        src,
        table,
        in_size,
        out_size,
        &|h: u8, l: u8| 4 * h + l,
        &|x: u8, t: Vec<u8>| t[x as usize],
        &|c: u8, pos: usize, a: u8, b: u8| if (c >> pos) & 1 == 1 { b } else { a },
    )
}

fn digits(v: u32, n: usize) -> Vec<u8> {
    (0..n).map(|i| ((v >> (2 * i)) & 3) as u8).collect()
}

#[test]
fn matched_input_reads_the_table() {
    let table = [(0x53u128, 0xEDu128), (1, 0x7c)];
    let (out, flag) = run(&digits(0x53, 4), &table, 8, 8);
    assert_eq!(out, digits(0xED, 4));
    assert_eq!(flag, vec![1]);
    let (out, flag) = run(&digits(1, 4), &table, 8, 8);
    assert_eq!(out, digits(0x7c, 4));
    assert_eq!(flag, vec![1]);
}

#[test]
fn unmatched_input_gives_zero_and_no_flag() {
    let table = [(0x53u128, 0xEDu128)];
    let (out, flag) = run(&digits(0x80, 4), &table, 8, 8);
    assert_eq!(out, vec![0, 0, 0, 0]);
    assert_eq!(flag, vec![0]);
}

#[test]
fn narrow_inputs_and_outputs() {
    // Two bits in, two bits out: one block each.
    let table = [(1u128, 3u128), (2, 1)];
    for x in 0..4u32 {
        let (out, flag) = run(&digits(x, 1), &table, 2, 2);
        let expected = match x { 1 => 3, 2 => 1, _ => 0 };
        assert_eq!(out, vec![expected]);
        assert_eq!(flag, vec![u8::from(x == 1 || x == 2)]);
    }
    // Five bits in (three blocks), three bits out (two blocks).
    let table: Vec<(u128, u128)> = (0..32u128).map(|k| (k, (k * 5) % 8)).collect();
    for x in 0..32u32 {
        let (out, flag) = run(&digits(x, 3), &table, 5, 3);
        assert_eq!(out, digits((x * 5) % 8, 2));
        assert_eq!(flag, vec![1]);
    }
}

#[test]
fn dedicated_circuits_for_sbox_and_xtime() {
    let sbox: Vec<(u128, u128)> = (0..=255u8).map(|x| (x as u128, AES_SBOX[x as usize] as u128)).collect();
    let xt: Vec<(u128, u128)> = (0..=255u8).map(|x| (x as u128, clear_xtime(x) as u128)).collect();
    assert_eq!(match_value_bypass(&sbox, 8, 8), Some(MatchBypass::Sbox));
    assert_eq!(match_value_bypass(&xt, 8, 8), Some(MatchBypass::Xtime));
    assert_eq!(match_value_bypass(&sbox, 8, 16), None);
    assert_eq!(match_value_bypass(&sbox[..10], 8, 8), None);
}
