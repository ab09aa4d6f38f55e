use zhc::aes::{
    clear_xtime, is_aes_sbox, is_dense_table, is_xtime, sbox_inverter_clear, sbox_schedule,
    DigitSel, AES_SBOX,
};

/// The S-box computed by the circuit schedule on clear bits.
fn clear_sbox(byte: u8) -> u8 {
    let bits: [bool; 8] = std::array::from_fn(|i| (byte >> (7 - i)) & 1 == 1);
    let out = sbox_schedule(
        bits,
        &|a: bool, b: bool| a ^ b,
        &|a: bool, b: bool| a & b,
        &|a: bool| !a,
        &|a: bool| a,
        &sbox_inverter_clear,
        &|a: bool, b: bool| a & b,
    );
    out.iter().fold(0u8, |acc, b| (acc << 1) | *b as u8)
}

fn table_of(f: impl Fn(u8) -> u8) -> Vec<(u128, u128)> {
    (0..=255u8).map(|x| (u128::from(x), u128::from(f(x)))).collect()
}

#[test]
fn netlist_matches_sbox_table() {
    for x in 0..=255u8 {
        assert_eq!(clear_sbox(x), AES_SBOX[x as usize], "netlist at {x:#04x}");
    }
}

#[test]
fn xtime_known_values() {
    assert_eq!(clear_xtime(0x57), 0xAE);
    assert_eq!(clear_xtime(0xAE), 0x47);
    assert_eq!(clear_xtime(0x47), 0x8E);
    assert_eq!(clear_xtime(0x8E), 0x07);
    assert_eq!(clear_xtime(0x80), 0x1B);
    assert_eq!(clear_xtime(0), 0);
}

#[test]
fn xtime_is_additive() {
    for a in [0x00u8, 0x01, 0x57, 0x80, 0xC3, 0xFF] {
        for b in [0x00u8, 0x13, 0x80, 0x9A, 0xFF] {
            assert_eq!(clear_xtime(a ^ b), clear_xtime(a) ^ clear_xtime(b));
        }
    }
}

#[test]
fn sbox_known_values() {
    assert_eq!(clear_sbox(0x00), 0x63);
    assert_eq!(clear_sbox(0x53), 0xED);
    assert_eq!(clear_sbox(0xFF), 0x16);
}

#[test]
fn dense_tables_are_recognised() {
    let sbox = table_of(|x| AES_SBOX[x as usize]);
    let xt = table_of(clear_xtime);
    assert!(is_aes_sbox(&sbox));
    assert!(!is_xtime(&sbox));
    assert!(is_xtime(&xt));
    assert!(!is_aes_sbox(&xt));

    // Order does not matter.
    let mut rev = sbox.clone();
    rev.reverse();
    assert!(is_aes_sbox(&rev));
    assert!(is_dense_table(&rev, |x| AES_SBOX[x as usize]));
}

#[test]
fn sparse_or_broken_tables_are_refused() {
    let sbox = table_of(|x| AES_SBOX[x as usize]);
    // Too short.
    assert!(!is_aes_sbox(&sbox[..255]));
    // A key out of range.
    let mut bad_key = sbox.clone();
    bad_key[7] = (256, 0);
    assert!(!is_aes_sbox(&bad_key));
    // A key twice, so another is missing.
    let mut dup = sbox.clone();
    dup[1] = dup[0];
    assert!(!is_aes_sbox(&dup));
    // A wrong value.
    let mut wrong = sbox.clone();
    wrong[3].1 ^= 1;
    assert!(!is_aes_sbox(&wrong));
    assert!(!is_dense_table(&[], |x| x));
}

#[test]
fn digit_selection_reads_bits() {
    assert_eq!(DigitSel::Lo.read(0b10), 0);
    assert_eq!(DigitSel::Lo.read(0b11), 1);
    assert_eq!(DigitSel::Hi.read(0b10), 1);
    assert_eq!(DigitSel::Hi.read(0b01), 0);
    assert_eq!(DigitSel::Xor.read(0b11), 0);
    assert_eq!(DigitSel::Xor.read(0b10), 1);
}

#[test]
fn inverter_of_zero_is_zero() {
    assert_eq!(sbox_inverter_clear([false; 4]), [false; 9]);
}

#[test]
fn schedule_calls_each_operation_a_fixed_number_of_times() {
    for byte in [0u8, 1, 0x53, 0xff] {
        let (xors, ands, nots, reduces, invs, digits) =
            (std::cell::Cell::new(0), std::cell::Cell::new(0), std::cell::Cell::new(0), std::cell::Cell::new(0), std::cell::Cell::new(0), std::cell::Cell::new(0));
        let bits: [bool; 8] = std::array::from_fn(|i| (byte >> (7 - i)) & 1 == 1);
        sbox_schedule(
            bits,
            &|a: bool, b: bool| {
                xors.set(xors.get() + 1);
                a ^ b
            },
            &|a: bool, b: bool| {
                ands.set(ands.get() + 1);
                a & b
            },
            &|a: bool| {
                nots.set(nots.get() + 1);
                !a
            },
            &|a: bool| {
                reduces.set(reduces.get() + 1);
                a
            },
            &|t: [bool; 4]| {
                invs.set(invs.get() + 1);
                sbox_inverter_clear(t)
            },
            &|a: bool, b: bool| {
                digits.set(digits.get() + 1);
                a & b
            },
        );
        assert_eq!(invs.get(), 1);
        assert_eq!(ands.get(), 9);
        assert_eq!(digits.get(), 18);
        assert_eq!(reduces.get(), 8);
        assert_eq!(nots.get(), 4);
    }
}
