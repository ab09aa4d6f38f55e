use zhc::add_tree::{
    lut_add8, lut_carry5, lut_gen, lut_gen5, lut_gen_block, lut_gen_top, lut_gstate, lut_gstate5,
    lut_hi_plus_carry_lo, lut_lo_plus_carry_hi, lut_lo_plus_hi, lut_msg, lut_state, lut_top,
    lut_top_x4,
};

#[test]
fn block_state_tables() {
    assert_eq!(lut_state::<4>(5), 8);
    assert_eq!(lut_state::<4>(3), 4);
    assert_eq!(lut_state::<4>(2), 0);
    assert_eq!(lut_gen::<2>(4), 2);
    assert_eq!(lut_gen::<2>(3), 0);
    assert_eq!(lut_gen_block::<2>(6), 4);
    assert_eq!(lut_gen_block::<2>(1), 0);
    assert_eq!(lut_msg(6), 2);
    assert_eq!(lut_msg(3), 3);
}

#[test]
fn group_state_tables_are_negacyclic() {
    // Weighted sum over two members: generate from 4, propagate at 3.
    assert_eq!(lut_gstate::<1, 2, 0>(5), 2);
    assert_eq!(lut_gstate::<1, 2, 0>(3), 1);
    assert_eq!(lut_gstate::<1, 2, 0>(2), 0);
    // Padding bit set: the negated entry.
    assert_eq!(lut_gstate::<1, 2, 0>(20), 30);
    assert_eq!(lut_gstate::<1, 2, 0>(19), 31);
    assert_eq!(lut_gstate::<1, 2, 0>(17), 0);
    // An offset moves the true value.
    assert_eq!(lut_gstate::<2, 2, 3>(0), 2);
}

#[test]
fn five_bit_state_tables() {
    assert_eq!(lut_gstate5::<2, 0>(15), 0);
    assert_eq!(lut_gstate5::<2, 0>(31), 0);
    assert_eq!(lut_gstate5::<2, 0>(3), 30);
    assert_eq!(lut_gstate5::<2, 0>(20), 2);
    assert_eq!(lut_gen5::<4, 0>(3), 28);
    assert_eq!(lut_gen5::<4, 0>(17), 4);
    assert_eq!(lut_carry5::<1>(14), 31);
    assert_eq!(lut_carry5::<1>(15), 1);
}

#[test]
fn top_bit_tables() {
    assert_eq!(lut_gen_top::<2, 1, 0>(4), 2);
    assert_eq!(lut_gen_top::<2, 1, 0>(3), 0);
    assert_eq!(lut_gen_top::<2, 1, 0>(20), 30);
    assert_eq!(lut_top::<3, 0>(8), 1);
    assert_eq!(lut_top::<3, 0>(7), 0);
    assert_eq!(lut_top::<3, 0>(24), 31);
    assert_eq!(lut_top_x4::<2>(4), 4);
    assert_eq!(lut_top_x4::<2>(3), 0);
}

#[test]
fn digit_addition_tables() {
    assert_eq!(lut_add8::<0>(11), 0);
    assert_eq!(lut_add8::<0>(6), 2);
    assert_eq!(lut_add8::<0>(13), 2);
    assert_eq!(lut_hi_plus_carry_lo(11), 3);
    assert_eq!(lut_hi_plus_carry_lo(13), 3);
    assert_eq!(lut_hi_plus_carry_lo(14), 0);
    assert_eq!(lut_lo_plus_carry_hi(9), 2);
    assert_eq!(lut_lo_plus_carry_hi(7), 3);
    assert_eq!(lut_lo_plus_carry_hi(11), 0);
    assert_eq!(lut_lo_plus_hi(5), 2);
    assert_eq!(lut_lo_plus_hi(7), 0);
}
