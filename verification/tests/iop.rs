use zhc::iop::{mh_mul_partition_groups, mh_mul_schoolbook_depth, Iop};
use zhc::kinds::{vector_zip_with, ExtensionBehavior};
use zhc::scope::Scope;
use zhc::muls::{carry_order, order_terms, CarryOrder};

#[test]
fn opcodes_are_the_fixed_bytes() {
    assert_eq!(Iop::Adds.get_opcode(), 0xA0);
    assert_eq!(Iop::OvfMuls.get_opcode(), 0xAB);
    assert_eq!(Iop::Add.get_opcode(), 0xE0);
    assert_eq!(Iop::Sub.get_opcode(), 0xE2);
    assert_eq!(Iop::BwNot.get_opcode(), 0xD3);
    assert_eq!(Iop::CmpNeq.get_opcode(), 0xC5);
    assert_eq!(Iop::IfThenElse.get_opcode(), 0xCB);
    assert_eq!(Iop::Erc7984.get_opcode(), 0x80);
    assert_eq!(Iop::TrailingOnes.get_opcode(), 0x87);
    assert_eq!(Iop::Erc7984Simd.get_opcode(), 0xF1);
    assert_eq!(Iop::Sum { n: 3 }.get_opcode(), 0xF8);
    assert_eq!(Iop::Sum { n: 26 }.get_opcode(), 0xF8);
    assert_eq!(Iop::Cast { to_size: 64 }.get_opcode(), 0xFC);
    assert_eq!(Iop::Flip.get_opcode(), 0xFE);
    assert_eq!(Iop::MemCpy.get_opcode(), 0xFF);
}

#[test]
fn legacy_scheduler_choice() {
    assert!(Iop::Mul.needs_legacy_scheduler(8));
    assert!(Iop::OvfMul.needs_legacy_scheduler(64));
    assert!(Iop::LeftRot.needs_legacy_scheduler(128));
    assert!(!Iop::LeftRot.needs_legacy_scheduler(64));
    assert!(Iop::RightShift.needs_legacy_scheduler(128));
    assert!(!Iop::RightShifts.needs_legacy_scheduler(128));
    assert!(!Iop::Add.needs_legacy_scheduler(128));
}

#[test]
fn multi_hpu_multiplier_layout() {
    assert_eq!(mh_mul_schoolbook_depth(2), 2);
    assert_eq!(mh_mul_schoolbook_depth(4), 2);
    assert_eq!(mh_mul_schoolbook_depth(8), 4);
    assert_eq!(mh_mul_partition_groups(2), vec![vec![1, 2, 0, 9], vec![3, 4, 6, 7]]);
    assert_eq!(mh_mul_partition_groups(4).len(), 4);
    let eight = mh_mul_partition_groups(8);
    assert_eq!(eight.len(), 8);
    assert_eq!(eight[5], vec![11, 12, 30, 32, 34]);
}

#[test]
fn zip_with_each_extension() {
    let a = [1u32, 2, 3, 4];
    let b = [10u32, 20];
    let add = |x: u32, y: u32| x.wrapping_add(y);
    assert_eq!(vector_zip_with(&a, &b, &add, &ExtensionBehavior::Limit), vec![11, 22]);
    assert_eq!(vector_zip_with(&a, &b, &add, &ExtensionBehavior::Passthrough), vec![11, 22, 3, 4]);
    assert_eq!(vector_zip_with(&b, &a, &add, &ExtensionBehavior::Passthrough), vec![11, 22, 3, 4]);
    assert_eq!(vector_zip_with(&b, &b, &add, &ExtensionBehavior::Panic), vec![20, 40]);
    assert_eq!(vector_zip_with(&[], &b, &add, &ExtensionBehavior::Limit), Vec::<u32>::new());
}

#[test]
fn scope_defaults_to_global() {
    assert_eq!(Scope::default(), Scope::Global);
}

#[test]
fn carry_order_switches_at_40_bits() {
    assert_eq!(carry_order(8), CarryOrder::Late);
    assert_eq!(carry_order(39), CarryOrder::Late);
    assert_eq!(carry_order(40), CarryOrder::Interleaved);
    assert_eq!(carry_order(128), CarryOrder::Interleaved);
}

#[test]
fn terms_are_ordered_by_carry_order() {
    let pp = vec![1u8, 2, 3];
    let cin = vec![10u8, 20];
    assert_eq!(order_terms(pp.clone(), cin.clone(), CarryOrder::Late), vec![1, 2, 3, 10, 20]);
    assert_eq!(order_terms(pp.clone(), cin.clone(), CarryOrder::Interleaved), vec![1, 10, 2, 20, 3]);
    assert_eq!(order_terms(vec![1u8], vec![10, 20, 30], CarryOrder::Interleaved), vec![1, 10, 20, 30]);
    assert_eq!(order_terms(Vec::<u8>::new(), vec![], CarryOrder::Interleaved), Vec::<u8>::new());
}
