//! The integer operations that the pipeline supports, with their fixed opcode
//! bytes and the scheduling decisions taken for them.
use vstd::prelude::*;

verus! {

/// Integer operations supported by the pipeline.
///
/// Each operation has a fixed opcode byte (see [`Iop::get_opcode`]), kept as it
/// is for the tooling and hardware that already expect those values.
#[derive(Clone, Debug, Hash, PartialEq, Eq)]
pub enum Iop {
    // Ciphertext x immediate: arithmetic
    Adds,
    Subs,
    Ssub,
    Muls,
    Divs,
    Mods,
    // Ciphertext x immediate: overflowing arithmetic
    OvfAdds,
    OvfSubs,
    OvfSsub,
    OvfMuls,
    // Ciphertext x immediate: rotation and shift
    RightShifts,
    LeftShifts,
    RightRots,
    LeftRots,
    // Ciphertext x ciphertext: arithmetic
    Add,
    Sub,
    Mul,
    Div,
    Mod,
    // Ciphertext x ciphertext: overflowing arithmetic
    OvfAdd,
    OvfSub,
    OvfMul,
    // Bitwise operations
    BwAnd,
    BwOr,
    BwXor,
    BwNot,
    // Ciphertext x ciphertext: rotation and shift
    RightShift,
    LeftShift,
    RightRot,
    LeftRot,
    // Comparisons
    CmpGt,
    CmpGte,
    CmpLt,
    CmpLte,
    CmpEq,
    CmpNeq,
    /// Selects a ciphertext or forces it to 0, on a boolean ciphertext.
    IfThenZero,
    /// Selects one of two ciphertexts on a boolean ciphertext.
    IfThenElse,
    /// The ERC7984 transfer: two ciphertexts out of three.
    Erc7984,
    // Bit counts
    CountZeros,
    CountOnes,
    Ilog2,
    LeadingZeros,
    LeadingOnes,
    TrailingZeros,
    TrailingOnes,
    // SIMD variants
    AddSimd,
    Erc7984Simd,
    Sum { n: u16 },
    // Utility operations
    Cast { to_size: u16 },
    Flip,
    /// Copy of a ciphertext already in memory.
    MemCpy,
}

impl Iop {
    /// The opcode byte of the operation.
    pub open spec fn opcode(self) -> u8 {
        match self {
            Iop::Adds => 0xA0,
            Iop::Subs => 0xA1,
            Iop::Ssub => 0xA2,
            Iop::Muls => 0xA3,
            Iop::Divs => 0xA4,
            Iop::Mods => 0xA5,
            Iop::OvfAdds => 0xA8,
            Iop::OvfSubs => 0xA9,
            Iop::OvfSsub => 0xAA,
            Iop::OvfMuls => 0xAB,
            Iop::RightShifts => 0xAC,
            Iop::LeftShifts => 0xAD,
            Iop::RightRots => 0xAE,
            Iop::LeftRots => 0xAF,
            Iop::Add => 0xE0,
            Iop::Sub => 0xE2,
            Iop::Mul => 0xE4,
            Iop::Div => 0xE5,
            Iop::Mod => 0xE6,
            Iop::OvfAdd => 0xE8,
            Iop::OvfSub => 0xEA,
            Iop::OvfMul => 0xEC,
            Iop::BwAnd => 0xD0,
            Iop::BwOr => 0xD1,
            Iop::BwXor => 0xD2,
            Iop::BwNot => 0xD3,
            Iop::RightShift => 0xDC,
            Iop::LeftShift => 0xDD,
            Iop::RightRot => 0xDE,
            Iop::LeftRot => 0xDF,
            Iop::CmpGt => 0xC0,
            Iop::CmpGte => 0xC1,
            Iop::CmpLt => 0xC2,
            Iop::CmpLte => 0xC3,
            Iop::CmpEq => 0xC4,
            Iop::CmpNeq => 0xC5,
            Iop::IfThenZero => 0xCA,
            Iop::IfThenElse => 0xCB,
            Iop::Erc7984 => 0x80,
            Iop::CountZeros => 0x81,
            Iop::CountOnes => 0x82,
            Iop::Ilog2 => 0x83,
            Iop::LeadingZeros => 0x84,
            Iop::LeadingOnes => 0x85,
            Iop::TrailingZeros => 0x86,
            Iop::TrailingOnes => 0x87,
            Iop::AddSimd => 0xF0,
            Iop::Erc7984Simd => 0xF1,
            Iop::Sum { .. } => 0xF8,
            Iop::Cast { .. } => 0xFC,
            Iop::Flip => 0xFE,
            Iop::MemCpy => 0xFF,
        }
    }

    /// Whether two operations are the same one, up to the parameter of a
    /// `Sum` or a `Cast`.
    pub open spec fn same_operation(self, other: Iop) -> bool {
        match (self, other) {
            (Iop::Sum { .. }, Iop::Sum { .. }) => true,
            (Iop::Cast { .. }, Iop::Cast { .. }) => true,
            _ => self == other,
        }
    }

    /// Whether the operation is scheduled with the legacy scheduler on
    /// integers of `int_size` bits: multiplications always, and the
    /// ciphertext rotations and shifts on 128-bit integers.
    pub open spec fn uses_legacy_scheduler(self, int_size: u16) -> bool {
        ||| self is Mul
        ||| self is OvfMul
        ||| ((self is RightRot || self is LeftRot || self is LeftShift || self is RightShift)
            && int_size == 128)
    }

    /// The opcode byte of the operation.
    pub fn get_opcode(&self) -> (op: u8)
        ensures
            op == self.opcode(),
            *self is Adds ==> op == 0xA0,
            *self is Subs ==> op == 0xA1,
            *self is Ssub ==> op == 0xA2,
            *self is Muls ==> op == 0xA3,
            *self is Divs ==> op == 0xA4,
            *self is Mods ==> op == 0xA5,
            *self is OvfAdds ==> op == 0xA8,
            *self is OvfSubs ==> op == 0xA9,
            *self is OvfSsub ==> op == 0xAA,
            *self is OvfMuls ==> op == 0xAB,
            *self is RightShifts ==> op == 0xAC,
            *self is LeftShifts ==> op == 0xAD,
            *self is RightRots ==> op == 0xAE,
            *self is LeftRots ==> op == 0xAF,
            *self is Add ==> op == 0xE0,
            *self is Sub ==> op == 0xE2,
            *self is Mul ==> op == 0xE4,
            *self is Div ==> op == 0xE5,
            *self is Mod ==> op == 0xE6,
            *self is OvfAdd ==> op == 0xE8,
            *self is OvfSub ==> op == 0xEA,
            *self is OvfMul ==> op == 0xEC,
            *self is BwAnd ==> op == 0xD0,
            *self is BwOr ==> op == 0xD1,
            *self is BwXor ==> op == 0xD2,
            *self is BwNot ==> op == 0xD3,
            *self is RightShift ==> op == 0xDC,
            *self is LeftShift ==> op == 0xDD,
            *self is RightRot ==> op == 0xDE,
            *self is LeftRot ==> op == 0xDF,
            *self is CmpGt ==> op == 0xC0,
            *self is CmpGte ==> op == 0xC1,
            *self is CmpLt ==> op == 0xC2,
            *self is CmpLte ==> op == 0xC3,
            *self is CmpEq ==> op == 0xC4,
            *self is CmpNeq ==> op == 0xC5,
            *self is IfThenZero ==> op == 0xCA,
            *self is IfThenElse ==> op == 0xCB,
            *self is Erc7984 ==> op == 0x80,
            *self is CountZeros ==> op == 0x81,
            *self is CountOnes ==> op == 0x82,
            *self is Ilog2 ==> op == 0x83,
            *self is LeadingZeros ==> op == 0x84,
            *self is LeadingOnes ==> op == 0x85,
            *self is TrailingZeros ==> op == 0x86,
            *self is TrailingOnes ==> op == 0x87,
            *self is AddSimd ==> op == 0xF0,
            *self is Erc7984Simd ==> op == 0xF1,
            *self is Sum ==> op == 0xF8,
            *self is Cast ==> op == 0xFC,
            *self is Flip ==> op == 0xFE,
            *self is MemCpy ==> op == 0xFF,
    {
        match self {
            Iop::Adds => 0xA0,
            Iop::Subs => 0xA1,
            Iop::Ssub => 0xA2,
            Iop::Muls => 0xA3,
            Iop::Divs => 0xA4,
            Iop::Mods => 0xA5,
            Iop::OvfAdds => 0xA8,
            Iop::OvfSubs => 0xA9,
            Iop::OvfSsub => 0xAA,
            Iop::OvfMuls => 0xAB,
            Iop::RightShifts => 0xAC,
            Iop::LeftShifts => 0xAD,
            Iop::RightRots => 0xAE,
            Iop::LeftRots => 0xAF,
            Iop::Add => 0xE0,
            Iop::Sub => 0xE2,
            Iop::Mul => 0xE4,
            Iop::Div => 0xE5,
            Iop::Mod => 0xE6,
            Iop::OvfAdd => 0xE8,
            Iop::OvfSub => 0xEA,
            Iop::OvfMul => 0xEC,
            Iop::BwAnd => 0xD0,
            Iop::BwOr => 0xD1,
            Iop::BwXor => 0xD2,
            Iop::BwNot => 0xD3,
            Iop::RightShift => 0xDC,
            Iop::LeftShift => 0xDD,
            Iop::RightRot => 0xDE,
            Iop::LeftRot => 0xDF,
            Iop::CmpGt => 0xC0,
            Iop::CmpGte => 0xC1,
            Iop::CmpLt => 0xC2,
            Iop::CmpLte => 0xC3,
            Iop::CmpEq => 0xC4,
            Iop::CmpNeq => 0xC5,
            Iop::IfThenZero => 0xCA,
            Iop::IfThenElse => 0xCB,
            Iop::Erc7984 => 0x80,
            Iop::CountZeros => 0x81,
            Iop::CountOnes => 0x82,
            Iop::Ilog2 => 0x83,
            Iop::LeadingZeros => 0x84,
            Iop::LeadingOnes => 0x85,
            Iop::TrailingZeros => 0x86,
            Iop::TrailingOnes => 0x87,
            Iop::AddSimd => 0xF0,
            Iop::Erc7984Simd => 0xF1,
            Iop::Sum { .. } => 0xF8,
            Iop::Cast { .. } => 0xFC,
            Iop::Flip => 0xFE,
            Iop::MemCpy => 0xFF,
        }
    }

    /// Whether the pipeline for this operation on integers of `int_size` bits
    /// runs the legacy scheduler.
    pub fn needs_legacy_scheduler(&self, int_size: u16) -> (b: bool)
        ensures
            b == self.uses_legacy_scheduler(int_size),
    {
        match self {
            Iop::Mul | Iop::OvfMul => true,
            Iop::RightRot | Iop::LeftRot | Iop::LeftShift | Iop::RightShift => int_size == 128,
            _ => false,
        }
    }
}

/// Two operations have the same opcode exactly when they are the same
/// operation, whatever the parameter of a `Sum` or a `Cast`.
pub proof fn lemma_opcode_identifies_operation(a: Iop, b: Iop)
    ensures
        (a.opcode() == b.opcode()) == a.same_operation(b),
{
}

/// Depth of the schoolbook stage of the multi-HPU multiplier on `n_hpus` nodes.
pub fn mh_mul_schoolbook_depth(n_hpus: u8) -> (depth: usize)
    ensures
        depth == (if n_hpus / 2 < 2 { 2 } else { n_hpus / 2 }),
{
    let half = n_hpus / 2;
    if half < 2 {
        2
    } else {
        half as usize
    }
}

/// The partitions that the multi-HPU multiplier groups together on a node,
/// for each number of nodes that it supports.
pub open spec fn mh_mul_groups(n_hpus: u8) -> Seq<Seq<usize>> {
    if n_hpus == 2 {
        seq![seq![1usize, 2, 0, 9], seq![3usize, 4, 6, 7]]
    } else if n_hpus == 4 {
        seq![seq![4usize, 6, 7, 0, 9], seq![2usize], seq![3usize], seq![1usize]]
    } else {
        seq![
            seq![1usize, 8, 24, 0, 36],
            seq![2usize, 3, 23],
            seq![4usize, 5, 25, 27, 28],
            seq![6usize, 7, 29],
            seq![9usize, 10, 26],
            seq![11usize, 12, 30, 32, 34],
            seq![14usize, 19],
            seq![15usize, 16, 31, 33],
        ]
    }
}

/// The partition groups of the multi-HPU multiplier on `n_hpus` nodes, which
/// must be 2, 4 or 8.
pub fn mh_mul_partition_groups(n_hpus: u8) -> (groups: Vec<Vec<usize>>)
    requires
        n_hpus == 2 || n_hpus == 4 || n_hpus == 8,
    ensures
        groups@.len() == mh_mul_groups(n_hpus).len(),
        forall|i: int| 0 <= i < groups@.len() ==> #[trigger] groups@[i]@ == mh_mul_groups(n_hpus)[i],
{
    let groups: Vec<Vec<usize>> = if n_hpus == 2 {
        vec![vec![1, 2, 0, 9], vec![3, 4, 6, 7]]
    } else if n_hpus == 4 {
        vec![vec![4, 6, 7, 0, 9], vec![2], vec![3], vec![1]]
    } else {
        vec![
            vec![1, 8, 24, 0, 36],
            vec![2, 3, 23],
            vec![4, 5, 25, 27, 28],
            vec![6, 7, 29],
            vec![9, 10, 26],
            vec![11, 12, 30, 32, 34],
            vec![14, 19],
            vec![15, 16, 31, 33],
        ]
    };
    proof {
        assert(groups@.len() == mh_mul_groups(n_hpus).len());
        assert forall|i: int| 0 <= i < groups@.len() implies #[trigger] groups@[i]@
            == mh_mul_groups(n_hpus)[i] by {
            assert(groups@[i]@ =~= mh_mul_groups(n_hpus)[i]);
        }
    }
    groups
}

} // verus!
