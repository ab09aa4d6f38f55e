//! Selectors that parameterise the integer operations, and the element-wise
//! combination of two block vectors that the vector operations share.
use vstd::prelude::*;

verus! {

/// Selects which bit value to count or propagate in bit-scanning operations.
#[derive(Debug, Clone, PartialEq, Eq, Copy)]
pub enum BitType {
    /// Count or propagate one-bits.
    One,
    /// Count or propagate zero-bits.
    Zero,
}

/// Direction of bit propagation in leading/trailing bit operations.
#[derive(Debug, Clone, PartialEq, Eq, Copy)]
pub enum PropagationDirection {
    /// Propagate from most-significant to least-significant bit.
    MsbToLsb,
    /// Propagate from least-significant to most-significant bit.
    LsbToMsb,
}

/// Number of parallel transfers in a SIMD batch.
pub const SIMD_N: usize = 12;

/// The kind of bitwise operation to apply block-wise.
pub enum BwKind {
    /// Bitwise AND: each output block is `a & b`.
    And,
    /// Bitwise OR: each output block is `a | b`.
    Or,
    /// Bitwise XOR: each output block is `a ^ b`.
    Xor,
}

/// The comparison relation to evaluate between two encrypted integers.
pub enum CmpKind {
    /// Strictly greater than (`>`).
    Greater,
    /// Greater than or equal to (`>=`).
    GreaterOrEqual,
    /// Strictly less than (`<`).
    Lower,
    /// Less than or equal to (`<=`).
    LowerOrEqual,
    /// Equal (`==`).
    Equal,
    /// Not equal (`!=`).
    NotEqual,
}

/// Which bit value a population count counts.
#[derive(Debug, Clone, PartialEq, Eq)]
pub enum CountKind {
    Zeros,
    Ones,
}

/// What kind of IR to work on.
pub enum IrKind {
    /// Use the original IR, as built by the builder.
    Original,
    /// Use the optimized IR, notably after dead code elimination.
    Optimized,
}

/// Strategy for handling mismatched slice lengths in binary vector operations.
///
/// Once the shorter slice is exhausted, this decides what happens to the rest
/// of the longer one.
pub enum ExtensionBehavior {
    /// The slices must have the same length.
    Panic,
    /// Truncates to the length of the shorter slice, discarding surplus elements.
    Limit,
    /// Passes surplus elements from the longer slice through unchanged.
    Passthrough,
}

/// Length of the combination of two vectors of lengths `a` and `b`.
pub open spec fn zip_len(a: nat, b: nat, extension: ExtensionBehavior) -> nat {
    match extension {
        ExtensionBehavior::Passthrough => if a < b { b } else { a },
        _ => if a < b { a } else { b },
    }
}

/// What the combination of `lhs` and `rhs` holds at a position past the
/// shorter input: the element of the longer one.
pub open spec fn surplus_at<T>(lhs: Seq<T>, rhs: Seq<T>, i: int) -> T {
    if lhs.len() < rhs.len() { rhs[i] } else { lhs[i] }
}

/// Combines two vectors position by position with `combine`.
///
/// Where both inputs have an element, the output holds `combine(lhs[i], rhs[i])`.
/// Past the end of the shorter input, `extension` decides: `Limit` stops there,
/// `Passthrough` copies the rest of the longer input, and `Panic` admits only
/// inputs of the same length.
pub fn vector_zip_with<T: Copy, F: Fn(T, T) -> T>(
    lhs: &[T],
    rhs: &[T],
    combine: &F,
    extension: &ExtensionBehavior,
) -> (out: Vec<T>)
    requires
        *extension is Panic ==> lhs@.len() == rhs@.len(),
        forall|i: int|
            0 <= i < lhs@.len() && 0 <= i < rhs@.len() ==> combine.requires((lhs@[i], rhs@[i])),
    ensures
        out@.len() == zip_len(lhs@.len(), rhs@.len(), *extension),
        forall|i: int|
            0 <= i < lhs@.len() && 0 <= i < rhs@.len() ==> combine.ensures(
                (lhs@[i], rhs@[i]),
                #[trigger] out@[i],
            ),
        forall|i: int|
            (lhs@.len() <= i || rhs@.len() <= i) && 0 <= i < out@.len() ==> #[trigger] out@[i]
                == surplus_at(lhs@, rhs@, i),
{
    let n_l = lhs.len();
    let n_r = rhs.len();
    let common = if n_l < n_r { n_l } else { n_r };
    let mut out: Vec<T> = Vec::new();
    let mut i: usize = 0;
    while i < common
        invariant
            i <= common,
            common == (if n_l < n_r { n_l } else { n_r }),
            n_l == lhs@.len(),
            n_r == rhs@.len(),
            out@.len() == i,
            forall|j: int|
                0 <= j < lhs@.len() && 0 <= j < rhs@.len() ==> combine.requires((lhs@[j], rhs@[j])),
            forall|j: int| 0 <= j < i ==> combine.ensures((lhs@[j], rhs@[j]), #[trigger] out@[j]),
        decreases common - i,
    {
        let v = combine(lhs[i], rhs[i]);
        out.push(v);
        i = i + 1;
    }
    match extension {
        ExtensionBehavior::Passthrough => {
            let longer: &[T] = if n_l < n_r { rhs } else { lhs };
            let end = longer.len();
            while i < end
                invariant
                    common <= i <= end,
                    common == (if n_l < n_r { n_l } else { n_r }),
                    end == (if n_l < n_r { n_r } else { n_l }),
                    n_l == lhs@.len(),
                    n_r == rhs@.len(),
                    longer@ == (if n_l < n_r { rhs@ } else { lhs@ }),
                    out@.len() == i,
                    forall|j: int|
                        0 <= j < common ==> combine.ensures(
                            (lhs@[j], rhs@[j]),
                            #[trigger] out@[j],
                        ),
                    forall|j: int| common <= j < i ==> #[trigger] out@[j] == longer@[j],
                decreases end - i,
            {
                out.push(longer[i]);
                i = i + 1;
            }
        },
        _ => {},
    }
    out
}

} // verus!
