//! Bit-level AES helpers on clear data: the S-box table, the Boyar-Peralta schedule of
//! the S-box, xtime, and the recognition of those tables.
use vstd::prelude::*;

verus! {

/// The AES S-box, in the table format of the value matcher.
pub const AES_SBOX: [u8; 256] = [
    0x63,0x7c,0x77,0x7b,0xf2,0x6b,0x6f,0xc5,0x30,0x01,0x67,0x2b,0xfe,0xd7,0xab,0x76,
    0xca,0x82,0xc9,0x7d,0xfa,0x59,0x47,0xf0,0xad,0xd4,0xa2,0xaf,0x9c,0xa4,0x72,0xc0,
    0xb7,0xfd,0x93,0x26,0x36,0x3f,0xf7,0xcc,0x34,0xa5,0xe5,0xf1,0x71,0xd8,0x31,0x15,
    0x04,0xc7,0x23,0xc3,0x18,0x96,0x05,0x9a,0x07,0x12,0x80,0xe2,0xeb,0x27,0xb2,0x75,
    0x09,0x83,0x2c,0x1a,0x1b,0x6e,0x5a,0xa0,0x52,0x3b,0xd6,0xb3,0x29,0xe3,0x2f,0x84,
    0x53,0xd1,0x00,0xed,0x20,0xfc,0xb1,0x5b,0x6a,0xcb,0xbe,0x39,0x4a,0x4c,0x58,0xcf,
    0xd0,0xef,0xaa,0xfb,0x43,0x4d,0x33,0x85,0x45,0xf9,0x02,0x7f,0x50,0x3c,0x9f,0xa8,
    0x51,0xa3,0x40,0x8f,0x92,0x9d,0x38,0xf5,0xbc,0xb6,0xda,0x21,0x10,0xff,0xf3,0xd2,
    0xcd,0x0c,0x13,0xec,0x5f,0x97,0x44,0x17,0xc4,0xa7,0x7e,0x3d,0x64,0x5d,0x19,0x73,
    0x60,0x81,0x4f,0xdc,0x22,0x2a,0x90,0x88,0x46,0xee,0xb8,0x14,0xde,0x5e,0x0b,0xdb,
    0xe0,0x32,0x3a,0x0a,0x49,0x06,0x24,0x5c,0xc2,0xd3,0xac,0x62,0x91,0x95,0xe4,0x79,
    0xe7,0xc8,0x37,0x6d,0x8d,0xd5,0x4e,0xa9,0x6c,0x56,0xf4,0xea,0x65,0x7a,0xae,0x08,
    0xba,0x78,0x25,0x2e,0x1c,0xa6,0xb4,0xc6,0xe8,0xdd,0x74,0x1f,0x4b,0xbd,0x8b,0x8a,
    0x70,0x3e,0xb5,0x66,0x48,0x03,0xf6,0x0e,0x61,0x35,0x57,0xb9,0x86,0xc1,0x1d,0x9e,
    0xe1,0xf8,0x98,0x11,0x69,0xd9,0x8e,0x94,0x9b,0x1e,0x87,0xe9,0xce,0x55,0x28,0xdf,
    0x8c,0xa1,0x89,0x0d,0xbf,0xe6,0x42,0x68,0x41,0x99,0x2d,0x0f,0xb0,0x54,0xbb,0x16,
];

/// The PBS count of one encrypted S-box evaluation.
pub const SBOX_PBS: usize = 58;

/// Which bit of a 2-bit digit a lookup reads.
#[derive(Clone, Copy, Debug, PartialEq, Eq)]
pub enum DigitSel {
    Lo,
    Hi,
    Xor,
}

impl DigitSel {
    /// Reads the selected bit of a 2-bit digit.
    pub fn read(self, digit: u8) -> (b: u8)
        ensures
            b == match self {
                DigitSel::Lo => (digit % 2) as int,
                DigitSel::Hi => ((digit / 2) % 2) as int,
                DigitSel::Xor => ((digit % 2) + ((digit / 2) % 2)) % 2,
            },
    {
        match self {
            DigitSel::Lo => {
                assert(digit & 1 == digit % 2) by (bit_vector);
                digit & 1
            },
            DigitSel::Hi => {
                assert((digit >> 1) & 1 == (digit / 2) % 2) by (bit_vector);
                (digit >> 1) & 1
            },
            DigitSel::Xor => {
                assert((digit & 1) ^ ((digit >> 1) & 1) == ((digit % 2) + ((digit / 2) % 2)) % 2)
                    by (bit_vector);
                (digit & 1) ^ ((digit >> 1) & 1)
            },
        }
    }
}

/// The middle section of the Boyar-Peralta circuit on clear bits: maps (t21, t22, t23, t24)
/// to (t29, t33, t37, t40, t41, t42, t43, t44, t45).
pub open spec fn inverter_spec(b: Seq<bool>) -> Seq<bool> {
    let (b21, b22, b23, b24) = (b[0], b[1], b[2], b[3]);
    let t25 = b21 != b22;
    let t26 = b21 && b23;
    let t27 = b24 != t26;
    let t28 = t25 && t27;
    let t29 = t28 != b22;
    let t30 = b23 != b24;
    let t31 = b22 != t26;
    let t32 = t31 && t30;
    let t33 = t32 != b24;
    let t34 = b23 != t33;
    let t35 = t27 != t33;
    let t36 = b24 && t35;
    let t37 = t36 != t34;
    let t38 = t27 != t36;
    let t39 = t29 && t38;
    let t40 = t25 != t39;
    let t41 = t40 != t37;
    let t42 = t29 != t33;
    let t43 = t29 != t40;
    let t44 = t33 != t37;
    let t45 = t42 != t41;
    seq![t29, t33, t37, t40, t41, t42, t43, t44, t45]
}

/// Computes the middle section of the Boyar-Peralta circuit on clear bits.
///
/// The function maps the four bits (t21, t22, t23, t24) to the nine values
/// that the second multiplier layer needs. The order of the results is
/// (t29, t33, t37, t40, t41, t42, t43, t44, t45).
pub fn sbox_inverter_clear(b: [bool; 4]) -> (r: [bool; 9])
    ensures
        r@ == inverter_spec(b@),
{
    let (b21, b22, b23, b24) = (b[0], b[1], b[2], b[3]);
    let t25 = b21 ^ b22;
    let t26 = b21 && b23;
    let t27 = b24 ^ t26;
    let t28 = t25 && t27;
    let t29 = t28 ^ b22;
    let t30 = b23 ^ b24;
    let t31 = b22 ^ t26;
    let t32 = t31 && t30;
    let t33 = t32 ^ b24;
    let t34 = b23 ^ t33;
    let t35 = t27 ^ t33;
    let t36 = b24 && t35;
    let t37 = t36 ^ t34;
    let t38 = t27 ^ t36;
    let t39 = t29 && t38;
    let t40 = t25 ^ t39;
    let t41 = t40 ^ t37;
    let t42 = t29 ^ t33;
    let t43 = t29 ^ t40;
    let t44 = t33 ^ t37;
    let t45 = t42 ^ t41;
    let r = [t29, t33, t37, t40, t41, t42, t43, t44, t45];
    assert(r@ =~= inverter_spec(b@));
    r
}

/// The Boyar-Peralta schedule of the AES S-box over any bit algebra: `x[0]` is the most
/// significant input bit, and so is the first output bit.
#[verifier::opaque]
pub open spec fn schedule_spec<B, D>(
    x: Seq<B>,
    xor: spec_fn(B, B) -> B,
    and: spec_fn(B, B) -> B,
    not: spec_fn(B) -> B,
    reduce: spec_fn(B) -> B,
    inverter: spec_fn(Seq<B>) -> Seq<D>,
    and_digit: spec_fn(D, B) -> B,
) -> Seq<B> {
    let (u0, u1, u2, u3, u4, u5, u6, u7) = (x[0], x[1], x[2], x[3], x[4], x[5], x[6], x[7]);
    let y14 = xor(u3, u5);
    let y13 = xor(u0, u6);
    let y9 = xor(u0, u3);
    let y8 = xor(u0, u5);
    let t0 = xor(u1, u2);
    let y1 = xor(t0, u7);
    let y4 = xor(y1, u3);
    let y12 = xor(y13, y14);
    let y2 = xor(y1, u0);
    let y5 = xor(y1, u6);
    let y12 = reduce(y12);
    let t1 = xor(u4, y12);
    let y15 = xor(t1, u5);
    let y20 = xor(t1, u1);
    let y6 = xor(y15, u7);
    let y10 = xor(y15, t0);
    let y11 = xor(y20, y9);
    let y11 = reduce(y11);
    let y7 = xor(u7, y11);
    let y16 = xor(t0, y11);
    let y5 = reduce(y5);
    let y3 = xor(y5, y8);
    let t2 = and(y12, y15);
    let y6 = reduce(y6);
    let t3 = and(y3, y6);
    let t4 = xor(t3, t2);
    let y4 = reduce(y4);
    let t5 = and(y4, u7);
    let t6 = xor(t5, t2);
    let y16 = reduce(y16);
    let t7 = and(y13, y16);
    let t8 = and(y5, y1);
    let t9 = xor(t8, t7);
    let y2 = reduce(y2);
    let t10 = and(y2, y7);
    let t11 = xor(t10, t7);
    let t12 = and(y9, y11);
    let y10 = reduce(y10);
    let t15 = and(y8, y10);
    let y17 = xor(y10, y11);
    let t13 = and(y14, y17);
    let t14 = xor(t13, t12);
    let t16 = xor(t15, t12);
    let t17 = xor(t4, t14);
    let t18 = xor(t6, t16);
    let t19 = xor(t9, t14);
    let t20 = xor(t11, t16);
    let t21 = xor(t17, y20);
    let y19 = xor(y10, y8);
    let t22 = xor(t18, y19);
    let y21 = xor(y13, y16);
    let t23 = xor(t19, y21);
    let y18 = xor(u0, y16);
    let t24 = xor(t20, y18);
    let inv = inverter(seq![t21, t22, t23, t24]);
    let t29 = inv[0];
    let t33 = inv[1];
    let t37 = inv[2];
    let t40 = inv[3];
    let t41 = inv[4];
    let t42 = inv[5];
    let t43 = inv[6];
    let t44 = inv[7];
    let t45 = inv[8];
    let z0 = and_digit(t44, y15);
    let z1 = and_digit(t37, y6);
    let z2 = and_digit(t33, u7);
    let z3 = and_digit(t43, y16);
    let z4 = and_digit(t40, y1);
    let z5 = and_digit(t29, y7);
    let z6 = and_digit(t42, y11);
    let z7 = and_digit(t45, y17);
    let z8 = and_digit(t41, y10);
    let z9 = and_digit(t44, y12);
    let z10 = and_digit(t37, y3);
    let z11 = and_digit(t33, y4);
    let z12 = and_digit(t43, y13);
    let z13 = and_digit(t40, y5);
    let z14 = and_digit(t29, y2);
    let z15 = and_digit(t42, y9);
    let z16 = and_digit(t45, y14);
    let z17 = and_digit(t41, y8);
    let t46 = xor(z15, z16);
    let t47 = xor(z10, z11);
    let t48 = xor(z5, z13);
    let t49 = xor(z9, z10);
    let t50 = xor(z2, z12);
    let t51 = xor(z2, z5);
    let t52 = xor(z7, z8);
    let t53 = xor(z0, z3);
    let t54 = xor(z6, z7);
    let t55 = xor(z16, z17);
    let t56 = xor(z12, t48);
    let t57 = xor(t50, t53);
    let t58 = xor(z4, t46);
    let t59 = xor(z3, t54);
    let t60 = xor(t46, t57);
    let t61 = xor(z14, t57);
    let t62 = xor(t52, t58);
    let t63 = xor(t49, t58);
    let t64 = xor(z4, t59);
    let t65 = xor(t61, t62);
    let t66 = xor(z1, t63);
    let s0 = xor(t59, t63);
    let s6 = not(xor(t56, t62));
    let s7 = not(xor(t48, t60));
    let t67 = xor(t64, t65);
    let s3 = xor(t53, t66);
    let s4 = xor(t51, t66);
    let s5 = xor(t47, t65);
    let s1 = not(xor(t64, s3));
    let s2 = not(xor(t55, t67));
    seq![s0, s1, s2, s3, s4, s5, s6, s7]
}

/// `f` is a total function that computes `g`.
pub open spec fn computes2<B, F: Fn(B, B) -> B>(f: F, g: spec_fn(B, B) -> B) -> bool {
    &&& forall|a: B, b: B| call_requires(f, (a, b))
    &&& forall|a: B, b: B, r: B| #[trigger] call_ensures(f, (a, b), r) ==> r == g(a, b)
}

/// `f` is a total function that computes `g`.
pub open spec fn computes1<B, F: Fn(B) -> B>(f: F, g: spec_fn(B) -> B) -> bool {
    &&& forall|a: B| call_requires(f, (a,))
    &&& forall|a: B, r: B| #[trigger] call_ensures(f, (a,), r) ==> r == g(a)
}

/// `f` is a total function that computes `g` on the views of its argument and result.
pub open spec fn computes_inverter<B, D, F: Fn([B; 4]) -> [D; 9]>(
    f: F,
    g: spec_fn(Seq<B>) -> Seq<D>,
) -> bool {
    &&& forall|a: [B; 4]| call_requires(f, (a,))
    &&& forall|a: [B; 4], r: [D; 9]| #[trigger] call_ensures(f, (a,), r) ==> r@ == g(a@)
}

/// `f` is a total function that computes `g`.
pub open spec fn computes_digit<B, D, F: Fn(D, B) -> B>(f: F, g: spec_fn(D, B) -> B) -> bool {
    &&& forall|a: D, b: B| call_requires(f, (a, b))
    &&& forall|a: D, b: B, r: B| #[trigger] call_ensures(f, (a, b), r) ==> r == g(a, b)
}

/// Computes the AES S-box with the Boyar-Peralta circuit.
///
/// The caller supplies the bit operations, so the same schedule runs on clear bits and on
/// encrypted bits. The first bit of `x` is the most significant.
pub fn sbox_schedule<B: Copy, D: Copy>(
    x: [B; 8],
    xor: &impl Fn(B, B) -> B,
    and: &impl Fn(B, B) -> B,
    not: &impl Fn(B) -> B,
    reduce: &impl Fn(B) -> B,
    inverter: &impl Fn([B; 4]) -> [D; 9],
    and_digit: &impl Fn(D, B) -> B,
) -> (r: [B; 8])
    requires
        forall|a: B, b: B| call_requires(*xor, (a, b)),
        forall|a: B, b: B| call_requires(*and, (a, b)),
        forall|a: B| call_requires(*not, (a,)),
        forall|a: B| call_requires(*reduce, (a,)),
        forall|a: [B; 4]| call_requires(*inverter, (a,)),
        forall|a: D, b: B| call_requires(*and_digit, (a, b)),
    ensures
        forall|gx: spec_fn(B, B) -> B, ga: spec_fn(B, B) -> B, gn: spec_fn(B) -> B,
            gr: spec_fn(B) -> B, gi: spec_fn(Seq<B>) -> Seq<D>, gd: spec_fn(D, B) -> B|
            computes2(*xor, gx) && computes2(*and, ga) && computes1(*not, gn) && computes1(*reduce, gr)
                && computes_inverter(*inverter, gi) && computes_digit(*and_digit, gd)
                ==> r@ == #[trigger] schedule_spec(x@, gx, ga, gn, gr, gi, gd),
{
    let (u0, u1, u2, u3, u4, u5, u6, u7) = (x[0], x[1], x[2], x[3], x[4], x[5], x[6], x[7]);
    let y14 = xor(u3, u5);
    let y13 = xor(u0, u6);
    let y9 = xor(u0, u3);
    let y8 = xor(u0, u5);
    let t0 = xor(u1, u2);
    let y1 = xor(t0, u7);
    let y4 = xor(y1, u3);
    let y12 = xor(y13, y14);
    let y2 = xor(y1, u0);
    let y5 = xor(y1, u6);
    let y12 = reduce(y12);
    let t1 = xor(u4, y12);
    let y15 = xor(t1, u5);
    let y20 = xor(t1, u1);
    let y6 = xor(y15, u7);
    let y10 = xor(y15, t0);
    let y11 = xor(y20, y9);
    let y11 = reduce(y11);
    let y7 = xor(u7, y11);
    let y16 = xor(t0, y11);
    let y5 = reduce(y5);
    let y3 = xor(y5, y8);
    let t2 = and(y12, y15);
    let y6 = reduce(y6);
    let t3 = and(y3, y6);
    let t4 = xor(t3, t2);
    let y4 = reduce(y4);
    let t5 = and(y4, u7);
    let t6 = xor(t5, t2);
    let y16 = reduce(y16);
    let t7 = and(y13, y16);
    let t8 = and(y5, y1);
    let t9 = xor(t8, t7);
    let y2 = reduce(y2);
    let t10 = and(y2, y7);
    let t11 = xor(t10, t7);
    let t12 = and(y9, y11);
    let y10 = reduce(y10);
    let t15 = and(y8, y10);
    let y17 = xor(y10, y11);
    let t13 = and(y14, y17);
    let t14 = xor(t13, t12);
    let t16 = xor(t15, t12);
    let t17 = xor(t4, t14);
    let t18 = xor(t6, t16);
    let t19 = xor(t9, t14);
    let t20 = xor(t11, t16);
    let t21 = xor(t17, y20);
    let y19 = xor(y10, y8);
    let t22 = xor(t18, y19);
    let y21 = xor(y13, y16);
    let t23 = xor(t19, y21);
    let y18 = xor(u0, y16);
    let t24 = xor(t20, y18);
    let inv = inverter([t21, t22, t23, t24]);
    let t29 = inv[0];
    let t33 = inv[1];
    let t37 = inv[2];
    let t40 = inv[3];
    let t41 = inv[4];
    let t42 = inv[5];
    let t43 = inv[6];
    let t44 = inv[7];
    let t45 = inv[8];
    let z0 = and_digit(t44, y15);
    let z1 = and_digit(t37, y6);
    let z2 = and_digit(t33, u7);
    let z3 = and_digit(t43, y16);
    let z4 = and_digit(t40, y1);
    let z5 = and_digit(t29, y7);
    let z6 = and_digit(t42, y11);
    let z7 = and_digit(t45, y17);
    let z8 = and_digit(t41, y10);
    let z9 = and_digit(t44, y12);
    let z10 = and_digit(t37, y3);
    let z11 = and_digit(t33, y4);
    let z12 = and_digit(t43, y13);
    let z13 = and_digit(t40, y5);
    let z14 = and_digit(t29, y2);
    let z15 = and_digit(t42, y9);
    let z16 = and_digit(t45, y14);
    let z17 = and_digit(t41, y8);
    let t46 = xor(z15, z16);
    let t47 = xor(z10, z11);
    let t48 = xor(z5, z13);
    let t49 = xor(z9, z10);
    let t50 = xor(z2, z12);
    let t51 = xor(z2, z5);
    let t52 = xor(z7, z8);
    let t53 = xor(z0, z3);
    let t54 = xor(z6, z7);
    let t55 = xor(z16, z17);
    let t56 = xor(z12, t48);
    let t57 = xor(t50, t53);
    let t58 = xor(z4, t46);
    let t59 = xor(z3, t54);
    let t60 = xor(t46, t57);
    let t61 = xor(z14, t57);
    let t62 = xor(t52, t58);
    let t63 = xor(t49, t58);
    let t64 = xor(z4, t59);
    let t65 = xor(t61, t62);
    let t66 = xor(z1, t63);
    let s0 = xor(t59, t63);
    let s6 = not(xor(t56, t62));
    let s7 = not(xor(t48, t60));
    let t67 = xor(t64, t65);
    let s3 = xor(t53, t66);
    let s4 = xor(t51, t66);
    let s5 = xor(t47, t65);
    let s1 = not(xor(t64, s3));
    let s2 = not(xor(t55, t67));
    let r = [s0, s1, s2, s3, s4, s5, s6, s7];
    assert forall|gx: spec_fn(B, B) -> B, ga: spec_fn(B, B) -> B, gn: spec_fn(B) -> B,
        gr: spec_fn(B) -> B, gi: spec_fn(Seq<B>) -> Seq<D>, gd: spec_fn(D, B) -> B|
        computes2(*xor, gx) && computes2(*and, ga) && computes1(*not, gn) && computes1(*reduce, gr)
            && computes_inverter(*inverter, gi) && computes_digit(*and_digit, gd)
        implies r@ == schedule_spec(x@, gx, ga, gn, gr, gi, gd) by {
        reveal(schedule_spec);
        assert(r@ =~= schedule_spec(x@, gx, ga, gn, gr, gi, gd));
    }
    r
}

} // verus!
verus! {

/// The bits of a byte, most significant first.
pub open spec fn byte_bits(x: u8) -> Seq<bool> {
    seq![
        x / 128 % 2 == 1,
        x / 64 % 2 == 1,
        x / 32 % 2 == 1,
        x / 16 % 2 == 1,
        x / 8 % 2 == 1,
        x / 4 % 2 == 1,
        x / 2 % 2 == 1,
        x % 2 == 1,
    ]
}

/// The byte of eight bits, most significant first.
pub open spec fn bits_byte(b: Seq<bool>) -> int {
    (if b[0] { 128int } else { 0 }) + (if b[1] { 64int } else { 0 }) + (if b[2] { 32int } else { 0 })
        + (if b[3] { 16int } else { 0 }) + (if b[4] { 8int } else { 0 }) + (if b[5] { 4int } else { 0 })
        + (if b[6] { 2int } else { 0 }) + (if b[7] { 1int } else { 0 })
}






/// The S-box table as a function.
#[verifier::opaque]
pub open spec fn sbox_table(x: u8) -> u8 {
    if x == 0 { 99 } else
    if x == 1 { 124 } else
    if x == 2 { 119 } else
    if x == 3 { 123 } else
    if x == 4 { 242 } else
    if x == 5 { 107 } else
    if x == 6 { 111 } else
    if x == 7 { 197 } else
    if x == 8 { 48 } else
    if x == 9 { 1 } else
    if x == 10 { 103 } else
    if x == 11 { 43 } else
    if x == 12 { 254 } else
    if x == 13 { 215 } else
    if x == 14 { 171 } else
    if x == 15 { 118 } else
    if x == 16 { 202 } else
    if x == 17 { 130 } else
    if x == 18 { 201 } else
    if x == 19 { 125 } else
    if x == 20 { 250 } else
    if x == 21 { 89 } else
    if x == 22 { 71 } else
    if x == 23 { 240 } else
    if x == 24 { 173 } else
    if x == 25 { 212 } else
    if x == 26 { 162 } else
    if x == 27 { 175 } else
    if x == 28 { 156 } else
    if x == 29 { 164 } else
    if x == 30 { 114 } else
    if x == 31 { 192 } else
    if x == 32 { 183 } else
    if x == 33 { 253 } else
    if x == 34 { 147 } else
    if x == 35 { 38 } else
    if x == 36 { 54 } else
    if x == 37 { 63 } else
    if x == 38 { 247 } else
    if x == 39 { 204 } else
    if x == 40 { 52 } else
    if x == 41 { 165 } else
    if x == 42 { 229 } else
    if x == 43 { 241 } else
    if x == 44 { 113 } else
    if x == 45 { 216 } else
    if x == 46 { 49 } else
    if x == 47 { 21 } else
    if x == 48 { 4 } else
    if x == 49 { 199 } else
    if x == 50 { 35 } else
    if x == 51 { 195 } else
    if x == 52 { 24 } else
    if x == 53 { 150 } else
    if x == 54 { 5 } else
    if x == 55 { 154 } else
    if x == 56 { 7 } else
    if x == 57 { 18 } else
    if x == 58 { 128 } else
    if x == 59 { 226 } else
    if x == 60 { 235 } else
    if x == 61 { 39 } else
    if x == 62 { 178 } else
    if x == 63 { 117 } else
    if x == 64 { 9 } else
    if x == 65 { 131 } else
    if x == 66 { 44 } else
    if x == 67 { 26 } else
    if x == 68 { 27 } else
    if x == 69 { 110 } else
    if x == 70 { 90 } else
    if x == 71 { 160 } else
    if x == 72 { 82 } else
    if x == 73 { 59 } else
    if x == 74 { 214 } else
    if x == 75 { 179 } else
    if x == 76 { 41 } else
    if x == 77 { 227 } else
    if x == 78 { 47 } else
    if x == 79 { 132 } else
    if x == 80 { 83 } else
    if x == 81 { 209 } else
    if x == 82 { 0 } else
    if x == 83 { 237 } else
    if x == 84 { 32 } else
    if x == 85 { 252 } else
    if x == 86 { 177 } else
    if x == 87 { 91 } else
    if x == 88 { 106 } else
    if x == 89 { 203 } else
    if x == 90 { 190 } else
    if x == 91 { 57 } else
    if x == 92 { 74 } else
    if x == 93 { 76 } else
    if x == 94 { 88 } else
    if x == 95 { 207 } else
    if x == 96 { 208 } else
    if x == 97 { 239 } else
    if x == 98 { 170 } else
    if x == 99 { 251 } else
    if x == 100 { 67 } else
    if x == 101 { 77 } else
    if x == 102 { 51 } else
    if x == 103 { 133 } else
    if x == 104 { 69 } else
    if x == 105 { 249 } else
    if x == 106 { 2 } else
    if x == 107 { 127 } else
    if x == 108 { 80 } else
    if x == 109 { 60 } else
    if x == 110 { 159 } else
    if x == 111 { 168 } else
    if x == 112 { 81 } else
    if x == 113 { 163 } else
    if x == 114 { 64 } else
    if x == 115 { 143 } else
    if x == 116 { 146 } else
    if x == 117 { 157 } else
    if x == 118 { 56 } else
    if x == 119 { 245 } else
    if x == 120 { 188 } else
    if x == 121 { 182 } else
    if x == 122 { 218 } else
    if x == 123 { 33 } else
    if x == 124 { 16 } else
    if x == 125 { 255 } else
    if x == 126 { 243 } else
    if x == 127 { 210 } else
    if x == 128 { 205 } else
    if x == 129 { 12 } else
    if x == 130 { 19 } else
    if x == 131 { 236 } else
    if x == 132 { 95 } else
    if x == 133 { 151 } else
    if x == 134 { 68 } else
    if x == 135 { 23 } else
    if x == 136 { 196 } else
    if x == 137 { 167 } else
    if x == 138 { 126 } else
    if x == 139 { 61 } else
    if x == 140 { 100 } else
    if x == 141 { 93 } else
    if x == 142 { 25 } else
    if x == 143 { 115 } else
    if x == 144 { 96 } else
    if x == 145 { 129 } else
    if x == 146 { 79 } else
    if x == 147 { 220 } else
    if x == 148 { 34 } else
    if x == 149 { 42 } else
    if x == 150 { 144 } else
    if x == 151 { 136 } else
    if x == 152 { 70 } else
    if x == 153 { 238 } else
    if x == 154 { 184 } else
    if x == 155 { 20 } else
    if x == 156 { 222 } else
    if x == 157 { 94 } else
    if x == 158 { 11 } else
    if x == 159 { 219 } else
    if x == 160 { 224 } else
    if x == 161 { 50 } else
    if x == 162 { 58 } else
    if x == 163 { 10 } else
    if x == 164 { 73 } else
    if x == 165 { 6 } else
    if x == 166 { 36 } else
    if x == 167 { 92 } else
    if x == 168 { 194 } else
    if x == 169 { 211 } else
    if x == 170 { 172 } else
    if x == 171 { 98 } else
    if x == 172 { 145 } else
    if x == 173 { 149 } else
    if x == 174 { 228 } else
    if x == 175 { 121 } else
    if x == 176 { 231 } else
    if x == 177 { 200 } else
    if x == 178 { 55 } else
    if x == 179 { 109 } else
    if x == 180 { 141 } else
    if x == 181 { 213 } else
    if x == 182 { 78 } else
    if x == 183 { 169 } else
    if x == 184 { 108 } else
    if x == 185 { 86 } else
    if x == 186 { 244 } else
    if x == 187 { 234 } else
    if x == 188 { 101 } else
    if x == 189 { 122 } else
    if x == 190 { 174 } else
    if x == 191 { 8 } else
    if x == 192 { 186 } else
    if x == 193 { 120 } else
    if x == 194 { 37 } else
    if x == 195 { 46 } else
    if x == 196 { 28 } else
    if x == 197 { 166 } else
    if x == 198 { 180 } else
    if x == 199 { 198 } else
    if x == 200 { 232 } else
    if x == 201 { 221 } else
    if x == 202 { 116 } else
    if x == 203 { 31 } else
    if x == 204 { 75 } else
    if x == 205 { 189 } else
    if x == 206 { 139 } else
    if x == 207 { 138 } else
    if x == 208 { 112 } else
    if x == 209 { 62 } else
    if x == 210 { 181 } else
    if x == 211 { 102 } else
    if x == 212 { 72 } else
    if x == 213 { 3 } else
    if x == 214 { 246 } else
    if x == 215 { 14 } else
    if x == 216 { 97 } else
    if x == 217 { 53 } else
    if x == 218 { 87 } else
    if x == 219 { 185 } else
    if x == 220 { 134 } else
    if x == 221 { 193 } else
    if x == 222 { 29 } else
    if x == 223 { 158 } else
    if x == 224 { 225 } else
    if x == 225 { 248 } else
    if x == 226 { 152 } else
    if x == 227 { 17 } else
    if x == 228 { 105 } else
    if x == 229 { 217 } else
    if x == 230 { 142 } else
    if x == 231 { 148 } else
    if x == 232 { 155 } else
    if x == 233 { 30 } else
    if x == 234 { 135 } else
    if x == 235 { 233 } else
    if x == 236 { 206 } else
    if x == 237 { 85 } else
    if x == 238 { 40 } else
    if x == 239 { 223 } else
    if x == 240 { 140 } else
    if x == 241 { 161 } else
    if x == 242 { 137 } else
    if x == 243 { 13 } else
    if x == 244 { 191 } else
    if x == 245 { 230 } else
    if x == 246 { 66 } else
    if x == 247 { 104 } else
    if x == 248 { 65 } else
    if x == 249 { 153 } else
    if x == 250 { 45 } else
    if x == 251 { 15 } else
    if x == 252 { 176 } else
    if x == 253 { 84 } else
    if x == 254 { 187 } else { 22 }
}

/// The S-box schedule on eight clear bits (most significant first) with every gate written
/// out, as the value of the output byte.
#[verifier::opaque]
pub open spec fn clear_sbox_byte(u0: bool, u1: bool, u2: bool, u3: bool, u4: bool, u5: bool, u6: bool, u7: bool) -> int {
    let y14 = (u3 != u5);
    let y13 = (u0 != u6);
    let y9 = (u0 != u3);
    let y8 = (u0 != u5);
    let t0 = (u1 != u2);
    let y1 = (t0 != u7);
    let y4 = (y1 != u3);
    let y12 = (y13 != y14);
    let y2 = (y1 != u0);
    let y5 = (y1 != u6);
    let y12 = y12;
    let t1 = (u4 != y12);
    let y15 = (t1 != u5);
    let y20 = (t1 != u1);
    let y6 = (y15 != u7);
    let y10 = (y15 != t0);
    let y11 = (y20 != y9);
    let y11 = y11;
    let y7 = (u7 != y11);
    let y16 = (t0 != y11);
    let y5 = y5;
    let y3 = (y5 != y8);
    let t2 = (y12 && y15);
    let y6 = y6;
    let t3 = (y3 && y6);
    let t4 = (t3 != t2);
    let y4 = y4;
    let t5 = (y4 && u7);
    let t6 = (t5 != t2);
    let y16 = y16;
    let t7 = (y13 && y16);
    let t8 = (y5 && y1);
    let t9 = (t8 != t7);
    let y2 = y2;
    let t10 = (y2 && y7);
    let t11 = (t10 != t7);
    let t12 = (y9 && y11);
    let y10 = y10;
    let t15 = (y8 && y10);
    let y17 = (y10 != y11);
    let t13 = (y14 && y17);
    let t14 = (t13 != t12);
    let t16 = (t15 != t12);
    let t17 = (t4 != t14);
    let t18 = (t6 != t16);
    let t19 = (t9 != t14);
    let t20 = (t11 != t16);
    let t21 = (t17 != y20);
    let y19 = (y10 != y8);
    let t22 = (t18 != y19);
    let y21 = (y13 != y16);
    let t23 = (t19 != y21);
    let y18 = (u0 != y16);
    let t24 = (t20 != y18);
    let t25 = t21 != t22;
    let t26 = t21 && t23;
    let t27 = t24 != t26;
    let t28 = t25 && t27;
    let t29 = t28 != t22;
    let t30 = t23 != t24;
    let t31 = t22 != t26;
    let t32 = t31 && t30;
    let t33 = t32 != t24;
    let t34 = t23 != t33;
    let t35 = t27 != t33;
    let t36 = t24 && t35;
    let t37 = t36 != t34;
    let t38 = t27 != t36;
    let t39 = t29 && t38;
    let t40 = t25 != t39;
    let t41 = t40 != t37;
    let t42 = t29 != t33;
    let t43 = t29 != t40;
    let t44 = t33 != t37;
    let t45 = t42 != t41;
    let z0 = (t44 && y15);
    let z1 = (t37 && y6);
    let z2 = (t33 && u7);
    let z3 = (t43 && y16);
    let z4 = (t40 && y1);
    let z5 = (t29 && y7);
    let z6 = (t42 && y11);
    let z7 = (t45 && y17);
    let z8 = (t41 && y10);
    let z9 = (t44 && y12);
    let z10 = (t37 && y3);
    let z11 = (t33 && y4);
    let z12 = (t43 && y13);
    let z13 = (t40 && y5);
    let z14 = (t29 && y2);
    let z15 = (t42 && y9);
    let z16 = (t45 && y14);
    let z17 = (t41 && y8);
    let t46 = (z15 != z16);
    let t47 = (z10 != z11);
    let t48 = (z5 != z13);
    let t49 = (z9 != z10);
    let t50 = (z2 != z12);
    let t51 = (z2 != z5);
    let t52 = (z7 != z8);
    let t53 = (z0 != z3);
    let t54 = (z6 != z7);
    let t55 = (z16 != z17);
    let t56 = (z12 != t48);
    let t57 = (t50 != t53);
    let t58 = (z4 != t46);
    let t59 = (z3 != t54);
    let t60 = (t46 != t57);
    let t61 = (z14 != t57);
    let t62 = (t52 != t58);
    let t63 = (t49 != t58);
    let t64 = (z4 != t59);
    let t65 = (t61 != t62);
    let t66 = (z1 != t63);
    let s0 = (t59 != t63);
    let s6 = !(t56 != t62);
    let s7 = !(t48 != t60);
    let t67 = (t64 != t65);
    let s3 = (t53 != t66);
    let s4 = (t51 != t66);
    let s5 = (t47 != t65);
    let s1 = !(t64 != s3);
    let s2 = !(t55 != t67);
    (if s0 { 128int } else { 0 }) + (if s1 { 64int } else { 0 }) + (if s2 { 32int } else { 0 })
        + (if s3 { 16int } else { 0 }) + (if s4 { 8int } else { 0 }) + (if s5 { 4int } else { 0 })
        + (if s6 { 2int } else { 0 }) + (if s7 { 1int } else { 0 })
}

proof fn lemma_clear_sbox_byte_table() by (bit_vector)
    ensures
        forall|x: u8|
            clear_sbox_byte(
                x & 128 != 0,
                x & 64 != 0,
                x & 32 != 0,
                x & 16 != 0,
                x & 8 != 0,
                x & 4 != 0,
                x & 2 != 0,
                x & 1 != 0,
            ) == #[trigger] sbox_table(x),
{
}

/// The table constant is the table function.
pub proof fn lemma_aes_sbox_table()
    ensures
        forall|x: u8| #[trigger] AES_SBOX[x as int] == sbox_table(x),
{
    reveal(sbox_table);
    assert(AES_SBOX[0] == sbox_table(0));
    assert(AES_SBOX[1] == sbox_table(1));
    assert(AES_SBOX[2] == sbox_table(2));
    assert(AES_SBOX[3] == sbox_table(3));
    assert(AES_SBOX[4] == sbox_table(4));
    assert(AES_SBOX[5] == sbox_table(5));
    assert(AES_SBOX[6] == sbox_table(6));
    assert(AES_SBOX[7] == sbox_table(7));
    assert(AES_SBOX[8] == sbox_table(8));
    assert(AES_SBOX[9] == sbox_table(9));
    assert(AES_SBOX[10] == sbox_table(10));
    assert(AES_SBOX[11] == sbox_table(11));
    assert(AES_SBOX[12] == sbox_table(12));
    assert(AES_SBOX[13] == sbox_table(13));
    assert(AES_SBOX[14] == sbox_table(14));
    assert(AES_SBOX[15] == sbox_table(15));
    assert(AES_SBOX[16] == sbox_table(16));
    assert(AES_SBOX[17] == sbox_table(17));
    assert(AES_SBOX[18] == sbox_table(18));
    assert(AES_SBOX[19] == sbox_table(19));
    assert(AES_SBOX[20] == sbox_table(20));
    assert(AES_SBOX[21] == sbox_table(21));
    assert(AES_SBOX[22] == sbox_table(22));
    assert(AES_SBOX[23] == sbox_table(23));
    assert(AES_SBOX[24] == sbox_table(24));
    assert(AES_SBOX[25] == sbox_table(25));
    assert(AES_SBOX[26] == sbox_table(26));
    assert(AES_SBOX[27] == sbox_table(27));
    assert(AES_SBOX[28] == sbox_table(28));
    assert(AES_SBOX[29] == sbox_table(29));
    assert(AES_SBOX[30] == sbox_table(30));
    assert(AES_SBOX[31] == sbox_table(31));
    assert(AES_SBOX[32] == sbox_table(32));
    assert(AES_SBOX[33] == sbox_table(33));
    assert(AES_SBOX[34] == sbox_table(34));
    assert(AES_SBOX[35] == sbox_table(35));
    assert(AES_SBOX[36] == sbox_table(36));
    assert(AES_SBOX[37] == sbox_table(37));
    assert(AES_SBOX[38] == sbox_table(38));
    assert(AES_SBOX[39] == sbox_table(39));
    assert(AES_SBOX[40] == sbox_table(40));
    assert(AES_SBOX[41] == sbox_table(41));
    assert(AES_SBOX[42] == sbox_table(42));
    assert(AES_SBOX[43] == sbox_table(43));
    assert(AES_SBOX[44] == sbox_table(44));
    assert(AES_SBOX[45] == sbox_table(45));
    assert(AES_SBOX[46] == sbox_table(46));
    assert(AES_SBOX[47] == sbox_table(47));
    assert(AES_SBOX[48] == sbox_table(48));
    assert(AES_SBOX[49] == sbox_table(49));
    assert(AES_SBOX[50] == sbox_table(50));
    assert(AES_SBOX[51] == sbox_table(51));
    assert(AES_SBOX[52] == sbox_table(52));
    assert(AES_SBOX[53] == sbox_table(53));
    assert(AES_SBOX[54] == sbox_table(54));
    assert(AES_SBOX[55] == sbox_table(55));
    assert(AES_SBOX[56] == sbox_table(56));
    assert(AES_SBOX[57] == sbox_table(57));
    assert(AES_SBOX[58] == sbox_table(58));
    assert(AES_SBOX[59] == sbox_table(59));
    assert(AES_SBOX[60] == sbox_table(60));
    assert(AES_SBOX[61] == sbox_table(61));
    assert(AES_SBOX[62] == sbox_table(62));
    assert(AES_SBOX[63] == sbox_table(63));
    assert(AES_SBOX[64] == sbox_table(64));
    assert(AES_SBOX[65] == sbox_table(65));
    assert(AES_SBOX[66] == sbox_table(66));
    assert(AES_SBOX[67] == sbox_table(67));
    assert(AES_SBOX[68] == sbox_table(68));
    assert(AES_SBOX[69] == sbox_table(69));
    assert(AES_SBOX[70] == sbox_table(70));
    assert(AES_SBOX[71] == sbox_table(71));
    assert(AES_SBOX[72] == sbox_table(72));
    assert(AES_SBOX[73] == sbox_table(73));
    assert(AES_SBOX[74] == sbox_table(74));
    assert(AES_SBOX[75] == sbox_table(75));
    assert(AES_SBOX[76] == sbox_table(76));
    assert(AES_SBOX[77] == sbox_table(77));
    assert(AES_SBOX[78] == sbox_table(78));
    assert(AES_SBOX[79] == sbox_table(79));
    assert(AES_SBOX[80] == sbox_table(80));
    assert(AES_SBOX[81] == sbox_table(81));
    assert(AES_SBOX[82] == sbox_table(82));
    assert(AES_SBOX[83] == sbox_table(83));
    assert(AES_SBOX[84] == sbox_table(84));
    assert(AES_SBOX[85] == sbox_table(85));
    assert(AES_SBOX[86] == sbox_table(86));
    assert(AES_SBOX[87] == sbox_table(87));
    assert(AES_SBOX[88] == sbox_table(88));
    assert(AES_SBOX[89] == sbox_table(89));
    assert(AES_SBOX[90] == sbox_table(90));
    assert(AES_SBOX[91] == sbox_table(91));
    assert(AES_SBOX[92] == sbox_table(92));
    assert(AES_SBOX[93] == sbox_table(93));
    assert(AES_SBOX[94] == sbox_table(94));
    assert(AES_SBOX[95] == sbox_table(95));
    assert(AES_SBOX[96] == sbox_table(96));
    assert(AES_SBOX[97] == sbox_table(97));
    assert(AES_SBOX[98] == sbox_table(98));
    assert(AES_SBOX[99] == sbox_table(99));
    assert(AES_SBOX[100] == sbox_table(100));
    assert(AES_SBOX[101] == sbox_table(101));
    assert(AES_SBOX[102] == sbox_table(102));
    assert(AES_SBOX[103] == sbox_table(103));
    assert(AES_SBOX[104] == sbox_table(104));
    assert(AES_SBOX[105] == sbox_table(105));
    assert(AES_SBOX[106] == sbox_table(106));
    assert(AES_SBOX[107] == sbox_table(107));
    assert(AES_SBOX[108] == sbox_table(108));
    assert(AES_SBOX[109] == sbox_table(109));
    assert(AES_SBOX[110] == sbox_table(110));
    assert(AES_SBOX[111] == sbox_table(111));
    assert(AES_SBOX[112] == sbox_table(112));
    assert(AES_SBOX[113] == sbox_table(113));
    assert(AES_SBOX[114] == sbox_table(114));
    assert(AES_SBOX[115] == sbox_table(115));
    assert(AES_SBOX[116] == sbox_table(116));
    assert(AES_SBOX[117] == sbox_table(117));
    assert(AES_SBOX[118] == sbox_table(118));
    assert(AES_SBOX[119] == sbox_table(119));
    assert(AES_SBOX[120] == sbox_table(120));
    assert(AES_SBOX[121] == sbox_table(121));
    assert(AES_SBOX[122] == sbox_table(122));
    assert(AES_SBOX[123] == sbox_table(123));
    assert(AES_SBOX[124] == sbox_table(124));
    assert(AES_SBOX[125] == sbox_table(125));
    assert(AES_SBOX[126] == sbox_table(126));
    assert(AES_SBOX[127] == sbox_table(127));
    assert(AES_SBOX[128] == sbox_table(128));
    assert(AES_SBOX[129] == sbox_table(129));
    assert(AES_SBOX[130] == sbox_table(130));
    assert(AES_SBOX[131] == sbox_table(131));
    assert(AES_SBOX[132] == sbox_table(132));
    assert(AES_SBOX[133] == sbox_table(133));
    assert(AES_SBOX[134] == sbox_table(134));
    assert(AES_SBOX[135] == sbox_table(135));
    assert(AES_SBOX[136] == sbox_table(136));
    assert(AES_SBOX[137] == sbox_table(137));
    assert(AES_SBOX[138] == sbox_table(138));
    assert(AES_SBOX[139] == sbox_table(139));
    assert(AES_SBOX[140] == sbox_table(140));
    assert(AES_SBOX[141] == sbox_table(141));
    assert(AES_SBOX[142] == sbox_table(142));
    assert(AES_SBOX[143] == sbox_table(143));
    assert(AES_SBOX[144] == sbox_table(144));
    assert(AES_SBOX[145] == sbox_table(145));
    assert(AES_SBOX[146] == sbox_table(146));
    assert(AES_SBOX[147] == sbox_table(147));
    assert(AES_SBOX[148] == sbox_table(148));
    assert(AES_SBOX[149] == sbox_table(149));
    assert(AES_SBOX[150] == sbox_table(150));
    assert(AES_SBOX[151] == sbox_table(151));
    assert(AES_SBOX[152] == sbox_table(152));
    assert(AES_SBOX[153] == sbox_table(153));
    assert(AES_SBOX[154] == sbox_table(154));
    assert(AES_SBOX[155] == sbox_table(155));
    assert(AES_SBOX[156] == sbox_table(156));
    assert(AES_SBOX[157] == sbox_table(157));
    assert(AES_SBOX[158] == sbox_table(158));
    assert(AES_SBOX[159] == sbox_table(159));
    assert(AES_SBOX[160] == sbox_table(160));
    assert(AES_SBOX[161] == sbox_table(161));
    assert(AES_SBOX[162] == sbox_table(162));
    assert(AES_SBOX[163] == sbox_table(163));
    assert(AES_SBOX[164] == sbox_table(164));
    assert(AES_SBOX[165] == sbox_table(165));
    assert(AES_SBOX[166] == sbox_table(166));
    assert(AES_SBOX[167] == sbox_table(167));
    assert(AES_SBOX[168] == sbox_table(168));
    assert(AES_SBOX[169] == sbox_table(169));
    assert(AES_SBOX[170] == sbox_table(170));
    assert(AES_SBOX[171] == sbox_table(171));
    assert(AES_SBOX[172] == sbox_table(172));
    assert(AES_SBOX[173] == sbox_table(173));
    assert(AES_SBOX[174] == sbox_table(174));
    assert(AES_SBOX[175] == sbox_table(175));
    assert(AES_SBOX[176] == sbox_table(176));
    assert(AES_SBOX[177] == sbox_table(177));
    assert(AES_SBOX[178] == sbox_table(178));
    assert(AES_SBOX[179] == sbox_table(179));
    assert(AES_SBOX[180] == sbox_table(180));
    assert(AES_SBOX[181] == sbox_table(181));
    assert(AES_SBOX[182] == sbox_table(182));
    assert(AES_SBOX[183] == sbox_table(183));
    assert(AES_SBOX[184] == sbox_table(184));
    assert(AES_SBOX[185] == sbox_table(185));
    assert(AES_SBOX[186] == sbox_table(186));
    assert(AES_SBOX[187] == sbox_table(187));
    assert(AES_SBOX[188] == sbox_table(188));
    assert(AES_SBOX[189] == sbox_table(189));
    assert(AES_SBOX[190] == sbox_table(190));
    assert(AES_SBOX[191] == sbox_table(191));
    assert(AES_SBOX[192] == sbox_table(192));
    assert(AES_SBOX[193] == sbox_table(193));
    assert(AES_SBOX[194] == sbox_table(194));
    assert(AES_SBOX[195] == sbox_table(195));
    assert(AES_SBOX[196] == sbox_table(196));
    assert(AES_SBOX[197] == sbox_table(197));
    assert(AES_SBOX[198] == sbox_table(198));
    assert(AES_SBOX[199] == sbox_table(199));
    assert(AES_SBOX[200] == sbox_table(200));
    assert(AES_SBOX[201] == sbox_table(201));
    assert(AES_SBOX[202] == sbox_table(202));
    assert(AES_SBOX[203] == sbox_table(203));
    assert(AES_SBOX[204] == sbox_table(204));
    assert(AES_SBOX[205] == sbox_table(205));
    assert(AES_SBOX[206] == sbox_table(206));
    assert(AES_SBOX[207] == sbox_table(207));
    assert(AES_SBOX[208] == sbox_table(208));
    assert(AES_SBOX[209] == sbox_table(209));
    assert(AES_SBOX[210] == sbox_table(210));
    assert(AES_SBOX[211] == sbox_table(211));
    assert(AES_SBOX[212] == sbox_table(212));
    assert(AES_SBOX[213] == sbox_table(213));
    assert(AES_SBOX[214] == sbox_table(214));
    assert(AES_SBOX[215] == sbox_table(215));
    assert(AES_SBOX[216] == sbox_table(216));
    assert(AES_SBOX[217] == sbox_table(217));
    assert(AES_SBOX[218] == sbox_table(218));
    assert(AES_SBOX[219] == sbox_table(219));
    assert(AES_SBOX[220] == sbox_table(220));
    assert(AES_SBOX[221] == sbox_table(221));
    assert(AES_SBOX[222] == sbox_table(222));
    assert(AES_SBOX[223] == sbox_table(223));
    assert(AES_SBOX[224] == sbox_table(224));
    assert(AES_SBOX[225] == sbox_table(225));
    assert(AES_SBOX[226] == sbox_table(226));
    assert(AES_SBOX[227] == sbox_table(227));
    assert(AES_SBOX[228] == sbox_table(228));
    assert(AES_SBOX[229] == sbox_table(229));
    assert(AES_SBOX[230] == sbox_table(230));
    assert(AES_SBOX[231] == sbox_table(231));
    assert(AES_SBOX[232] == sbox_table(232));
    assert(AES_SBOX[233] == sbox_table(233));
    assert(AES_SBOX[234] == sbox_table(234));
    assert(AES_SBOX[235] == sbox_table(235));
    assert(AES_SBOX[236] == sbox_table(236));
    assert(AES_SBOX[237] == sbox_table(237));
    assert(AES_SBOX[238] == sbox_table(238));
    assert(AES_SBOX[239] == sbox_table(239));
    assert(AES_SBOX[240] == sbox_table(240));
    assert(AES_SBOX[241] == sbox_table(241));
    assert(AES_SBOX[242] == sbox_table(242));
    assert(AES_SBOX[243] == sbox_table(243));
    assert(AES_SBOX[244] == sbox_table(244));
    assert(AES_SBOX[245] == sbox_table(245));
    assert(AES_SBOX[246] == sbox_table(246));
    assert(AES_SBOX[247] == sbox_table(247));
    assert(AES_SBOX[248] == sbox_table(248));
    assert(AES_SBOX[249] == sbox_table(249));
    assert(AES_SBOX[250] == sbox_table(250));
    assert(AES_SBOX[251] == sbox_table(251));
    assert(AES_SBOX[252] == sbox_table(252));
    assert(AES_SBOX[253] == sbox_table(253));
    assert(AES_SBOX[254] == sbox_table(254));
    assert(AES_SBOX[255] == sbox_table(255));
    assert forall|x: u8| #[trigger] AES_SBOX[x as int] == sbox_table(x) by {
        assert(x == 0 || x == 1 || x == 2 || x == 3 || x == 4 || x == 5 || x == 6 || x == 7 || x == 8 || x == 9 || x == 10 || x == 11 || x == 12 || x == 13 || x == 14 || x == 15 || x == 16 || x == 17 || x == 18 || x == 19 || x == 20 || x == 21 || x == 22 || x == 23 || x == 24 || x == 25 || x == 26 || x == 27 || x == 28 || x == 29 || x == 30 || x == 31 || x == 32 || x == 33 || x == 34 || x == 35 || x == 36 || x == 37 || x == 38 || x == 39 || x == 40 || x == 41 || x == 42 || x == 43 || x == 44 || x == 45 || x == 46 || x == 47 || x == 48 || x == 49 || x == 50 || x == 51 || x == 52 || x == 53 || x == 54 || x == 55 || x == 56 || x == 57 || x == 58 || x == 59 || x == 60 || x == 61 || x == 62 || x == 63 || x == 64 || x == 65 || x == 66 || x == 67 || x == 68 || x == 69 || x == 70 || x == 71 || x == 72 || x == 73 || x == 74 || x == 75 || x == 76 || x == 77 || x == 78 || x == 79 || x == 80 || x == 81 || x == 82 || x == 83 || x == 84 || x == 85 || x == 86 || x == 87 || x == 88 || x == 89 || x == 90 || x == 91 || x == 92 || x == 93 || x == 94 || x == 95 || x == 96 || x == 97 || x == 98 || x == 99 || x == 100 || x == 101 || x == 102 || x == 103 || x == 104 || x == 105 || x == 106 || x == 107 || x == 108 || x == 109 || x == 110 || x == 111 || x == 112 || x == 113 || x == 114 || x == 115 || x == 116 || x == 117 || x == 118 || x == 119 || x == 120 || x == 121 || x == 122 || x == 123 || x == 124 || x == 125 || x == 126 || x == 127 || x == 128 || x == 129 || x == 130 || x == 131 || x == 132 || x == 133 || x == 134 || x == 135 || x == 136 || x == 137 || x == 138 || x == 139 || x == 140 || x == 141 || x == 142 || x == 143 || x == 144 || x == 145 || x == 146 || x == 147 || x == 148 || x == 149 || x == 150 || x == 151 || x == 152 || x == 153 || x == 154 || x == 155 || x == 156 || x == 157 || x == 158 || x == 159 || x == 160 || x == 161 || x == 162 || x == 163 || x == 164 || x == 165 || x == 166 || x == 167 || x == 168 || x == 169 || x == 170 || x == 171 || x == 172 || x == 173 || x == 174 || x == 175 || x == 176 || x == 177 || x == 178 || x == 179 || x == 180 || x == 181 || x == 182 || x == 183 || x == 184 || x == 185 || x == 186 || x == 187 || x == 188 || x == 189 || x == 190 || x == 191 || x == 192 || x == 193 || x == 194 || x == 195 || x == 196 || x == 197 || x == 198 || x == 199 || x == 200 || x == 201 || x == 202 || x == 203 || x == 204 || x == 205 || x == 206 || x == 207 || x == 208 || x == 209 || x == 210 || x == 211 || x == 212 || x == 213 || x == 214 || x == 215 || x == 216 || x == 217 || x == 218 || x == 219 || x == 220 || x == 221 || x == 222 || x == 223 || x == 224 || x == 225 || x == 226 || x == 227 || x == 228 || x == 229 || x == 230 || x == 231 || x == 232 || x == 233 || x == 234 || x == 235 || x == 236 || x == 237 || x == 238 || x == 239 || x == 240 || x == 241 || x == 242 || x == 243 || x == 244 || x == 245 || x == 246 || x == 247 || x == 248 || x == 249 || x == 250 || x == 251 || x == 252 || x == 253 || x == 254 || x == 255);
    }
}


/// The schedule on clear bits: XOR, AND and NOT are the boolean gates, reducing a bit leaves
/// it unchanged, and the inverter is [`inverter_spec`].
pub open spec fn clear_schedule_bits(b: Seq<bool>) -> Seq<bool> {
    schedule_spec(
        b,
        |a: bool, b: bool| a != b,
        |a: bool, b: bool| a && b,
        |a: bool| !a,
        |a: bool| a,
        |b: Seq<bool>| inverter_spec(b),
        |a: bool, b: bool| a && b,
    )
}

/// The value of the output byte of the schedule on the clear bits of `x`.
pub open spec fn clear_schedule(x: u8) -> int {
    bits_byte(clear_schedule_bits(byte_bits(x)))
}

proof fn lemma_clear_schedule_circuit(b: Seq<bool>)
    requires
        b.len() == 8,
    ensures
        bits_byte(clear_schedule_bits(b)) == clear_sbox_byte(b[0], b[1], b[2], b[3], b[4], b[5], b[6], b[7]),
{
    reveal(schedule_spec);
    reveal(clear_sbox_byte);
}

proof fn lemma_byte_bits(x: u8)
    ensures
        byte_bits(x)[0] == (x & 128 != 0),
        byte_bits(x)[1] == (x & 64 != 0),
        byte_bits(x)[2] == (x & 32 != 0),
        byte_bits(x)[3] == (x & 16 != 0),
        byte_bits(x)[4] == (x & 8 != 0),
        byte_bits(x)[5] == (x & 4 != 0),
        byte_bits(x)[6] == (x & 2 != 0),
        byte_bits(x)[7] == (x & 1 != 0),
{
    assert((x / 128 % 2 == 1) == (x & 128 != 0) && (x / 64 % 2 == 1) == (x & 64 != 0) && (x / 32
        % 2 == 1) == (x & 32 != 0) && (x / 16 % 2 == 1) == (x & 16 != 0) && (x / 8 % 2 == 1) == (x
        & 8 != 0) && (x / 4 % 2 == 1) == (x & 4 != 0) && (x / 2 % 2 == 1) == (x & 2 != 0) && (x % 2
        == 1) == (x & 1 != 0)) by (bit_vector);
}

proof fn lemma_clear_schedule_bits_of(x: u8)
    ensures
        clear_schedule(x) == clear_sbox_byte(x & 128 != 0, x & 64 != 0, x & 32 != 0, x & 16 != 0, x & 8 != 0, x & 4 != 0, x & 2 != 0, x & 1 != 0),
{
    let b = byte_bits(x);
    lemma_byte_bits(x);
    lemma_clear_schedule_circuit(b);
}

proof fn lemma_clear_sbox_byte_is_aes(x: u8)
    ensures
        clear_sbox_byte(x & 128 != 0, x & 64 != 0, x & 32 != 0, x & 16 != 0, x & 8 != 0, x & 4 != 0, x & 2 != 0, x & 1 != 0) == AES_SBOX[x as int],
{
    lemma_clear_sbox_byte_table();
    lemma_aes_sbox_table();
    assert(clear_sbox_byte(x & 128 != 0, x & 64 != 0, x & 32 != 0, x & 16 != 0, x & 8 != 0, x & 4 != 0, x & 2 != 0, x & 1 != 0) == sbox_table(x));
}

/// The Boyar-Peralta schedule on clear bits computes the AES S-box on every byte.
pub proof fn lemma_schedule_is_aes_sbox(x: u8)
    ensures
        clear_schedule(x) == AES_SBOX[x as int],
{
    lemma_clear_schedule_bits_of(x);
    lemma_clear_sbox_byte_is_aes(x);
}


// ================================================================ xtime and table recognition

/// Multiplication of a byte by two in GF(2^8) (modulus 0x11B).
pub open spec fn xtime_spec(x: u8) -> u8 {
    (((x as int * 2) % 256) as u8) ^ (if x >= 128 { 0x1Bu8 } else { 0u8 })
}

/// Multiplies a clear byte by two in GF(2^8).
pub fn clear_xtime(x: u8) -> (r: u8)
    ensures
        r == xtime_spec(x),
{
    let r = (x << 1) ^ if x & 0x80 != 0 {
        0x1B
    } else {
        0
    };
    assert(r == (((x as int * 2) % 256) as u8) ^ (if x >= 128 { 0x1Bu8 } else { 0u8 })) by (bit_vector)
        requires
            r == (x << 1) ^ if x & 0x80 != 0 {
                0x1Bu8
            } else {
                0u8
            },
    ;
    r
}

/// Multiplication by two in GF(2^8) distributes over addition (XOR).
pub proof fn lemma_xtime_additive(a: u8, b: u8)
    ensures
        xtime_spec(a ^ b) == xtime_spec(a) ^ xtime_spec(b),
{
    assert((((((a ^ b) as int * 2) % 256) as u8) ^ (if (a ^ b) >= 128 { 0x1Bu8 } else { 0u8 })) == ((
    (((a as int * 2) % 256) as u8) ^ (if a >= 128 { 0x1Bu8 } else { 0u8 })) ^ ((((b as int * 2) % 256) as u8)
        ^ (if b >= 128 { 0x1Bu8 } else { 0u8 })))) by (bit_vector);
}

/// `table` is the full 8-bit table of `g`: 256 entries with distinct keys below 256, each
/// mapped to `g` of its key.
pub open spec fn dense_table_spec(table: Seq<(u128, u128)>, g: spec_fn(u8) -> u8) -> bool {
    &&& table.len() == 256
    &&& forall|i: int| 0 <= i < table.len() ==> #[trigger] table[i].0 < 256
    &&& forall|i: int| 0 <= i < table.len() ==> #[trigger] table[i].1 == g(table[i].0 as u8) as u128
    &&& forall|i: int, j: int| 0 <= i < j < table.len() ==> #[trigger] table[i].0 != #[trigger] table[j].0
}

/// `table` has 256 entries with distinct keys below 256.
pub open spec fn dense_table_keys(table: Seq<(u128, u128)>) -> bool {
    &&& table.len() == 256
    &&& forall|i: int| 0 <= i < table.len() ==> #[trigger] table[i].0 < 256
    &&& forall|i: int, j: int| 0 <= i < j < table.len() ==> #[trigger] table[i].0 != #[trigger] table[j].0
}

/// `f` is a total function that computes `g`.
pub open spec fn computes_byte<F: Fn(u8) -> u8>(f: F, g: spec_fn(u8) -> u8) -> bool {
    &&& forall|a: u8| call_requires(f, (a,))
    &&& forall|a: u8, r: u8| #[trigger] call_ensures(f, (a,), r) ==> r == g(a)
}

/// Tests if `table` is the full 8-bit table of `f`. If it is, then the value matcher can use
/// a manual circuit in place of the table.
pub fn is_dense_table(table: &[(u128, u128)], f: impl Fn(u8) -> u8) -> (r: bool)
    requires
        forall|a: u8| call_requires(f, (a,)),
    ensures
        forall|g: spec_fn(u8) -> u8| computes_byte(f, g) ==> r == #[trigger] dense_table_spec(table@, g),
        r ==> dense_table_keys(table@),
        r ==> forall|i: int| 0 <= i < table@.len() ==> table@[i].1 < 256 && call_ensures(
            f,
            (table@[i].0 as u8,),
            #[trigger] table@[i].1 as u8,
        ),
        !r ==> !dense_table_keys(table@) || exists|i: int, y: u8|
            0 <= i < table@.len() && #[trigger] call_ensures(f, (table@[i].0 as u8,), y) && table@[i].1 != y as u128,
{
    if table.len() != 256 {
        return false;
    }
    let mut seen: Vec<bool> = vec![false; 256];
    let mut i: usize = 0;
    while i < table.len()
        invariant
            table.len() == 256,
            seen.len() == 256,
            i <= table.len(),
            forall|a: u8| call_requires(f, (a,)),
            forall|j: int| 0 <= j < i ==> #[trigger] table@[j].0 < 256,
            forall|j: int| 0 <= j < i ==> seen@[#[trigger] table@[j].0 as int],
            forall|k: int| 0 <= k < 256 && #[trigger] seen@[k] ==> exists|j: int| 0 <= j < i && table@[j].0 == k,
            forall|j1: int, j2: int| 0 <= j1 < j2 < i ==> #[trigger] table@[j1].0 != #[trigger] table@[j2].0,
            forall|g: spec_fn(u8) -> u8| computes_byte(f, g) ==> forall|j: int| 0 <= j < i ==> #[trigger] table@[j].1 == g(table@[j].0 as u8) as u128,
            forall|j: int| 0 <= j < i ==> table@[j].1 < 256 && call_ensures(f, (table@[j].0 as u8,), #[trigger] table@[j].1 as u8),
        decreases table.len() - i,
    {
        let (k, v) = table[i];
        if k >= 256 {
            return false;
        }
        let y = f(k as u8);
        if v != y as u128 {
            proof {
                assert(call_ensures(f, (table@[i as int].0 as u8,), y));
                assert forall|g: spec_fn(u8) -> u8| computes_byte(f, g) implies !dense_table_spec(table@, g) by {
                    assert(table@[i as int].1 != g(table@[i as int].0 as u8) as u128);
                }
            }
            return false;
        }
        if seen[k as usize] {
            proof {
                let j = choose|j: int| 0 <= j < i && table@[j].0 == k as int;
                assert(table@[j].0 == table@[i as int].0);
                assert(!dense_table_keys(table@));
            }
            return false;
        }
        seen.set(k as usize, true);
        proof {
            assert(table@[i as int].1 as u8 == y);
        }
        i = i + 1;
    }
    true
}

/// The AES S-box as a function.
pub open spec fn aes_sbox_fn() -> spec_fn(u8) -> u8 {
    |x: u8| AES_SBOX[x as int]
}

/// Tests if `table` is the full table of the AES S-box.
pub fn is_aes_sbox(table: &[(u128, u128)]) -> (r: bool)
    ensures
        r == dense_table_spec(table@, aes_sbox_fn()),
{
    let f = |x: u8| -> (y: u8)
        ensures
            y == AES_SBOX[x as int],
        { AES_SBOX[x as usize] };
    let r = is_dense_table(table, f);
    proof {
        assert(computes_byte(f, aes_sbox_fn()));
    }
    r
}

/// xtime as a function.
pub open spec fn xtime_fn() -> spec_fn(u8) -> u8 {
    |x: u8| xtime_spec(x)
}

/// Tests if `table` is the full table of xtime.
pub fn is_xtime(table: &[(u128, u128)]) -> (r: bool)
    ensures
        r == dense_table_spec(table@, xtime_fn()),
{
    let f = |x: u8| -> (y: u8)
        ensures
            y == xtime_spec(x),
        { clear_xtime(x) };
    let r = is_dense_table(table, f);
    proof {
        assert(computes_byte(f, xtime_fn()));
    }
    r
}

/// A dense table defines its function on every byte: each byte is the key of exactly one
/// entry.
pub proof fn lemma_dense_table_covers(table: Seq<(u128, u128)>, g: spec_fn(u8) -> u8, b: u8)
    requires
        dense_table_spec(table, g),
    ensures
        exists|i: int| 0 <= i < table.len() && table[i].0 == b as u128,
        forall|i: int, j: int| 0 <= i < table.len() && 0 <= j < table.len() && table[i].0 == b as u128 && table[j].0 == b as u128 ==> i == j,
{
    let keys = Seq::new(256, |i: int| table[i].0 as int);
    assert(keys.no_duplicates()) by {
        assert forall|i: int, j: int| 0 <= i < keys.len() && 0 <= j < keys.len() && i != j implies keys[i] != keys[j] by {
            if i < j {
                assert(table[i].0 != table[j].0);
            } else {
                assert(table[j].0 != table[i].0);
            }
        }
    }
    keys.unique_seq_to_set();
    let ks = keys.to_set();
    let range = vstd::set_lib::set_int_range(0, 256);
    vstd::set_lib::lemma_int_range(0, 256);
    assert(ks.subset_of(range)) by {
        assert forall|k: int| ks.contains(k) implies range.contains(k) by {
            let i = choose|i: int| 0 <= i < keys.len() && keys[i] == k;
            assert(table[i].0 < 256);
        }
    }
    vstd::seq_lib::seq_to_set_is_finite(keys);
    vstd::set_lib::lemma_subset_equality(ks, range);
    assert(range.contains(b as int));
    assert(ks.contains(b as int));
    let i = choose|i: int| 0 <= i < keys.len() && keys[i] == b as int;
    assert(table[i].0 == b as u128);
    assert forall|i: int, j: int| 0 <= i < table.len() && 0 <= j < table.len() && table[i].0 == b as u128 && table[j].0 == b as u128 implies i == j by {
        if i < j {
            assert(table[i].0 != table[j].0);
        } else if j < i {
            assert(table[j].0 != table[i].0);
        }
    }
}

} // verus!
