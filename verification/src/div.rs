//! The core of the restoring divider, two quotient bits per step: the remainder
//! takes the next block of the numerator, the divisor and its double and triple
//! are subtracted from it, the signs of the differences pick the quotient digit
//! and the new remainder. The block operations, the adder and the precomputed
//! multiples of the divisor of the circuit builder are handed in.
use vstd::prelude::*;
use crate::mh_mul::copy_vec;
use crate::mul::col_views;
use vstd::arithmetic::power::pow;

verus! {

/// The lookup tables of the divider.
#[derive(Clone, Copy, Debug, PartialEq, Eq)]
pub enum DivLut {
    /// Whether the message of a block is not zero, as a flag in bit 1.
    MsgNotNullPos1,
    /// Exclusive or of the two packed flags.
    BwXor,
    /// Whether a flag in bit 1 is clear, as a flag in bit 1.
    IsNullPos1,
    /// The message when the flag in bit 1 of the packed selector is set, else 0.
    IfPos1FalseZeroed,
    /// The message when the flag in bit 0 of the packed selector is set, else 0.
    IfFalseZeroed,
    /// The message, refreshed (the `None` table).
    Refresh,
    /// The quotient digit from the count of flags in bit 1.
    SolveQuotientPos1,
}

/// The block operations that the divider calls.
pub struct DivCalls<FA, FS, FL, FP, FD> {
    /// Sum of two blocks.
    pub add: FA,
    /// Difference of two blocks.
    pub sub: FS,
    /// One table lookup.
    pub lut: FL,
    /// A table lookup on two blocks packed into one (selector or flag high, block low).
    pub pack_lut: FP,
    /// The adder: the sum blocks of two block vectors, uncleaned, as many as the
    /// longer one.
    pub adder: FD,
}

/// What the block operations compute.
#[verifier::reject_recursive_types(B)]
pub struct DivOps<B> {
    pub add: spec_fn(B, B) -> B,
    pub sub: spec_fn(B, B) -> B,
    pub lut: spec_fn(B, DivLut) -> B,
    pub pack_lut: spec_fn(B, B, DivLut) -> B,
    pub adder: spec_fn(Seq<B>, Seq<B>) -> Seq<B>,
}

/// Every operation accepts every argument, and the adder returns as many blocks
/// as the longer of its operands.
pub open spec fn div_total<
    B,
    FA: Fn(B, B) -> B,
    FS: Fn(B, B) -> B,
    FL: Fn(B, DivLut) -> B,
    FP: Fn(B, B, DivLut) -> B,
    FD: Fn(Vec<B>, Vec<B>) -> Vec<B>,
>(ops: &DivCalls<FA, FS, FL, FP, FD>) -> bool {
    &&& forall|a: B, b: B| call_requires(ops.add, (a, b))
    &&& forall|a: B, b: B| call_requires(ops.sub, (a, b))
    &&& forall|a: B, l: DivLut| call_requires(ops.lut, (a, l))
    &&& forall|a: B, b: B, l: DivLut| call_requires(ops.pack_lut, (a, b, l))
    &&& forall|x: Vec<B>, y: Vec<B>| call_requires(ops.adder, (x, y))
    &&& forall|x: Vec<B>, y: Vec<B>, r: Vec<B>| #[trigger] call_ensures(ops.adder, (x, y), r) ==> r@.len() == if x@.len()
        < y@.len() {
        y@.len()
    } else {
        x@.len()
    }
}

/// The closures compute the functions of `o`.
pub open spec fn div_implements<
    B,
    FA: Fn(B, B) -> B,
    FS: Fn(B, B) -> B,
    FL: Fn(B, DivLut) -> B,
    FP: Fn(B, B, DivLut) -> B,
    FD: Fn(Vec<B>, Vec<B>) -> Vec<B>,
>(ops: &DivCalls<FA, FS, FL, FP, FD>, o: DivOps<B>) -> bool {
    &&& forall|a: B, b: B, r: B| #[trigger] call_ensures(ops.add, (a, b), r) ==> r == (o.add)(a, b)
    &&& forall|a: B, b: B, r: B| #[trigger] call_ensures(ops.sub, (a, b), r) ==> r == (o.sub)(a, b)
    &&& forall|a: B, l: DivLut, r: B| #[trigger] call_ensures(ops.lut, (a, l), r) ==> r == (o.lut)(a, l)
    &&& forall|a: B, b: B, l: DivLut, r: B| #[trigger] call_ensures(ops.pack_lut, (a, b, l), r) ==> r == (o.pack_lut)(
        a,
        b,
        l,
    )
    &&& forall|x: Vec<B>, y: Vec<B>, r: Vec<B>| #[trigger] call_ensures(ops.adder, (x, y), r) ==> r@ == (o.adder)(x@, y@)
}

/// What the divider needs of the divisor, computed beforehand: its multiples by
/// one, two and three (`div_x`), for each of them the flags telling from which
/// block on it is zero (`not_null`), their opposites with a sign block (`mdiv`),
/// and whether the divisor is not zero (`keep`).
pub struct DivInit<B> {
    pub keep: B,
    pub div_x: Seq<Seq<B>>,
    pub not_null: Seq<Seq<B>>,
    pub mdiv: Seq<Seq<B>>,
}

/// The opposite of a multiple of the divisor, cut or extended with the sign block
/// to `nb` blocks, then one sign block more.
pub open spec fn ext_mdiv<B>(mdiv: Seq<B>, nb: nat, sign: B) -> Seq<B> {
    Seq::new(nb + 1, |i: int| if i < nb && i < mdiv.len() { mdiv[i] } else { sign })
}

/// Whether the remainder is less than multiple `xi` of the divisor, as a flag in
/// bit 1: the sign of their difference, or a block of the multiple past the
/// remainder's width that is not zero.
pub open spec fn is_lt<B>(init: DivInit<B>, diff: Seq<B>, xi: int, nb: nat, o: DivOps<B>) -> B {
    if nb < init.div_x[xi].len() {
        (o.lut)((o.sub)(diff[nb as int], init.not_null[xi][nb as int]), DivLut::MsgNotNullPos1)
    } else {
        (o.lut)(diff[nb as int], DivLut::MsgNotNullPos1)
    }
}

/// The state after a step: the remainder and the quotient digits, most significant
/// first.
pub struct DivState<B> {
    pub remain: Seq<B>,
    pub quot: Seq<B>,
}

/// One step of the divider on the remainder `rem` (already extended with the next
/// block of the numerator, `nb` blocks).
pub open spec fn div_step<B>(rem: Seq<B>, quot: Seq<B>, init: DivInit<B>, sign: B, o: DivOps<B>) -> DivState<B> {
    let nb = rem.len();
    let d1 = (o.adder)(rem, ext_mdiv(init.mdiv[0], nb, sign));
    let d2 = (o.adder)(rem, ext_mdiv(init.mdiv[1], nb, sign));
    let d3 = (o.adder)(rem, ext_mdiv(init.mdiv[2], nb, sign));
    let l0 = is_lt(init, d1, 0, nb, o);
    let l1 = is_lt(init, d2, 1, nb, o);
    let l2 = is_lt(init, d3, 2, nb, o);
    let q = seq![
        l0,
        (o.pack_lut)(l0, l1, DivLut::BwXor),
        (o.pack_lut)(l1, l2, DivLut::BwXor),
        (o.lut)(l2, DivLut::IsNullPos1),
    ];
    let dv = seq![rem, d1, d2, d3];
    let t = |m: int, i: int| (o.pack_lut)(q[m], dv[m][i], DivLut::IfPos1FalseZeroed);
    DivState {
        remain: Seq::new(
            nb,
            |i: int| (o.lut)((o.add)((o.add)(t(0, i), t(1, i)), (o.add)(t(2, i), t(3, i))), DivLut::Refresh),
        ),
        quot: quot.push((o.lut)((o.add)(l0, (o.add)(l1, l2)), DivLut::SolveQuotientPos1)),
    }
}

/// The state after the first `t` steps on the numerator `num`.
pub open spec fn div_state<B>(num: Seq<B>, init: DivInit<B>, sign: B, o: DivOps<B>, t: nat) -> DivState<B>
    decreases t,
{
    if t == 0 {
        DivState { remain: Seq::empty(), quot: Seq::empty() }
    } else {
        let prev = div_state(num, init, sign, o, (t - 1) as nat);
        div_step(seq![num[num.len() - t]] + prev.remain, prev.quot, init, sign, o)
    }
}

/// The quotient (least significant first, zero when the divisor is) and the
/// remainder that the divider computes.
pub open spec fn div_spec<B>(num: Seq<B>, init: DivInit<B>, sign: B, o: DivOps<B>) -> (Seq<B>, Seq<B>) {
    let st = div_state(num, init, sign, o, num.len());
    let q = st.quot.reverse();
    (Seq::new(q.len(), |i: int| (o.pack_lut)(init.keep, q[i], DivLut::IfFalseZeroed)), st.remain)
}

/// The precomputed data covers the three multiples.
pub open spec fn div_init_ok<B>(init: DivInit<B>) -> bool {
    &&& init.div_x.len() == 3
    &&& init.not_null.len() == 3
    &&& init.mdiv.len() == 3
    &&& forall|xi: int| 0 <= xi < 3 ==> (#[trigger] init.not_null[xi]).len() == init.div_x[xi].len()
}

/// The value of base-4 blocks, least significant first.
pub open spec fn val4(s: Seq<int>) -> int
    decreases s.len(),
{
    if s.len() == 0 {
        0
    } else {
        s[0] + 4 * val4(s.skip(1))
    }
}

/// Every block is a digit of two bits.
pub open spec fn digits2(s: Seq<int>) -> bool {
    forall|i: int| 0 <= i < s.len() ==> 0 <= #[trigger] s[i] < 4
}

/// Block `i` of `x`, zero past its end.
pub open spec fn at(x: Seq<int>, i: int) -> int {
    if 0 <= i < x.len() { x[i] } else { 0 }
}

/// The sum blocks of `x` and `y` from block `i` to `n`, with the carry `c` into
/// block `i`: each block reduced to a digit with its carry passed on, but the top
/// one, which keeps it.
pub open spec fn add_from(x: Seq<int>, y: Seq<int>, i: nat, n: nat, c: int) -> Seq<int>
    decreases n - i,
{
    if i >= n {
        Seq::empty()
    } else {
        let s = at(x, i as int) + at(y, i as int) + c;
        if i + 1 == n {
            seq![s]
        } else {
            seq![s % 4] + add_from(x, y, i + 1, n, s / 4)
        }
    }
}

/// The opposite of the blocks `x` with a sign block: `4 - x[0]`, then `3 - x[i]`,
/// then 3.
pub open spec fn opposite(x: Seq<int>) -> Seq<int> {
    Seq::new(x.len() + 1, |i: int| if i == x.len() { 3 } else if i == 0 { 4 - x[0] } else { 3 - x[i] })
}

/// For each block of `x`, 1 when some block from there up is not zero, else 0.
pub open spec fn zero_flags(x: Seq<int>) -> Seq<int> {
    Seq::new(x.len(), |k: int| if val4(x.skip(k)) != 0 { 1 } else { 0 })
}

/// The block operations on clear values: sums and differences, the adder with its
/// carries propagated (the top block keeping its own), and each table read as its
/// name says on flags kept in bit 1 (bit 0 for `IfFalseZeroed`).
pub open spec fn clear_div_ops() -> DivOps<int> {
    DivOps {
        add: |x: int, y: int| x + y,
        sub: |x: int, y: int| x - y,
        lut: |x: int, l: DivLut|
            match l {
                DivLut::MsgNotNullPos1 => if x % 4 != 0 { 2 } else { 0 },
                DivLut::IsNullPos1 => if x == 0 { 2 } else { 0 },
                DivLut::Refresh => x % 4,
                DivLut::SolveQuotientPos1 => 3 - x / 2,
                _ => 0,
            },
        pack_lut: |a: int, b: int, l: DivLut|
            match l {
                DivLut::BwXor => if a == b { 0 } else { 2 },
                DivLut::IfPos1FalseZeroed => if (a / 2) % 2 == 1 { b % 4 } else { 0 },
                DivLut::IfFalseZeroed => if a % 2 == 1 { b % 4 } else { 0 },
                _ => 0,
            },
        adder: |x: Seq<int>, y: Seq<int>| add_from(x, y, 0, if x.len() < y.len() { y.len() } else { x.len() }, 0),
    }
}

/// The precomputed data of a divisor of value `d`: its multiples by one, two and
/// three as digits, their zero flags and their opposites, and the flag telling
/// whether it is not zero.
pub open spec fn divisor_data(init: DivInit<int>, d: int) -> bool {
    &&& div_init_ok(init)
    &&& init.keep == if d != 0 { 1int } else { 0int }
    &&& forall|xi: int| 0 <= xi < 3 ==> {
        &&& digits2(#[trigger] init.div_x[xi])
        &&& init.div_x[xi].len() >= 1
        &&& val4(init.div_x[xi]) == (xi + 1) * d
        &&& init.not_null[xi] == zero_flags(init.div_x[xi])
        &&& init.mdiv[xi] == opposite(init.div_x[xi])
    }
}

pub proof fn lemma_val4_bound(s: Seq<int>)
    requires
        digits2(s),
    ensures
        0 <= val4(s) < pow(4, s.len()),
    decreases s.len(),
{
    reveal(pow);
    if s.len() > 0 {
        let t = s.skip(1);
        assert(digits2(t)) by {
            assert forall|i: int| 0 <= i < t.len() implies 0 <= #[trigger] t[i] < 4 by {
                assert(t[i] == s[i + 1]);
            }
        }
        lemma_val4_bound(t);
        let p = pow(4, t.len());
        assert(pow(4, s.len()) == 4 * p);
        let v = val4(t);
        let x = s[0];
        assert(0 <= x < 4);
        assert(0 <= x + 4 * v < 4 * p) by (nonlinear_arith)
            requires
                0 <= v < p,
                0 <= x < 4,
        ;
    }
}

pub proof fn lemma_val4_split(s: Seq<int>, k: int)
    requires
        0 <= k <= s.len(),
    ensures
        val4(s) == val4(s.take(k)) + pow(4, k as nat) * val4(s.skip(k)),
    decreases k,
{
    reveal(pow);
    if k == 0 {
        assert(s.take(0) =~= Seq::<int>::empty());
        assert(s.skip(0) =~= s);
    } else {
        let t = s.skip(1);
        lemma_val4_split(t, k - 1);
        assert(s.take(k).skip(1) =~= t.take(k - 1));
        assert(t.skip(k - 1) =~= s.skip(k));
        assert(s.take(k)[0] == s[0]);
        let p = pow(4, (k - 1) as nat);
        assert(pow(4, k as nat) == 4 * p);
        let a = val4(t.take(k - 1));
        let b = val4(s.skip(k));
        assert(4 * (a + p * b) == 4 * a + (4 * p) * b) by (nonlinear_arith);
    }
}

proof fn lemma_add_from(x: Seq<int>, y: Seq<int>, i: nat, n: nat, c: int)
    requires
        i <= n,
        c >= 0,
        forall|k: int| 0 <= k < x.len() ==> #[trigger] x[k] >= 0,
        forall|k: int| 0 <= k < y.len() ==> #[trigger] y[k] >= 0,
    ensures
        add_from(x, y, i, n, c).len() == n - i,
        forall|k: int| 0 <= k < n - i - 1 ==> 0 <= #[trigger] add_from(x, y, i, n, c)[k] < 4,
        i < n ==> val4(add_from(x, y, i, n, c)) == val4(Seq::new((n - i) as nat, |k: int| at(x, i + k))) + val4(
            Seq::new((n - i) as nat, |k: int| at(y, i + k)),
        ) + c,
    decreases n - i,
{
    if i < n {
        let sm = at(x, i as int) + at(y, i as int) + c;
        assert(sm >= 0);
        let xs = Seq::new((n - i) as nat, |k: int| at(x, i + k));
        let ys = Seq::new((n - i) as nat, |k: int| at(y, i + k));
        let r = add_from(x, y, i, n, c);
        assert(xs[0] == at(x, i as int) && ys[0] == at(y, i as int));
        assert(val4(xs) == xs[0] + 4 * val4(xs.skip(1)));
        assert(val4(ys) == ys[0] + 4 * val4(ys.skip(1)));
        assert(val4(r) == r[0] + 4 * val4(r.skip(1)));
        if i + 1 == n {
            assert(r[0] == sm);
            assert(xs.skip(1) =~= Seq::<int>::empty());
            assert(ys.skip(1) =~= Seq::<int>::empty());
            assert(r.skip(1) =~= Seq::<int>::empty());
        } else {
            lemma_add_from(x, y, i + 1, n, sm / 4);
            let rest = add_from(x, y, i + 1, n, sm / 4);
            assert(r == seq![sm % 4] + rest);
            assert(r.skip(1) =~= rest);
            assert(r[0] == sm % 4);
            assert(xs.skip(1) =~= Seq::new((n - (i + 1)) as nat, |k: int| at(x, i + 1 + k)));
            assert(ys.skip(1) =~= Seq::new((n - (i + 1)) as nat, |k: int| at(y, i + 1 + k)));
            assert(sm % 4 + 4 * (sm / 4) == sm);
            assert forall|k: int| 0 <= k < n - i - 1 implies 0 <= #[trigger] r[k] < 4 by {
                if k > 0 {
                    assert(r[k] == rest[k - 1]);
                }
            }
        }
    }
}

/// Digits that add up pairwise to three are worth `4^m - 1` together.
proof fn lemma_complement(e: Seq<int>, z: Seq<int>)
    requires
        e.len() == z.len(),
        forall|i: int| 0 <= i < e.len() ==> #[trigger] e[i] + z[i] == 3,
    ensures
        val4(e) + val4(z) == pow(4, e.len()) - 1,
    decreases e.len(),
{
    reveal(pow);
    if e.len() > 0 {
        assert forall|i: int| 0 <= i < e.skip(1).len() implies #[trigger] e.skip(1)[i] + z.skip(1)[i] == 3 by {
            assert(e.skip(1)[i] == e[i + 1] && z.skip(1)[i] == z[i + 1]);
        }
        lemma_complement(e.skip(1), z.skip(1));
        assert(e[0] + z[0] == 3);
    }
}

/// The extended opposite of `x` for `nb` blocks is worth `4^(nb + 1)` minus the
/// value of the blocks of `x` below `nb`.
proof fn lemma_ext_value(x: Seq<int>, nb: nat)
    requires
        digits2(x),
        x.len() >= 1,
        nb >= 1,
    ensures
        val4(ext_mdiv(opposite(x), nb, 3)) == pow(4, nb + 1) - val4(x.take(if nb < x.len() { nb as int } else { x.len() as int })),
{
    reveal(pow);
    let k = if nb < x.len() { nb as int } else { x.len() as int };
    let e = ext_mdiv(opposite(x), nb, 3);
    let z = Seq::new(nb + 1, |i: int| if i < k { x[i] } else { 0 });
    let e1 = e.skip(1);
    let z1 = z.skip(1);
    assert forall|i: int| 0 <= i < e1.len() implies #[trigger] e1[i] + z1[i] == 3 by {
        assert(e1[i] == e[i + 1] && z1[i] == z[i + 1]);
    }
    lemma_complement(e1, z1);
    assert(opposite(x)[0] == 4 - x[0]);
    assert(e[0] == 4 - x[0]);
    assert(z[0] == x[0]);
    assert(val4(e) == e[0] + 4 * val4(e1));
    assert(val4(z) == z[0] + 4 * val4(z1));
    assert(val4(e) + val4(z) == pow(4, nb + 1));
    lemma_val4_split(z, k);
    assert(z.take(k) =~= x.take(k));
    let zs = z.skip(k);
    assert(val4(zs) == 0) by {
        lemma_val4_zero(zs);
    }
}

proof fn lemma_val4_zero(s: Seq<int>)
    requires
        forall|i: int| 0 <= i < s.len() ==> #[trigger] s[i] == 0,
    ensures
        val4(s) == 0,
    decreases s.len(),
{
    if s.len() > 0 {
        assert forall|i: int| 0 <= i < s.skip(1).len() implies #[trigger] s.skip(1)[i] == 0 by {
            assert(s.skip(1)[i] == s[i + 1]);
        }
        lemma_val4_zero(s.skip(1));
    }
}

proof fn lemma_pow4_mono(a: nat, b: nat)
    requires
        a <= b,
    ensures
        pow(4, a) <= pow(4, b),
{
    vstd::arithmetic::power::lemma_pow_adds(4, a, (b - a) as nat);
    vstd::arithmetic::power::lemma_pow_positive(4, a);
    vstd::arithmetic::power::lemma_pow_positive(4, (b - a) as nat);
    let p = pow(4, a);
    let q = pow(4, (b - a) as nat);
    assert(p <= p * q) by (nonlinear_arith)
        requires
            p > 0,
            q >= 1,
    ;
}

/// On clear digits the flag of the comparison with multiple `xi` of a divisor of
/// value `d` is set (2) exactly when the remainder is less than that multiple.
pub proof fn lemma_is_lt_clear(init: DivInit<int>, rem: Seq<int>, xi: int, d: int)
    requires
        divisor_data(init, d),
        digits2(rem),
        rem.len() >= 1,
        0 <= xi < 3,
    ensures
        ({
            let nb = rem.len();
            let diff = (clear_div_ops().adder)(rem, ext_mdiv(init.mdiv[xi], nb, 3));
            &&& diff.len() == nb + 1
            &&& is_lt(init, diff, xi, nb, clear_div_ops()) == if val4(rem) < (xi + 1) * d { 2int } else { 0int }
            &&& val4(rem) >= (xi + 1) * d ==> digits2(diff.take(nb as int)) && val4(diff.take(nb as int)) == val4(rem)
                - (xi + 1) * d
        }),
{
    reveal(pow);
    let o = clear_div_ops();
    let nb = rem.len();
    let x = init.div_x[xi];
    assert(digits2(x) && x.len() >= 1 && val4(x) == (xi + 1) * d);
    assert(init.not_null[xi] == zero_flags(x));
    assert(init.mdiv[xi] == opposite(x));
    let ln = x.len();
    let k = if nb < ln { nb as int } else { ln as int };
    let ext = ext_mdiv(opposite(x), nb, 3);
    lemma_ext_value(x, nb);
    assert forall|q: int| 0 <= q < ext.len() implies #[trigger] ext[q] >= 0 by {
        if q < nb && q < ln + 1 {
            if q < ln && q > 0 {
                assert(0 <= x[q] < 4);
            } else if q == 0 {
                assert(0 <= x[0] < 4);
            }
        }
    }
    assert forall|q: int| 0 <= q < rem.len() implies #[trigger] rem[q] >= 0 by {
        assert(0 <= rem[q] < 4);
    }
    let diff = add_from(rem, ext, 0, nb + 1, 0);
    assert(diff == (o.adder)(rem, ext));
    lemma_add_from(rem, ext, 0, nb + 1, 0);
    let remp = Seq::new(nb + 1, |q: int| at(rem, 0 + q));
    let extp = Seq::new(nb + 1, |q: int| at(ext, 0 + q));
    assert(extp =~= ext);
    lemma_val4_split(remp, nb as int);
    assert(remp.take(nb as int) =~= rem);
    assert(remp.skip(nb as int) =~= seq![0int]);
    assert(val4(seq![0int]) == 0) by {
        assert(seq![0int].skip(1) =~= Seq::<int>::empty());
        assert(val4(Seq::<int>::empty()) == 0);
        assert(val4(seq![0int]) == seq![0int][0] + 4 * val4(seq![0int].skip(1)));
    }
    let p = pow(4, nb);
    let v = val4(rem);
    lemma_val4_bound(rem);
    let xl = val4(x.take(k));
    assert(digits2(x.take(k))) by {
        assert forall|q: int| 0 <= q < x.take(k).len() implies 0 <= #[trigger] x.take(k)[q] < 4 by {
            assert(x.take(k)[q] == x[q]);
        }
    }
    lemma_val4_bound(x.take(k));
    lemma_pow4_mono(k as nat, nb);
    assert(pow(4, nb + 1) == 4 * p);
    // the low blocks and the top one
    lemma_val4_split(diff, nb as int);
    let low = diff.take(nb as int);
    assert(digits2(low)) by {
        assert forall|q: int| 0 <= q < low.len() implies 0 <= #[trigger] low[q] < 4 by {
            assert(low[q] == diff[q]);
        }
    }
    lemma_val4_bound(low);
    let t = diff[nb as int];
    assert(diff.skip(nb as int) =~= seq![t]);
    assert(val4(seq![t]) == t) by {
        assert(seq![t].skip(1) =~= Seq::<int>::empty());
        assert(val4(Seq::<int>::empty()) == 0);
        assert(val4(seq![t]) == seq![t][0] + 4 * val4(seq![t].skip(1)));
    }
    let lv = val4(low);
    assert(lv + p * t == v + 4 * p - xl);
    assert(t == 3 || t == 4) by (nonlinear_arith)
        requires
            lv + p * t == v + 4 * p - xl,
            0 <= lv < p,
            0 <= v < p,
            0 <= xl < p,
    ;
    assert((t == 4) == (v >= xl)) by (nonlinear_arith)
        requires
            lv + p * t == v + 4 * p - xl,
            0 <= lv < p,
            0 <= v < p,
            0 <= xl < p,
            t == 3 || t == 4,
    ;
    lemma_val4_split(x, k);
    if nb < ln {
        let hi = val4(x.skip(k));
        assert(digits2(x.skip(k))) by {
            assert forall|q: int| 0 <= q < x.skip(k).len() implies 0 <= #[trigger] x.skip(k)[q] < 4 by {
                assert(x.skip(k)[q] == x[q + k]);
            }
        }
        lemma_val4_bound(x.skip(k));
        assert(init.not_null[xi][nb as int] == if hi != 0 { 1int } else { 0int });
        if hi != 0 {
            vstd::arithmetic::power::lemma_pow_positive(4, nb);
            assert(pow(4, k as nat) == p);
            assert(val4(x) >= p) by (nonlinear_arith)
                requires
                    val4(x) == xl + p * hi,
                    hi >= 1,
                    xl >= 0,
                    p > 0,
            ;
        } else {
            assert(val4(x) == xl);
        }
    } else {
        assert(x.take(k) =~= x);
    }
}

/// On clear digits, one step of the divider on a remainder worth less than four
/// times the divisor `d` gives the quotient digit: the remainder divided by `d`.
pub proof fn lemma_step_quotient_digit(init: DivInit<int>, rem: Seq<int>, quot: Seq<int>, d: int)
    requires
        divisor_data(init, d),
        d > 0,
        digits2(rem),
        rem.len() >= 1,
        val4(rem) < 4 * d,
    ensures
        div_step(rem, quot, init, 3, clear_div_ops()).quot == quot.push(val4(rem) / d),
{
    let o = clear_div_ops();
    let nb = rem.len();
    lemma_is_lt_clear(init, rem, 0, d);
    lemma_is_lt_clear(init, rem, 1, d);
    lemma_is_lt_clear(init, rem, 2, d);
    lemma_val4_bound(rem);
    let v = val4(rem);
    let q = v / d;
    let r = v % d;
    vstd::arithmetic::div_mod::lemma_fundamental_div_mod(v, d);
    assert(0 <= r < d);
    assert(v == d * q + r);
    assert(0 <= q <= 3) by (nonlinear_arith)
        requires
            v == d * q + r,
            0 <= r < d,
            0 <= v < 4 * d,
    ;
    assert((v < d) == (q <= 0)) by (nonlinear_arith)
        requires
            v == d * q + r,
            0 <= r < d,
    ;
    assert((v < 2 * d) == (q <= 1)) by (nonlinear_arith)
        requires
            v == d * q + r,
            0 <= r < d,
    ;
    assert((v < 3 * d) == (q <= 2)) by (nonlinear_arith)
        requires
            v == d * q + r,
            0 <= r < d,
    ;
    let st = div_step(rem, quot, init, 3, o);
    assert(st.quot == quot.push(q));
}

/// On clear digits, one step of the divider on a remainder worth less than four
/// times the divisor `d` leaves as the new remainder the digits of that remainder
/// minus the quotient digit times `d`.
#[verifier::rlimit(80)]
pub proof fn lemma_step_remainder(init: DivInit<int>, rem: Seq<int>, quot: Seq<int>, d: int)
    requires
        divisor_data(init, d),
        d > 0,
        digits2(rem),
        rem.len() >= 1,
        val4(rem) < 4 * d,
    ensures
        ({
            let st = div_step(rem, quot, init, 3, clear_div_ops());
            &&& st.remain.len() == rem.len()
            &&& digits2(st.remain)
            &&& val4(st.remain) == val4(rem) - (val4(rem) / d) * d
        }),
{
    let o = clear_div_ops();
    let nb = rem.len();
    lemma_step_quotient_digit(init, rem, quot, d);
    lemma_is_lt_clear(init, rem, 0, d);
    lemma_is_lt_clear(init, rem, 1, d);
    lemma_is_lt_clear(init, rem, 2, d);
    lemma_val4_bound(rem);
    let v = val4(rem);
    let q = v / d;
    let r = v % d;
    vstd::arithmetic::div_mod::lemma_fundamental_div_mod(v, d);
    assert(0 <= q <= 3) by (nonlinear_arith)
        requires
            v == d * q + r,
            0 <= r < d,
            0 <= v < 4 * d,
    ;
    assert((v < d) == (q <= 0)) by (nonlinear_arith)
        requires
            v == d * q + r,
            0 <= r < d,
    ;
    assert((v < 2 * d) == (q <= 1)) by (nonlinear_arith)
        requires
            v == d * q + r,
            0 <= r < d,
    ;
    assert((v < 3 * d) == (q <= 2)) by (nonlinear_arith)
        requires
            v == d * q + r,
            0 <= r < d,
    ;
    let d1 = (o.adder)(rem, ext_mdiv(init.mdiv[0], nb, 3));
    let d2 = (o.adder)(rem, ext_mdiv(init.mdiv[1], nb, 3));
    let d3 = (o.adder)(rem, ext_mdiv(init.mdiv[2], nb, 3));
    let sel = if q == 0 { rem } else if q == 1 { d1.take(nb as int) } else if q == 2 { d2.take(nb as int) } else { d3.take(
        nb as int,
    ) };
    assert(digits2(sel) && sel.len() == nb && val4(sel) == v - q * d);
    let st = div_step(rem, quot, init, 3, o);
    assert forall|i: int| 0 <= i < nb implies #[trigger] st.remain[i] == sel[i] by {
        assert(0 <= sel[i] < 4);
        if q >= 1 {
            assert(sel[i] == (if q == 1 { d1 } else if q == 2 { d2 } else { d3 })[i]);
        }
    }
    assert(st.remain =~= sel);
}

/// The value of the top `t` blocks of `num`.
pub open spec fn top_value(num: Seq<int>, t: nat) -> int {
    val4(num.skip(num.len() - t))
}

#[verifier::rlimit(80)]
proof fn lemma_div_state(num: Seq<int>, init: DivInit<int>, d: int, t: nat)
    requires
        divisor_data(init, d),
        d > 0,
        digits2(num),
        t <= num.len(),
    ensures
        ({
            let st = div_state(num, init, 3, clear_div_ops(), t);
            &&& st.remain.len() == t
            &&& digits2(st.remain)
            &&& val4(st.remain) == top_value(num, t) % d
            &&& st.quot.len() == t
            &&& digits2(st.quot)
            &&& val4(st.quot.reverse()) == top_value(num, t) / d
        }),
    decreases t,
{
    let o = clear_div_ops();
    let n = num.len();
    if t == 0 {
        assert(num.skip(n as int) =~= Seq::<int>::empty());
        assert(Seq::<int>::empty().reverse() =~= Seq::<int>::empty());
    } else {
        let tt = (t - 1) as nat;
        lemma_div_state(num, init, d, tt);
        let prev = div_state(num, init, 3, o, tt);
        let dg = num[n - t];
        assert(0 <= dg < 4);
        let rem = seq![dg] + prev.remain;
        let rv = val4(prev.remain);
        assert(rem.skip(1) =~= prev.remain);
        assert(val4(rem) == dg + 4 * rv);
        assert(digits2(rem)) by {
            assert forall|i: int| 0 <= i < rem.len() implies 0 <= #[trigger] rem[i] < 4 by {
                if i > 0 {
                    assert(rem[i] == prev.remain[i - 1]);
                }
            }
        }
        let nt = top_value(num, tt);
        let nt1 = top_value(num, t);
        assert(num.skip(n - t).skip(1) =~= num.skip(n - tt));
        assert(nt1 == dg + 4 * nt);
        let q0 = nt / d;
        vstd::arithmetic::div_mod::lemma_fundamental_div_mod(nt, d);
        assert(0 <= rv < d);
        assert(val4(rem) < 4 * d);
        lemma_step_quotient_digit(init, rem, prev.quot, d);
        lemma_step_remainder(init, rem, prev.quot, d);
        let v = val4(rem);
        let qd = v / d;
        vstd::arithmetic::div_mod::lemma_fundamental_div_mod(v, d);
        assert(0 <= v % d < d);
        let st = div_state(num, init, 3, o, t);
        assert(st.quot == prev.quot.push(qd));
        assert(0 <= qd <= 3) by (nonlinear_arith)
            requires
                v == d * qd + v % d,
                0 <= v % d < d,
                0 <= v < 4 * d,
        ;
        // the quotient digits, least significant first
        assert(st.quot.reverse() =~= seq![qd] + prev.quot.reverse());
        assert((seq![qd] + prev.quot.reverse()).skip(1) =~= prev.quot.reverse());
        assert(val4(st.quot.reverse()) == qd + 4 * q0);
        assert(digits2(st.quot)) by {
            assert forall|i: int| 0 <= i < st.quot.len() implies 0 <= #[trigger] st.quot[i] < 4 by {
                if i < prev.quot.len() {
                    assert(st.quot[i] == prev.quot[i]);
                }
            }
        }
        // num's top t blocks: d * (4 * q0 + qd) + (v - qd * d)
        let newr = v - qd * d;
        assert(nt1 == d * (4 * q0 + qd) + newr) by (nonlinear_arith)
            requires
                nt1 == dg + 4 * nt,
                nt == d * q0 + rv,
                v == dg + 4 * rv,
                newr == v - qd * d,
        ;
        let vr = v % d;
        assert(newr == vr) by (nonlinear_arith)
            requires
                v == d * qd + vr,
                newr == v - qd * d,
        ;
        assert(nt1 == (4 * q0 + qd) * d + newr) by (nonlinear_arith)
            requires
                nt1 == d * (4 * q0 + qd) + newr,
        ;
        vstd::arithmetic::div_mod::lemma_fundamental_div_mod_converse(nt1, d, 4 * q0 + qd, newr);
    }
}

/// On clear digits with a divisor of value `d` that is not zero, the divider
/// gives a quotient `q` and a remainder `r` with `num = q * d + r` and
/// `0 <= r < d`, both as digits, as many as the numerator has.
pub proof fn lemma_division(num: Seq<int>, init: DivInit<int>, d: int)
    requires
        divisor_data(init, d),
        d > 0,
        digits2(num),
    ensures
        ({
            let (q, r) = div_spec(num, init, 3, clear_div_ops());
            &&& q.len() == num.len()
            &&& r.len() == num.len()
            &&& digits2(q)
            &&& digits2(r)
            &&& val4(num) == val4(q) * d + val4(r)
            &&& 0 <= val4(r) < d
        }),
{
    let o = clear_div_ops();
    let n = num.len();
    lemma_div_state(num, init, d, n);
    let st = div_state(num, init, 3, o, n);
    assert(num.skip(0) =~= num);
    let qr = st.quot.reverse();
    let (q, r) = div_spec(num, init, 3, o);
    assert(init.keep == 1);
    assert forall|i: int| 0 <= i < qr.len() implies #[trigger] q[i] == qr[i] by {
        assert(qr[i] == st.quot[qr.len() - 1 - i]);
        assert(0 <= qr[i] < 4);
    }
    assert(q =~= qr);
    assert(digits2(q)) by {
        assert forall|i: int| 0 <= i < q.len() implies 0 <= #[trigger] q[i] < 4 by {
            assert(qr[i] == st.quot[qr.len() - 1 - i]);
        }
    }
    vstd::arithmetic::div_mod::lemma_fundamental_div_mod(val4(num), d);
    assert(val4(num) == d * val4(q) + val4(r));
    assert(d * val4(q) == val4(q) * d) by (nonlinear_arith);
}

/// The opposite multiple `mdiv`, cut or extended with `sign` to `nb` blocks, then
/// one sign block more.
fn ext_mdiv_exec<B: Copy>(mdiv: &Vec<B>, nb: usize, sign: B) -> (r: Vec<B>)
    requires
        nb < usize::MAX,
    ensures
        r@ == ext_mdiv(mdiv@, nb as nat, sign),
{
    let mut out: Vec<B> = Vec::new();
    let mut i: usize = 0;
    while i <= nb
        invariant
            i <= nb + 1,
            nb < usize::MAX,
            out@.len() == i,
            forall|k: int| 0 <= k < i ==> #[trigger] out@[k] == ext_mdiv(mdiv@, nb as nat, sign)[k],
        decreases nb + 1 - i,
    {
        if i < nb && i < mdiv.len() {
            out.push(mdiv[i]);
        } else {
            out.push(sign);
        }
        i = i + 1;
    }
    proof {
        assert(out@ =~= ext_mdiv(mdiv@, nb as nat, sign));
    }
    out
}

/// The flag telling whether the remainder is less than multiple `xi`.
fn is_lt_exec<
    B: Copy,
    FA: Fn(B, B) -> B,
    FS: Fn(B, B) -> B,
    FL: Fn(B, DivLut) -> B,
    FP: Fn(B, B, DivLut) -> B,
    FD: Fn(Vec<B>, Vec<B>) -> Vec<B>,
>(
    div_x: &Vec<Vec<B>>,
    not_null: &Vec<Vec<B>>,
    diff: &Vec<B>,
    xi: usize,
    nb: usize,
    ops: &DivCalls<FA, FS, FL, FP, FD>,
    Ghost(init): Ghost<DivInit<B>>,
) -> (r: B)
    requires
        div_total::<B, FA, FS, FL, FP, FD>(ops),
        div_init_ok(init),
        init.div_x == col_views(div_x@),
        init.not_null == col_views(not_null@),
        xi < 3,
        diff@.len() > nb,
    ensures
        forall|o: DivOps<B>| #[trigger] div_implements::<B, FA, FS, FL, FP, FD>(ops, o) ==> r == is_lt(
            init,
            diff@,
            xi as int,
            nb as nat,
            o,
        ),
{
    assert(init.div_x[xi as int] == div_x@[xi as int]@);
    assert(init.not_null[xi as int] == not_null@[xi as int]@);
    if nb < div_x[xi].len() {
        let s = (ops.sub)(diff[nb], not_null[xi][nb]);
        (ops.lut)(s, DivLut::MsgNotNullPos1)
    } else {
        (ops.lut)(diff[nb], DivLut::MsgNotNullPos1)
    }
}

/// The core of the divider on the numerator `num`, with the precomputed data of
/// the divisor: `keep` (whether it is not zero), its multiples `div_x`, their
/// zero flags `not_null` and their opposites `mdiv`; `sign` is the sign block.
/// Returns the quotient (zero where the divisor is) and the remainder, as many
/// blocks as the numerator each.
pub fn div_core_plan<
    B: Copy,
    FA: Fn(B, B) -> B,
    FS: Fn(B, B) -> B,
    FL: Fn(B, DivLut) -> B,
    FP: Fn(B, B, DivLut) -> B,
    FD: Fn(Vec<B>, Vec<B>) -> Vec<B>,
>(
    num: &[B],
    keep: B,
    div_x: &Vec<Vec<B>>,
    not_null: &Vec<Vec<B>>,
    mdiv: &Vec<Vec<B>>,
    sign: B,
    ops: &DivCalls<FA, FS, FL, FP, FD>,
) -> (r: (Vec<B>, Vec<B>))
    requires
        div_total::<B, FA, FS, FL, FP, FD>(ops),
        div_init_ok(DivInit { keep, div_x: col_views(div_x@), not_null: col_views(not_null@), mdiv: col_views(mdiv@) }),
        num@.len() < usize::MAX,
    ensures
        r.0@.len() == num@.len(),
        r.1@.len() == num@.len(),
        forall|o: DivOps<B>| #[trigger] div_implements::<B, FA, FS, FL, FP, FD>(ops, o) ==> (r.0@, r.1@) == div_spec(
            num@,
            DivInit { keep, div_x: col_views(div_x@), not_null: col_views(not_null@), mdiv: col_views(mdiv@) },
            sign,
            o,
        ),
{
    let ghost init = DivInit { keep, div_x: col_views(div_x@), not_null: col_views(not_null@), mdiv: col_views(mdiv@) };
    let n = num.len();
    let mut remain: Vec<B> = Vec::new();
    let mut quot: Vec<B> = Vec::new();
    let mut t: usize = 0;
    while t < n
        invariant
            n == num@.len(),
            n < usize::MAX,
            t <= n,
            remain@.len() == t,
            quot@.len() == t,
            init == (DivInit { keep, div_x: col_views(div_x@), not_null: col_views(not_null@), mdiv: col_views(mdiv@) }),
            div_total::<B, FA, FS, FL, FP, FD>(ops),
            div_init_ok(init),
            forall|o: DivOps<B>| #[trigger] div_implements::<B, FA, FS, FL, FP, FD>(ops, o) ==> remain@ == div_state(
                num@,
                init,
                sign,
                o,
                t as nat,
            ).remain && quot@ == div_state(num@, init, sign, o, t as nat).quot,
        decreases n - t,
    {
        let nb = t + 1;
        let ghost old_remain = remain@;
        let ghost old_quot = quot@;
        let mut rem: Vec<B> = Vec::new();
        rem.push(num[n - 1 - t]);
        let mut rest = copy_vec(&remain);
        rem.append(&mut rest);
        assert(rem@ =~= seq![num@[n - 1 - t]] + old_remain);
        assert(init.mdiv[0] == mdiv@[0]@ && init.mdiv[1] == mdiv@[1]@ && init.mdiv[2] == mdiv@[2]@);
        let e1 = ext_mdiv_exec(&mdiv[0], nb, sign);
        let e2 = ext_mdiv_exec(&mdiv[1], nb, sign);
        let e3 = ext_mdiv_exec(&mdiv[2], nb, sign);
        let d1 = (ops.adder)(copy_vec(&rem), e1);
        let d2 = (ops.adder)(copy_vec(&rem), e2);
        let d3 = (ops.adder)(copy_vec(&rem), e3);
        let l0 = is_lt_exec(div_x, not_null, &d1, 0, nb, ops, Ghost(init));
        let l1 = is_lt_exec(div_x, not_null, &d2, 1, nb, ops, Ghost(init));
        let l2 = is_lt_exec(div_x, not_null, &d3, 2, nb, ops, Ghost(init));
        let q0 = l0;
        let q1 = (ops.pack_lut)(l0, l1, DivLut::BwXor);
        let q2 = (ops.pack_lut)(l1, l2, DivLut::BwXor);
        let q3 = (ops.lut)(l2, DivLut::IsNullPos1);
        let mut next: Vec<B> = Vec::new();
        let mut i: usize = 0;
        while i < nb
            invariant
                i <= nb,
                rem@.len() == nb,
                d1@.len() == nb + 1,
                d2@.len() == nb + 1,
                d3@.len() == nb + 1,
                next@.len() == i,
                div_total::<B, FA, FS, FL, FP, FD>(ops),
                forall|o: DivOps<B>| #[trigger] div_implements::<B, FA, FS, FL, FP, FD>(ops, o) ==> forall|k: int|
                    0 <= k < i ==> #[trigger] next@[k] == (o.lut)(
                        (o.add)(
                            (o.add)(
                                (o.pack_lut)(q0, rem@[k], DivLut::IfPos1FalseZeroed),
                                (o.pack_lut)(q1, d1@[k], DivLut::IfPos1FalseZeroed),
                            ),
                            (o.add)(
                                (o.pack_lut)(q2, d2@[k], DivLut::IfPos1FalseZeroed),
                                (o.pack_lut)(q3, d3@[k], DivLut::IfPos1FalseZeroed),
                            ),
                        ),
                        DivLut::Refresh,
                    ),
            decreases nb - i,
        {
            let t0 = (ops.pack_lut)(q0, rem[i], DivLut::IfPos1FalseZeroed);
            let t1 = (ops.pack_lut)(q1, d1[i], DivLut::IfPos1FalseZeroed);
            let t2 = (ops.pack_lut)(q2, d2[i], DivLut::IfPos1FalseZeroed);
            let t3 = (ops.pack_lut)(q3, d3[i], DivLut::IfPos1FalseZeroed);
            let s01 = (ops.add)(t0, t1);
            let s23 = (ops.add)(t2, t3);
            let s = (ops.add)(s01, s23);
            let v = (ops.lut)(s, DivLut::Refresh);
            next.push(v);
            i = i + 1;
        }
        let s12 = (ops.add)(l1, l2);
        let s012 = (ops.add)(l0, s12);
        let qd = (ops.lut)(s012, DivLut::SolveQuotientPos1);
        quot.push(qd);
        proof {
            assert forall|o: DivOps<B>| #[trigger] div_implements::<B, FA, FS, FL, FP, FD>(ops, o) implies next@
                == div_state(num@, init, sign, o, (t + 1) as nat).remain && quot@ == div_state(
                num@,
                init,
                sign,
                o,
                (t + 1) as nat,
            ).quot by {
                let prev = div_state(num@, init, sign, o, t as nat);
                assert(num@.len() - (t + 1) == n - 1 - t);
                assert(rem@ == seq![num@[num@.len() - (t + 1)]] + prev.remain);
                let st = div_step(rem@, prev.quot, init, sign, o);
                assert(next@ =~= st.remain);
                assert(quot@ =~= st.quot);
            }
        }
        remain = next;
        t = t + 1;
    }
    let mut q: Vec<B> = Vec::new();
    let mut j: usize = 0;
    while j < n
        invariant
            j <= n,
            quot@.len() == n,
            q@.len() == j,
            div_total::<B, FA, FS, FL, FP, FD>(ops),
            forall|o: DivOps<B>| #[trigger] div_implements::<B, FA, FS, FL, FP, FD>(ops, o) ==> forall|k: int|
                0 <= k < j ==> #[trigger] q@[k] == (o.pack_lut)(keep, quot@.reverse()[k], DivLut::IfFalseZeroed),
        decreases n - j,
    {
        let v = (ops.pack_lut)(keep, quot[n - 1 - j], DivLut::IfFalseZeroed);
        q.push(v);
        j = j + 1;
    }
    proof {
        assert forall|o: DivOps<B>| #[trigger] div_implements::<B, FA, FS, FL, FP, FD>(ops, o) implies (q@, remain@)
            == div_spec(num@, init, sign, o) by {
            let st = div_state(num@, init, sign, o, n as nat);
            let qr = st.quot.reverse();
            assert(q@ =~= Seq::new(qr.len(), |i: int| (o.pack_lut)(init.keep, qr[i], DivLut::IfFalseZeroed)));
        }
    }
    (q, remain)
}

} // verus!
