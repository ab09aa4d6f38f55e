//! The schoolbook multiplier of two encrypted integers: partial products of
//! every pair of blocks gathered by output column, the reduction of each column
//! with its carries forwarded to the next one, and the overflow flag of what lies
//! outside the columns computed. A product may be computed in links over windows
//! of columns, each handing its outgoing carries to the next. The block
//! operations of the circuit builder are handed in as closures.
use vstd::prelude::*;
use vstd::arithmetic::power::pow;

verus! {

/// The lookup tables of the multiplier.
#[derive(Clone, Copy, Debug, PartialEq, Eq)]
pub enum MulLut {
    /// Low digit of the product of a packed pair.
    MultCarryMsgLsb,
    /// High digit of the product of a packed pair.
    MultCarryMsgMsb,
    /// Whether the product of a packed pair is not zero.
    MultCarryMsgIsSome,
    /// The carry of a block, as a message.
    CarryInMsg,
    /// The message of a block.
    MsgOnly,
    /// Whether a block is not zero.
    IsSome,
}

/// What the block operations of the multiplier compute.
#[verifier::reject_recursive_types(B)]
pub struct MulOps<B> {
    pub add: spec_fn(B, B) -> B,
    pub pack: spec_fn(B, B) -> B,
    pub lut: spec_fn(B, MulLut) -> B,
}

/// The block operations that the multiplier calls: the sum of two blocks, the
/// packing of two blocks into one, and a table lookup.
pub struct MulCalls<FA, FP, FL> {
    pub add: FA,
    pub pack: FP,
    pub lut: FL,
}

/// Every block operation accepts every argument.
pub open spec fn mul_total<B, FA: Fn(B, B) -> B, FP: Fn(B, B) -> B, FL: Fn(B, MulLut) -> B>(
    ops: &MulCalls<FA, FP, FL>,
) -> bool {
    &&& forall|a: B, b: B| call_requires(ops.add, (a, b))
    &&& forall|a: B, b: B| call_requires(ops.pack, (a, b))
    &&& forall|a: B, l: MulLut| call_requires(ops.lut, (a, l))
}

/// The closures compute the functions of `o`.
pub open spec fn mul_implements<B, FA: Fn(B, B) -> B, FP: Fn(B, B) -> B, FL: Fn(B, MulLut) -> B>(
    ops: &MulCalls<FA, FP, FL>,
    o: MulOps<B>,
) -> bool {
    &&& forall|a: B, b: B, r: B| #[trigger] call_ensures(ops.add, (a, b), r) ==> r == (o.add)(a, b)
    &&& forall|a: B, b: B, r: B| #[trigger] call_ensures(ops.pack, (a, b), r) ==> r == (o.pack)(a, b)
    &&& forall|a: B, l: MulLut, r: B| #[trigger] call_ensures(ops.lut, (a, l), r) ==> r == (o.lut)(a, l)
}

/// The columns of partial products (`cut + 1` of them) and the overflow terms.
pub struct Expansion<B> {
    pub cols: Seq<Seq<B>>,
    pub ovf: Seq<B>,
}

/// The expansion after the pairs of rows before `i`, and of the first `j` blocks of
/// `b` in row `i`, with the blocks `cin` first in column `lo`. A pair whose column
/// lies in the window from `lo` to `hi` gives the low digit of its product to its
/// column and the high digit to the next one; any other pair gives an overflow
/// term.
pub open spec fn expand_pairs<B>(
    a: Seq<B>,
    b: Seq<B>,
    lo: nat,
    hi: nat,
    cin: Seq<B>,
    o: MulOps<B>,
    i: nat,
    j: nat,
) -> Expansion<B>
    decreases i, j,
{
    if j == 0 {
        if i == 0 {
            Expansion {
                cols: Seq::new(hi + 1, |k: int| if k == lo { cin } else { Seq::<B>::empty() }),
                ovf: Seq::empty(),
            }
        } else {
            expand_pairs(a, b, lo, hi, cin, o, (i - 1) as nat, b.len())
        }
    } else {
        let prev = expand_pairs(a, b, lo, hi, cin, o, i, (j - 1) as nat);
        let jj = (j - 1) as int;
        let p = (o.pack)(a[i as int], b[jj]);
        let k = i + jj;
        if lo <= k < hi {
            let c1 = prev.cols.update(k, prev.cols[k].push((o.lut)(p, MulLut::MultCarryMsgLsb)));
            Expansion {
                cols: c1.update(k + 1, c1[k + 1].push((o.lut)(p, MulLut::MultCarryMsgMsb))),
                ovf: prev.ovf,
            }
        } else {
            Expansion { cols: prev.cols, ovf: prev.ovf.push((o.lut)(p, MulLut::MultCarryMsgIsSome)) }
        }
    }
}

/// The reduction of a column from position `t` on: the accumulator `acc` holds
/// `nu_acc` terms, and `nxt` the carries extracted so far. Returns the clean digit
/// and the carries for the next column.
pub open spec fn reduce_from<B>(stage: Seq<B>, t: int, acc: B, nu_acc: nat, nxt: Seq<B>, nu: nat, o: MulOps<B>) -> (B, Seq<B>)
    decreases stage.len() - t,
{
    if t < 0 || t >= stage.len() {
        if nu_acc != 1 {
            ((o.lut)(acc, MulLut::MsgOnly), nxt.push((o.lut)(acc, MulLut::CarryInMsg)))
        } else {
            (acc, nxt)
        }
    } else {
        let a2 = (o.add)(stage[t], acc);
        if nu_acc + 1 == nu {
            reduce_from(stage, t + 1, (o.lut)(a2, MulLut::MsgOnly), 1, nxt.push((o.lut)(a2, MulLut::CarryInMsg)), nu, o)
        } else {
            reduce_from(stage, t + 1, a2, nu_acc + 1, nxt, nu, o)
        }
    }
}

/// The state of the reduction before column `k`: the columns still to reduce
/// (with the carries forwarded into them) and the digits produced.
pub struct Reduction<B> {
    pub cols: Seq<Seq<B>>,
    pub dst: Seq<B>,
}

/// The reduction of the columns from `lo` to `k`. An empty column gives no digit.
pub open spec fn reduce_columns<B>(cols0: Seq<Seq<B>>, nu: nat, o: MulOps<B>, lo: nat, k: nat) -> Reduction<B>
    decreases k,
{
    if k <= lo {
        Reduction { cols: cols0, dst: Seq::empty() }
    } else {
        let prev = reduce_columns(cols0, nu, o, lo, (k - 1) as nat);
        let kk = (k - 1) as int;
        let stage = prev.cols[kk];
        if stage.len() == 0 {
            prev
        } else {
            let (d, nxt) = reduce_from(stage, 1, stage[0], 1, Seq::empty(), nu, o);
            Reduction { cols: prev.cols.update(kk + 1, prev.cols[kk + 1] + nxt), dst: prev.dst.push(d) }
        }
    }
}

/// The sum of `s`, left to right.
pub open spec fn sum_left<B>(s: Seq<B>, o: MulOps<B>) -> B
    decreases s.len(),
{
    if s.len() <= 1 {
        s[0]
    } else {
        (o.add)(sum_left(s.drop_last(), o), s.last())
    }
}

/// The `IsSome` flags of the chunks of `w` terms of `s`.
pub open spec fn chunk_flags<B>(s: Seq<B>, w: nat, o: MulOps<B>) -> Seq<B>
    decreases s.len(),
{
    if s.len() == 0 || w == 0 {
        Seq::empty()
    } else if s.len() <= w {
        seq![(o.lut)(sum_left(s, o), MulLut::IsSome)]
    } else {
        seq![(o.lut)(sum_left(s.take(w as int), o), MulLut::IsSome)] + chunk_flags(s.skip(w as int), w, o)
    }
}

/// The flags merged by chunks of `w` until one is left.
pub open spec fn merge_flags<B>(s: Seq<B>, w: nat, o: MulOps<B>) -> B
    decreases s.len(),
{
    if s.len() <= 1 || w < 2 {
        s[0]
    } else {
        let next = chunk_flags(s, w, o);
        if next.len() < s.len() {
            merge_flags(next, w, o)
        } else {
            s[0]
        }
    }
}

/// One link of a chained product of the blocks `a` and `b`, over the columns from
/// `lo` to `hi`, with the carries `cin` entering column `lo`: the digits of those
/// columns, the overflow flag, and the carries leaving column `hi - 1`. Column
/// sums extract their carry after `nu` terms; flags are merged by `nu_bool`, and
/// the flag is `zero` when there is nothing to merge.
pub open spec fn mul_chain_spec<B>(
    a: Seq<B>,
    b: Seq<B>,
    lo: nat,
    hi: nat,
    cin: Seq<B>,
    nu: nat,
    nu_bool: nat,
    zero: B,
    o: MulOps<B>,
) -> (Seq<B>, B, Seq<B>) {
    let ex = expand_pairs(a, b, lo, hi, cin, o, a.len(), 0);
    let red = reduce_columns(ex.cols, nu, o, lo, hi);
    let cout = red.cols[hi as int];
    let ovf = ex.ovf + chunk_flags(cout, nu, o);
    (red.dst, if ovf.len() == 0 { zero } else { merge_flags(ovf, nu_bool, o) }, cout)
}

/// The digits below the cut-off and the overflow flag of the product of the blocks
/// `a` and `b`: the chain link over the columns before `cut`, with no carry in.
pub open spec fn mul_spec<B>(a: Seq<B>, b: Seq<B>, cut: nat, nu: nat, nu_bool: nat, zero: B, o: MulOps<B>) -> (Seq<B>, B) {
    let r = mul_chain_spec(a, b, 0, cut, Seq::empty(), nu, nu_bool, zero, o);
    (r.0, r.1)
}

/// The block operations on clear values: sums, a pair packed as `4 * x + y`, and
/// each table read as its name says on digits of two bits.
pub open spec fn clear_mul_ops() -> MulOps<int> {
    MulOps {
        add: |x: int, y: int| x + y,
        pack: |x: int, y: int| 4 * x + y,
        lut: |x: int, l: MulLut|
            match l {
                MulLut::MultCarryMsgLsb => ((x / 4) * (x % 4)) % 4,
                MulLut::MultCarryMsgMsb => ((x / 4) * (x % 4)) / 4,
                MulLut::MultCarryMsgIsSome => if (x / 4) * (x % 4) != 0 {
                    1
                } else {
                    0
                },
                MulLut::CarryInMsg => x / 4,
                MulLut::MsgOnly => x % 4,
                MulLut::IsSome => if x != 0 {
                    1
                } else {
                    0
                },
            },
    }
}

/// The sum of a sequence of clear values.
pub open spec fn total(s: Seq<int>) -> int
    decreases s.len(),
{
    if s.len() == 0 {
        0
    } else {
        total(s.drop_last()) + s.last()
    }
}

/// The sum of a sequence is its first item plus the sum of the rest.
pub proof fn lemma_total_front(s: Seq<int>)
    requires
        s.len() >= 1,
    ensures
        total(s) == s[0] + total(s.skip(1)),
    decreases s.len(),
{
    if s.len() > 1 {
        lemma_total_front(s.drop_last());
        assert(s.drop_last().skip(1) =~= s.skip(1).drop_last());
    } else {
        assert(s.drop_last() =~= Seq::<int>::empty());
        assert(s.skip(1) =~= Seq::<int>::empty());
    }
}

proof fn lemma_reduce_from_value(stage: Seq<int>, t: int, acc: int, nu_acc: nat, nxt: Seq<int>, nu: nat)
    requires
        1 <= t <= stage.len(),
        acc >= 0,
        nu_acc >= 1,
        forall|i: int| 0 <= i < stage.len() ==> stage[i] >= 0,
        forall|i: int| 0 <= i < nxt.len() ==> nxt[i] >= 0,
    ensures
        ({
            let (d, out) = reduce_from(stage, t, acc, nu_acc, nxt, nu, clear_mul_ops());
            &&& forall|i: int| 0 <= i < out.len() ==> out[i] >= 0
            &&& d + 4 * total(out) == acc + total(stage.skip(t)) + 4 * total(nxt)
            &&& 0 <= d
            &&& (t < stage.len() || nu_acc != 1 || acc < 4) ==> d < 4
        }),
    decreases stage.len() - t,
{
    let o = clear_mul_ops();
    if t >= stage.len() {
        assert(stage.skip(t) =~= Seq::<int>::empty());
        if nu_acc != 1 {
            let c = acc / 4;
            assert(nxt.push(c).drop_last() =~= nxt);
            assert(acc % 4 + 4 * (acc / 4) == acc);
        }
    } else {
        let a2 = stage[t] + acc;
        lemma_total_front(stage.skip(t));
        assert(stage.skip(t).skip(1) =~= stage.skip(t + 1));
        if nu_acc + 1 == nu {
            let c = a2 / 4;
            assert(nxt.push(c).drop_last() =~= nxt);
            assert(a2 % 4 + 4 * (a2 / 4) == a2);
            lemma_reduce_from_value(stage, t + 1, a2 % 4, 1, nxt.push(c), nu);
        } else {
            lemma_reduce_from_value(stage, t + 1, a2, nu_acc + 1, nxt, nu);
        }
    }
}

/// On clear values the reduction of a column keeps its value: the digit plus four
/// times the carries it forwards is the column's sum, and the digit is below four
/// unless the column is a single block of four or more.
pub proof fn lemma_column_reduction_keeps_value(stage: Seq<int>, nu: nat)
    requires
        stage.len() >= 1,
        forall|i: int| 0 <= i < stage.len() ==> stage[i] >= 0,
    ensures
        ({
            let (d, nxt) = reduce_from(stage, 1, stage[0], 1, Seq::empty(), nu, clear_mul_ops());
            &&& forall|i: int| 0 <= i < nxt.len() ==> nxt[i] >= 0
            &&& d + 4 * total(nxt) == total(stage)
            &&& 0 <= d
            &&& (stage.len() >= 2 || stage[0] < 4) ==> d < 4
        }),
{
    lemma_reduce_from_value(stage, 1, stage[0], 1, Seq::empty(), nu);
    lemma_total_front(stage);
    assert(total(Seq::<int>::empty()) == 0);
}

/// The sum of two sequences is the sum of their sums.
pub proof fn lemma_total_concat(s: Seq<int>, t: Seq<int>)
    ensures
        total(s + t) == total(s) + total(t),
    decreases t.len(),
{
    if t.len() == 0 {
        assert(s + t =~= s);
    } else {
        lemma_total_concat(s, t.drop_last());
        assert((s + t).drop_last() =~= s + t.drop_last());
    }
}

/// The value of the columns from `lo` to `hi`, column `k` weighing `4^k`.
pub open spec fn columns_value(cols: Seq<Seq<int>>, lo: nat, hi: nat) -> int
    decreases hi,
{
    if hi <= lo {
        0
    } else {
        columns_value(cols, lo, (hi - 1) as nat) + pow(4, (hi - 1) as nat) * total(cols[hi - 1])
    }
}

/// The value of digits whose first stands at column `lo`.
pub open spec fn digits_at(d: Seq<int>, lo: nat) -> int
    decreases d.len(),
{
    if d.len() == 0 {
        0
    } else {
        digits_at(d.drop_last(), lo) + pow(4, (lo + d.len() - 1) as nat) * d.last()
    }
}

/// On clear values the reduction of the columns from `lo` to `k`, none of them
/// empty, keeps their value: the digits, plus the carries gathered in column `k`
/// at its weight, make up the value of the columns up to `k`, and later columns are
/// left as they were.
pub proof fn lemma_reduction_keeps_value(cols0: Seq<Seq<int>>, nu: nat, lo: nat, k: nat)
    requires
        lo <= k < cols0.len(),
        forall|c: int, i: int| 0 <= c < cols0.len() && 0 <= i < cols0[c].len() ==> #[trigger] cols0[c][i] >= 0,
        forall|c: int| lo <= c < k ==> (#[trigger] cols0[c]).len() >= 1,
    ensures
        ({
            let red = reduce_columns(cols0, nu, clear_mul_ops(), lo, k);
            &&& red.dst.len() == k - lo
            &&& red.cols.len() == cols0.len()
            &&& forall|c: int, i: int| 0 <= c < red.cols.len() && 0 <= i < red.cols[c].len() ==> #[trigger] red.cols[c][i] >= 0
            &&& forall|c: int| k < c < cols0.len() ==> #[trigger] red.cols[c] == cols0[c]
            &&& red.cols[k as int].len() >= cols0[k as int].len()
            &&& digits_at(red.dst, lo) + pow(4, k) * total(red.cols[k as int]) == columns_value(cols0, lo, k + 1)
        }),
    decreases k,
{
    let o = clear_mul_ops();
    if k <= lo {
        assert(columns_value(cols0, lo, k) == 0);
    } else {
        let kk = (k - 1) as nat;
        lemma_reduction_keeps_value(cols0, nu, lo, kk);
        let prev = reduce_columns(cols0, nu, o, lo, kk);
        let stage = prev.cols[kk as int];
        assert(stage.len() >= 1);
        assert forall|i: int| 0 <= i < stage.len() implies stage[i] >= 0 by {
            assert(prev.cols[kk as int][i] >= 0);
        }
        lemma_column_reduction_keeps_value(stage, nu);
        let (d, nxt) = reduce_from(stage, 1, stage[0], 1, Seq::empty(), nu, o);
        let red = reduce_columns(cols0, nu, o, lo, k);
        assert(red.cols == prev.cols.update(k as int, prev.cols[k as int] + nxt));
        assert(red.dst == prev.dst.push(d));
        assert(prev.cols[k as int] == cols0[k as int]);
        lemma_total_concat(cols0[k as int], nxt);
        assert(red.dst.drop_last() =~= prev.dst);
        assert forall|c: int, i: int| 0 <= c < red.cols.len() && 0 <= i < red.cols[c].len() implies #[trigger] red.cols[c][i] >= 0 by {
            if c == k {
                if i >= cols0[c].len() {
                    assert(red.cols[c][i] == nxt[i - cols0[c].len()]);
                }
            }
        }
        let p = pow(4, kk);
        assert(pow(4, k) == 4 * p) by {
            reveal(pow);
        }
        let tn = total(nxt);
        let tc = total(cols0[k as int]);
        assert(p * d + 4 * p * (tc + tn) == p * (d + 4 * tn) + 4 * p * tc) by (nonlinear_arith);
        assert(digits_at(red.dst, lo) == digits_at(prev.dst, lo) + p * d);
    }
}

/// The value of the partial products whose column lies in the window from `lo` to
/// `hi`, over the pairs before `(i, j)` in the order of the expansion, the pair of
/// blocks `a[i]` and `b[j]` weighing `4^(i + j)`.
pub open spec fn window_value(a: Seq<int>, b: Seq<int>, lo: nat, hi: nat, i: nat, j: nat) -> int
    decreases i, j,
{
    if j == 0 {
        if i == 0 {
            0
        } else {
            window_value(a, b, lo, hi, (i - 1) as nat, b.len())
        }
    } else {
        let k = i + j - 1;
        let prev = window_value(a, b, lo, hi, i, (j - 1) as nat);
        if lo <= k < hi {
            prev + pow(4, k as nat) * (a[i as int] * b[j - 1])
        } else {
            prev
        }
    }
}

/// Every item is a digit of two bits.
pub open spec fn all_digits(s: Seq<int>) -> bool {
    forall|i: int| 0 <= i < s.len() ==> 0 <= #[trigger] s[i] < 4
}

proof fn lemma_columns_value_push(cols: Seq<Seq<int>>, lo: nat, n: nat, c: int, x: int)
    requires
        0 <= c < cols.len(),
        n <= cols.len(),
    ensures
        columns_value(cols.update(c, cols[c].push(x)), lo, n) == columns_value(cols, lo, n) + (if lo <= c < n {
            pow(4, c as nat) * x
        } else {
            0
        }),
    decreases n,
{
    if n > lo {
        lemma_columns_value_push(cols, lo, (n - 1) as nat, c, x);
        if c == n - 1 {
            assert(cols[c].push(x).drop_last() =~= cols[c]);
            assert(pow(4, c as nat) * (total(cols[c]) + x) == pow(4, c as nat) * total(cols[c]) + pow(4, c as nat) * x)
                by (nonlinear_arith);
        }
    }
}

/// On clear digits the expansion up to the pair `(i, j)` keeps the value of the
/// products in the window: the columns from `lo` to `hi` are worth those products
/// plus the carries in; every column of the window that a pair already reached is
/// not empty.
pub proof fn lemma_expansion_value(a: Seq<int>, b: Seq<int>, lo: nat, hi: nat, cin: Seq<int>, i: nat, j: nat)
    requires
        all_digits(a),
        all_digits(b),
        forall|x: int| 0 <= x < cin.len() ==> cin[x] >= 0,
        lo <= hi,
        i <= a.len(),
        j <= b.len(),
        j > 0 ==> i < a.len(),
    ensures
        ({
            let ex = expand_pairs(a, b, lo, hi, cin, clear_mul_ops(), i, j);
            &&& ex.cols.len() == hi + 1
            &&& forall|c: int, x: int| 0 <= c < ex.cols.len() && 0 <= x < ex.cols[c].len() ==> #[trigger] ex.cols[c][x] >= 0
            &&& all_nonneg(ex.ovf)
            &&& columns_value(ex.cols, lo, hi + 1) == window_value(a, b, lo, hi, i, j) + pow(4, lo) * total(cin)
            &&& forall|c: int| lo <= c < hi && ((i >= 1 && b.len() >= 1 && c <= i + b.len() - 2) || (i <= c < i + j)) ==> (
                #[trigger] ex.cols[c]).len() >= 1
        }),
    decreases i, j,
{
    let o = clear_mul_ops();
    let ex = expand_pairs(a, b, lo, hi, cin, o, i, j);
    if j == 0 {
        if i == 0 {
            let cols = ex.cols;
            assert forall|n: nat| n <= hi + 1 implies #[trigger] columns_value(cols, lo, n) == (if lo < n {
                pow(4, lo) * total(cin)
            } else {
                0
            }) by {
                lemma_init_columns_value(cols, lo, hi, cin, n);
            }
        } else {
            lemma_expansion_value(a, b, lo, hi, cin, (i - 1) as nat, b.len());
        }
    } else {
        let jj = (j - 1) as nat;
        lemma_expansion_value(a, b, lo, hi, cin, i, jj);
        let prev = expand_pairs(a, b, lo, hi, cin, o, i, jj);
        let k = (i + jj) as int;
        let x = a[i as int];
        let y = b[jj as int];
        let pk = 4 * x + y;
        assert(pk / 4 == x && pk % 4 == y) by (nonlinear_arith)
            requires
                pk == 4 * x + y,
                0 <= y < 4,
        ;
        let prod = x * y;
        assert(prod >= 0) by (nonlinear_arith)
            requires
                prod == x * y,
                x >= 0,
                y >= 0,
        ;
        if lo <= k < hi {
            let lsb = prod % 4;
            let msb = prod / 4;
            assert(lsb + 4 * msb == prod);
            let c1 = prev.cols.update(k, prev.cols[k].push(lsb));
            lemma_columns_value_push(prev.cols, lo, (hi + 1) as nat, k, lsb);
            lemma_columns_value_push(c1, lo, (hi + 1) as nat, k + 1, msb);
            assert(ex.cols == c1.update(k + 1, c1[k + 1].push(msb)));
            let p = pow(4, k as nat);
            assert(pow(4, (k + 1) as nat) == 4 * p) by {
                reveal(pow);
            }
            assert(p * lsb + 4 * p * msb == p * prod) by (nonlinear_arith)
                requires
                    lsb + 4 * msb == prod,
            ;
            assert(ex.ovf == prev.ovf);
            assert forall|c: int, z: int| 0 <= c < ex.cols.len() && 0 <= z < ex.cols[c].len() implies #[trigger] ex.cols[c][z] >= 0 by {
                if c == k && z < prev.cols[c].len() {
                    assert(ex.cols[c][z] == prev.cols[c][z]);
                } else if c == k + 1 && z < prev.cols[c].len() {
                    assert(ex.cols[c][z] == prev.cols[c][z]);
                } else if c != k && c != k + 1 {
                    assert(ex.cols[c][z] == prev.cols[c][z]);
                }
            }
        } else {
            let f = (o.lut)(pk, MulLut::MultCarryMsgIsSome);
            assert(ex.ovf == prev.ovf.push(f));
            assert forall|z: int| 0 <= z < ex.ovf.len() implies #[trigger] ex.ovf[z] >= 0 by {
                if z < prev.ovf.len() {
                    assert(ex.ovf[z] == prev.ovf[z]);
                }
            }
        }
    }
}

proof fn lemma_init_columns_value(cols: Seq<Seq<int>>, lo: nat, hi: nat, cin: Seq<int>, n: nat)
    requires
        cols.len() == hi + 1,
        cols[lo as int] == cin,
        forall|k: int| 0 <= k < cols.len() && k != lo ==> (#[trigger] cols[k]).len() == 0,
        lo <= hi,
        n <= hi + 1,
    ensures
        columns_value(cols, lo, n) == (if lo < n {
            pow(4, lo) * total(cin)
        } else {
            0
        }),
    decreases n,
{
    if n > lo {
        lemma_init_columns_value(cols, lo, hi, cin, (n - 1) as nat);
        if n - 1 != lo {
            assert(cols[n - 1] =~= Seq::<int>::empty());
            assert(total(cols[n - 1]) == 0);
        }
    }
}

/// On clear digits one link of the product keeps its value: its digits, plus the
/// carries leaving the window at their weight, make up the partial products of the
/// window plus the carries in. (The window ends where the products of the two
/// operands end, so that no column in it is empty.)
pub proof fn lemma_mul_chain_keeps_value(
    a: Seq<int>,
    b: Seq<int>,
    lo: nat,
    hi: nat,
    cin: Seq<int>,
    nu: nat,
    nu_bool: nat,
    zero: int,
)
    requires
        all_digits(a),
        all_digits(b),
        forall|x: int| 0 <= x < cin.len() ==> cin[x] >= 0,
        lo <= hi,
        a.len() >= 1,
        b.len() >= 1,
        hi + 1 <= a.len() + b.len(),
    ensures
        ({
            let r = mul_chain_spec(a, b, lo, hi, cin, nu, nu_bool, zero, clear_mul_ops());
            &&& r.0.len() == hi - lo
            &&& digits_at(r.0, lo) + pow(4, hi) * total(r.2) == window_value(a, b, lo, hi, a.len(), 0) + pow(4, lo)
                * total(cin)
        }),
{
    let o = clear_mul_ops();
    lemma_expansion_value(a, b, lo, hi, cin, a.len(), 0);
    let ex = expand_pairs(a, b, lo, hi, cin, o, a.len(), 0);
    assert forall|c: int| lo <= c < hi implies (#[trigger] ex.cols[c]).len() >= 1 by {
        assert(a.len() >= 1 && c <= a.len() + b.len() - 2);
    }
    lemma_reduction_keeps_value(ex.cols, nu, lo, hi);
}

/// The value of the partial products whose column lies at `hi` or past it, over the
/// pairs before `(i, j)`, in units of `4^hi`.
pub open spec fn outside_value(a: Seq<int>, b: Seq<int>, hi: nat, i: nat, j: nat) -> int
    decreases i, j,
{
    if j == 0 {
        if i == 0 {
            0
        } else {
            outside_value(a, b, hi, (i - 1) as nat, b.len())
        }
    } else {
        let k = i + j - 1;
        let prev = outside_value(a, b, hi, i, (j - 1) as nat);
        if k >= hi {
            prev + pow(4, (k - hi) as nat) * (a[i as int] * b[j - 1])
        } else {
            prev
        }
    }
}

proof fn lemma_pairs_value(a: Seq<int>, b: Seq<int>, hi: nat, i: nat, j: nat)
    requires
        i <= a.len(),
        j <= b.len(),
        j > 0 ==> i < a.len(),
    ensures
        window_value(a, b, 0, hi, i, j) + pow(4, hi) * outside_value(a, b, hi, i, j) == digits_at(a.take(i as int), 0)
            * digits_at(b, 0) + (if j > 0 {
            a[i as int] * pow(4, i) * digits_at(b.take(j as int), 0)
        } else {
            0
        }),
    decreases i, j,
{
    let vb = digits_at(b, 0);
    if j == 0 {
        if i == 0 {
            assert(a.take(0) =~= Seq::<int>::empty());
        } else {
            let ii = (i - 1) as nat;
            lemma_pairs_value(a, b, hi, ii, b.len());
            assert(b.take(b.len() as int) =~= b);
            assert(a.take(i as int).drop_last() =~= a.take(ii as int));
            let va = digits_at(a.take(ii as int), 0);
            let x = a[ii as int];
            let p = pow(4, ii);
            assert(digits_at(a.take(i as int), 0) == va + p * x);
            if b.len() > 0 {
                assert((va + p * x) * vb == va * vb + x * p * vb) by (nonlinear_arith);
            } else {
                assert(vb == 0);
                assert((va + p * x) * vb == va * vb) by (nonlinear_arith)
                    requires
                        vb == 0,
                ;
            }
        }
    } else {
        let jj = (j - 1) as nat;
        lemma_pairs_value(a, b, hi, i, jj);
        let k = (i + jj) as nat;
        let x = a[i as int];
        let y = b[jj as int];
        let pi = pow(4, i);
        let pj = pow(4, jj);
        vstd::arithmetic::power::lemma_pow_adds(4, i, jj);
        assert(pow(4, k) == pi * pj);
        assert(b.take(j as int).drop_last() =~= b.take(jj as int));
        let vj = digits_at(b.take(jj as int), 0);
        assert(digits_at(b.take(j as int), 0) == vj + pj * y);
        if jj == 0 {
            assert(b.take(0) =~= Seq::<int>::empty());
        }
        if k >= hi {
            let d = (k - hi) as nat;
            vstd::arithmetic::power::lemma_pow_adds(4, hi, d);
            let ph = pow(4, hi);
            let pd = pow(4, d);
            assert(pow(4, k) == ph * pd);
            assert(ph * (pd * (x * y)) == pi * pj * (x * y)) by (nonlinear_arith)
                requires
                    ph * pd == pi * pj,
            ;
            assert(x * pi * (vj + pj * y) == x * pi * vj + pi * pj * (x * y)) by (nonlinear_arith);
            let ov = outside_value(a, b, hi, i, jj);
            assert(ph * (ov + pd * (x * y)) == ph * ov + ph * (pd * (x * y))) by (nonlinear_arith);
        } else {
            assert(x * pi * (vj + pj * y) == x * pi * vj + pi * pj * (x * y)) by (nonlinear_arith);
            assert(pow(4, k) * (x * y) == pi * pj * (x * y)) by (nonlinear_arith)
                requires
                    pow(4, k) == pi * pj,
            ;
        }
    }
}

/// On clear digits the product cut off after `cut` blocks is the product of the
/// operands modulo `4^cut`: the digits, plus the carries past the cut-off and the
/// partial products beyond it at their weights, make up the product exactly.
/// (The cut-off lies within the width of the product, so that no column below it
/// is empty.)
pub proof fn lemma_mul_is_product(a: Seq<int>, b: Seq<int>, cut: nat, nu: nat, nu_bool: nat, zero: int)
    requires
        all_digits(a),
        all_digits(b),
        a.len() >= 1,
        b.len() >= 1,
        cut + 1 <= a.len() + b.len(),
    ensures
        ({
            let r = mul_spec(a, b, cut, nu, nu_bool, zero, clear_mul_ops());
            let full = mul_chain_spec(a, b, 0, cut, Seq::empty(), nu, nu_bool, zero, clear_mul_ops());
            &&& r.0.len() == cut
            &&& digits_at(r.0, 0) + pow(4, cut) * (total(full.2) + outside_value(a, b, cut, a.len(), 0)) == digits_at(a, 0)
                * digits_at(b, 0)
            &&& (digits_at(a, 0) * digits_at(b, 0) - digits_at(r.0, 0)) % pow(4, cut) == 0
        }),
{
    let o = clear_mul_ops();
    lemma_mul_chain_keeps_value(a, b, 0, cut, Seq::empty(), nu, nu_bool, zero);
    lemma_pairs_value(a, b, cut, a.len(), 0);
    assert(a.take(a.len() as int) =~= a);
    assert(total(Seq::<int>::empty()) == 0);
    let full = mul_chain_spec(a, b, 0, cut, Seq::empty(), nu, nu_bool, zero, o);
    let t = total(full.2);
    let ov = outside_value(a, b, cut, a.len(), 0);
    let q = t + ov;
    let pc = pow(4, cut);
    vstd::arithmetic::power::lemma_pow_positive(4, cut);
    assert(pc * t + pc * ov == pc * q) by (nonlinear_arith)
        requires
            q == t + ov,
    ;
    vstd::arithmetic::div_mod::lemma_mod_multiples_basic(q, pc);
    assert(q * pc == pc * q) by (nonlinear_arith);
}

/// Some item is not zero.
pub open spec fn any_nonzero(s: Seq<int>) -> bool {
    exists|i: int| 0 <= i < s.len() && #[trigger] s[i] != 0
}

/// No item is negative.
pub open spec fn all_nonneg(s: Seq<int>) -> bool {
    forall|i: int| 0 <= i < s.len() ==> #[trigger] s[i] >= 0
}

proof fn lemma_any_split(s: Seq<int>, k: int)
    requires
        0 <= k <= s.len(),
    ensures
        any_nonzero(s) == (any_nonzero(s.take(k)) || any_nonzero(s.skip(k))),
        all_nonneg(s) ==> all_nonneg(s.take(k)) && all_nonneg(s.skip(k)),
{
    if any_nonzero(s) {
        let i = choose|i: int| 0 <= i < s.len() && #[trigger] s[i] != 0;
        if i < k {
            assert(s.take(k)[i] == s[i]);
        } else {
            assert(s.skip(k)[i - k] == s[i]);
        }
    }
    if any_nonzero(s.take(k)) {
        let i = choose|i: int| 0 <= i < s.take(k).len() && #[trigger] s.take(k)[i] != 0;
        assert(s[i] == s.take(k)[i]);
    }
    if any_nonzero(s.skip(k)) {
        let i = choose|i: int| 0 <= i < s.skip(k).len() && #[trigger] s.skip(k)[i] != 0;
        assert(s[i + k] == s.skip(k)[i]);
    }
    if all_nonneg(s) {
        assert forall|i: int| 0 <= i < s.skip(k).len() implies #[trigger] s.skip(k)[i] >= 0 by {
            assert(s.skip(k)[i] == s[i + k]);
        }
    }
}

proof fn lemma_sum_left_nonzero(s: Seq<int>)
    requires
        s.len() >= 1,
        all_nonneg(s),
    ensures
        sum_left(s, clear_mul_ops()) >= 0,
        (sum_left(s, clear_mul_ops()) != 0) == any_nonzero(s),
    decreases s.len(),
{
    if s.len() > 1 {
        let d = s.drop_last();
        lemma_any_split(s, s.len() - 1);
        assert(s.take(s.len() - 1) =~= d);
        lemma_sum_left_nonzero(d);
        let t = s.skip(s.len() - 1);
        if any_nonzero(t) {
            let i = choose|i: int| 0 <= i < t.len() && #[trigger] t[i] != 0;
            assert(t[i] == s.last());
        }
        if s.last() != 0 {
            assert(t[0] == s.last());
        }
    } else {
        if s[0] != 0 {
            assert(any_nonzero(s));
        }
    }
}

proof fn lemma_chunk_flags_any(s: Seq<int>, w: nat)
    requires
        w >= 1,
        all_nonneg(s),
    ensures
        forall|i: int| 0 <= i < chunk_flags(s, w, clear_mul_ops()).len() ==> 0 <= #[trigger] chunk_flags(
            s,
            w,
            clear_mul_ops(),
        )[i] <= 1,
        any_nonzero(chunk_flags(s, w, clear_mul_ops())) == any_nonzero(s),
    decreases s.len(),
{
    let o = clear_mul_ops();
    let f = chunk_flags(s, w, o);
    if s.len() == 0 {
    } else if s.len() <= w {
        lemma_sum_left_nonzero(s);
        if any_nonzero(f) {
            let i = choose|i: int| 0 <= i < f.len() && #[trigger] f[i] != 0;
            assert(i == 0);
        }
        if any_nonzero(s) {
            assert(f[0] != 0);
        }
    } else {
        let h = s.take(w as int);
        let r = s.skip(w as int);
        lemma_any_split(s, w as int);
        lemma_sum_left_nonzero(h);
        lemma_chunk_flags_any(r, w);
        let head = seq![(o.lut)(sum_left(h, o), MulLut::IsSome)];
        let rest = chunk_flags(r, w, o);
        assert(f == head + rest);
        lemma_any_split(f, 1);
        assert(f.take(1) =~= head);
        assert(f.skip(1) =~= rest);
        if any_nonzero(head) {
            let i = choose|i: int| 0 <= i < head.len() && #[trigger] head[i] != 0;
            assert(i == 0);
        }
        if any_nonzero(h) {
            assert(head[0] != 0);
        }
        assert forall|i: int| 0 <= i < f.len() implies 0 <= #[trigger] f[i] <= 1 by {
            if i >= 1 {
                assert(f[i] == rest[i - 1]);
            }
        }
    }
}

/// On clear values the merged flag is set exactly when some flag is: merging by
/// chunks of at least two loses no set flag and invents none.
pub proof fn lemma_merge_flags_any(s: Seq<int>, w: nat)
    requires
        s.len() >= 1,
        w >= 2,
        all_nonneg(s),
    ensures
        (merge_flags(s, w, clear_mul_ops()) != 0) == any_nonzero(s),
    decreases s.len(),
{
    let o = clear_mul_ops();
    if s.len() <= 1 {
        if s[0] != 0 {
            assert(any_nonzero(s));
        }
    } else {
        let next = chunk_flags(s, w, o);
        lemma_chunk_flags_any(s, w);
        lemma_chunk_count_shorter(s.len(), w);
        lemma_chunk_flags_len(s, w);
        assert(all_nonneg(next));
        lemma_merge_flags_any(next, w);
    }
}

proof fn lemma_chunk_flags_len(s: Seq<int>, w: nat)
    ensures
        chunk_flags(s, w, clear_mul_ops()).len() == chunk_count(s.len(), w),
    decreases s.len(),
{
    if s.len() > w && w > 0 {
        lemma_chunk_flags_len(s.skip(w as int), w);
    }
}

/// On clear digits the overflow flag of a link (with a clear zero) is set exactly
/// when a partial product outside the window or a carry leaving it is not zero.
pub proof fn lemma_mul_chain_flag(
    a: Seq<int>,
    b: Seq<int>,
    lo: nat,
    hi: nat,
    cin: Seq<int>,
    nu: nat,
    nu_bool: nat,
)
    requires
        all_digits(a),
        all_digits(b),
        all_nonneg(cin),
        lo <= hi,
        a.len() >= 1,
        b.len() >= 1,
        hi + 1 <= a.len() + b.len(),
        nu >= 1,
        nu_bool >= 2,
    ensures
        ({
            let o = clear_mul_ops();
            let r = mul_chain_spec(a, b, lo, hi, cin, nu, nu_bool, 0, o);
            let ex = expand_pairs(a, b, lo, hi, cin, o, a.len(), 0);
            (r.1 != 0) == (any_nonzero(ex.ovf) || any_nonzero(r.2))
        }),
{
    let o = clear_mul_ops();
    lemma_expansion_value(a, b, lo, hi, cin, a.len(), 0);
    let ex = expand_pairs(a, b, lo, hi, cin, o, a.len(), 0);
    assert forall|c: int| lo <= c < hi implies (#[trigger] ex.cols[c]).len() >= 1 by {
        assert(a.len() >= 1 && c <= a.len() + b.len() - 2);
    }
    lemma_reduction_keeps_value(ex.cols, nu, lo, hi);
    let red = reduce_columns(ex.cols, nu, o, lo, hi);
    let cout = red.cols[hi as int];
    assert forall|i: int| 0 <= i < cout.len() implies #[trigger] cout[i] >= 0 by {
        assert(red.cols[hi as int][i] >= 0);
    }
    lemma_chunk_flags_any(cout, nu);
    let fl = chunk_flags(cout, nu, o);
    let ovf = ex.ovf + fl;
    lemma_any_split(ovf, ex.ovf.len() as int);
    assert(ovf.take(ex.ovf.len() as int) =~= ex.ovf);
    assert(ovf.skip(ex.ovf.len() as int) =~= fl);
    assert forall|i: int| 0 <= i < ovf.len() implies #[trigger] ovf[i] >= 0 by {
        if i < ex.ovf.len() {
            assert(ovf[i] == ex.ovf[i]);
        } else {
            assert(ovf[i] == fl[i - ex.ovf.len()]);
        }
    }
    if ovf.len() >= 1 {
        lemma_merge_flags_any(ovf, nu_bool);
    } else {
        assert(!any_nonzero(ovf));
    }
}

/// Every item is a digit of two bits (the columns).
pub open spec fn cols_digits(cols: Seq<Seq<int>>) -> bool {
    forall|c: int, i: int| 0 <= c < cols.len() && 0 <= i < cols[c].len() ==> 0 <= #[trigger] cols[c][i] < 4
}

proof fn lemma_reduce_from_bounded(stage: Seq<int>, t: int, acc: int, nu_acc: nat, nxt: Seq<int>, nu: nat)
    requires
        1 <= t <= stage.len(),
        all_digits(stage),
        all_digits(nxt),
        1 <= nu_acc < nu <= 5,
        0 <= acc <= 3 * nu_acc,
    ensures
        ({
            let (d, out) = reduce_from(stage, t, acc, nu_acc, nxt, nu, clear_mul_ops());
            0 <= d < 4 && all_digits(out)
        }),
    decreases stage.len() - t,
{
    if t >= stage.len() {
        if nu_acc != 1 {
            let c = acc / 4;
            assert(c < 4);
            assert forall|i: int| 0 <= i < nxt.push(c).len() implies 0 <= #[trigger] nxt.push(c)[i] < 4 by {
                if i < nxt.len() {
                    assert(nxt.push(c)[i] == nxt[i]);
                }
            }
        }
    } else {
        let a2 = stage[t] + acc;
        assert(0 <= stage[t] < 4);
        if nu_acc + 1 == nu {
            let c = a2 / 4;
            assert(c < 4);
            assert forall|i: int| 0 <= i < nxt.push(c).len() implies 0 <= #[trigger] nxt.push(c)[i] < 4 by {
                if i < nxt.len() {
                    assert(nxt.push(c)[i] == nxt[i]);
                }
            }
            lemma_reduce_from_bounded(stage, t + 1, a2 % 4, 1, nxt.push(c), nu);
        } else {
            lemma_reduce_from_bounded(stage, t + 1, a2, nu_acc + 1, nxt, nu);
        }
    }
}

/// On clear digits, with at most five terms summed before a carry is extracted,
/// the reduction keeps every block a digit: the digits it outputs and the carries
/// it forwards are all below four.
pub proof fn lemma_reduction_bounded(cols0: Seq<Seq<int>>, nu: nat, lo: nat, k: nat)
    requires
        k < cols0.len(),
        cols_digits(cols0),
        2 <= nu <= 5,
    ensures
        ({
            let red = reduce_columns(cols0, nu, clear_mul_ops(), lo, k);
            red.cols.len() == cols0.len() && cols_digits(red.cols) && all_digits(red.dst)
        }),
    decreases k,
{
    let o = clear_mul_ops();
    if k > lo {
        let kk = (k - 1) as nat;
        lemma_reduction_bounded(cols0, nu, lo, kk);
        let prev = reduce_columns(cols0, nu, o, lo, kk);
        let stage = prev.cols[kk as int];
        if stage.len() > 0 {
            assert forall|i: int| 0 <= i < stage.len() implies 0 <= #[trigger] stage[i] < 4 by {
                assert(0 <= prev.cols[kk as int][i] < 4);
            }
            lemma_reduce_from_bounded(stage, 1, stage[0], 1, Seq::empty(), nu);
            let (d, nxt) = reduce_from(stage, 1, stage[0], 1, Seq::empty(), nu, o);
            let red = reduce_columns(cols0, nu, o, lo, k);
            assert(red.cols == prev.cols.update(k as int, prev.cols[k as int] + nxt));
            assert(red.dst == prev.dst.push(d));
            assert forall|c: int, i: int| 0 <= c < red.cols.len() && 0 <= i < red.cols[c].len() implies 0
                <= #[trigger] red.cols[c][i] < 4 by {
                if c == k {
                    if i < prev.cols[c].len() {
                        assert(red.cols[c][i] == prev.cols[c][i]);
                    } else {
                        assert(red.cols[c][i] == nxt[i - prev.cols[c].len()]);
                    }
                } else {
                    assert(red.cols[c][i] == prev.cols[c][i]);
                }
            }
            assert forall|i: int| 0 <= i < red.dst.len() implies 0 <= #[trigger] red.dst[i] < 4 by {
                if i < prev.dst.len() {
                    assert(red.dst[i] == prev.dst[i]);
                }
            }
        }
    }
}

/// Digits of two bits are worth less than four to the power of their count.
pub proof fn lemma_digits_at_bound(d: Seq<int>)
    requires
        all_digits(d),
    ensures
        0 <= digits_at(d, 0) < pow(4, d.len()),
    decreases d.len(),
{
    reveal(pow);
    if d.len() > 0 {
        let dl = d.drop_last();
        assert forall|i: int| 0 <= i < dl.len() implies 0 <= #[trigger] dl[i] < 4 by {
            assert(dl[i] == d[i]);
        }
        lemma_digits_at_bound(dl);
        let p = pow(4, dl.len());
        assert(pow(4, d.len()) == 4 * p);
        let x = d.last();
        assert(0 <= x < 4);
        let v = digits_at(dl, 0);
        assert(0 <= v + p * x < 4 * p) by (nonlinear_arith)
            requires
                0 <= v < p,
                0 <= x < 4,
        ;
    }
}

/// The sum of items that are not negative is positive exactly when one of them
/// is not zero.
proof fn lemma_total_positive(s: Seq<int>)
    requires
        all_nonneg(s),
    ensures
        total(s) >= 0,
        (total(s) > 0) == any_nonzero(s),
    decreases s.len(),
{
    if s.len() > 0 {
        let d = s.drop_last();
        assert(all_nonneg(d)) by {
            assert forall|i: int| 0 <= i < d.len() implies #[trigger] d[i] >= 0 by {
                assert(d[i] == s[i]);
            }
        }
        lemma_total_positive(d);
        lemma_any_split(s, s.len() - 1);
        assert(s.take(s.len() - 1) =~= d);
        let t = s.skip(s.len() - 1);
        assert(t.len() == 1 && t[0] == s.last());
        if any_nonzero(t) {
            let i = choose|i: int| 0 <= i < t.len() && #[trigger] t[i] != 0;
            assert(i == 0);
        }
        if s.last() != 0 {
            assert(t[0] != 0);
        }
    } else {
        if any_nonzero(s) {
            let i = choose|i: int| 0 <= i < s.len() && #[trigger] s[i] != 0;
        }
    }
}

/// On clear digits, over a window that starts at column 0, the expansion keeps
/// every block a digit, and its overflow terms are flags, some set exactly when a
/// partial product past the window is not zero.
proof fn lemma_expansion_flags(a: Seq<int>, b: Seq<int>, hi: nat, i: nat, j: nat)
    requires
        all_digits(a),
        all_digits(b),
        i <= a.len(),
        j <= b.len(),
        j > 0 ==> i < a.len(),
    ensures
        ({
            let ex = expand_pairs(a, b, 0, hi, Seq::empty(), clear_mul_ops(), i, j);
            &&& ex.cols.len() == hi + 1
            &&& cols_digits(ex.cols)
            &&& all_nonneg(ex.ovf)
            &&& outside_value(a, b, hi, i, j) >= 0
            &&& any_nonzero(ex.ovf) == (outside_value(a, b, hi, i, j) > 0)
        }),
    decreases i, j,
{
    let o = clear_mul_ops();
    let ex = expand_pairs(a, b, 0, hi, Seq::empty(), o, i, j);
    if j == 0 {
        if i == 0 {
            assert forall|c: int, x: int| 0 <= c < ex.cols.len() && 0 <= x < ex.cols[c].len() implies 0
                <= #[trigger] ex.cols[c][x] < 4 by {
                assert(ex.cols[c].len() == 0);
            }
            if any_nonzero(ex.ovf) {
                let z = choose|z: int| 0 <= z < ex.ovf.len() && #[trigger] ex.ovf[z] != 0;
            }
        } else {
            lemma_expansion_flags(a, b, hi, (i - 1) as nat, b.len());
        }
    } else {
        let jj = (j - 1) as nat;
        lemma_expansion_flags(a, b, hi, i, jj);
        let prev = expand_pairs(a, b, 0, hi, Seq::empty(), o, i, jj);
        let k = (i + jj) as int;
        let x = a[i as int];
        let y = b[jj as int];
        assert(0 <= x < 4 && 0 <= y < 4);
        let pk = 4 * x + y;
        assert(pk / 4 == x && pk % 4 == y) by (nonlinear_arith)
            requires
                pk == 4 * x + y,
                0 <= y < 4,
        ;
        let prod = x * y;
        assert(0 <= prod <= 9) by (nonlinear_arith)
            requires
                prod == x * y,
                0 <= x < 4,
                0 <= y < 4,
        ;
        let ov = outside_value(a, b, hi, i, jj);
        if k < hi {
            let lsb = prod % 4;
            let msb = prod / 4;
            assert(msb < 4);
            let c1 = prev.cols.update(k, prev.cols[k].push(lsb));
            assert(ex.cols == c1.update(k + 1, c1[k + 1].push(msb)));
            assert(ex.ovf == prev.ovf);
            assert forall|c: int, z: int| 0 <= c < ex.cols.len() && 0 <= z < ex.cols[c].len() implies 0
                <= #[trigger] ex.cols[c][z] < 4 by {
                if (c == k || c == k + 1) && z < prev.cols[c].len() {
                    assert(ex.cols[c][z] == prev.cols[c][z]);
                } else if c != k && c != k + 1 {
                    assert(ex.cols[c][z] == prev.cols[c][z]);
                }
            }
        } else {
            let f = (o.lut)(pk, MulLut::MultCarryMsgIsSome);
            assert(f == if prod != 0 { 1int } else { 0int });
            assert(ex.ovf == prev.ovf.push(f));
            assert(ex.cols == prev.cols);
            let e = (k - hi) as nat;
            vstd::arithmetic::power::lemma_pow_positive(4, e);
            let pe = pow(4, e);
            assert(outside_value(a, b, hi, i, j) == ov + pe * prod);
            assert(pe * prod >= 0 && (pe * prod > 0) == (prod != 0)) by (nonlinear_arith)
                requires
                    pe > 0,
                    prod >= 0,
            ;
            lemma_any_split(ex.ovf, prev.ovf.len() as int);
            assert(ex.ovf.take(prev.ovf.len() as int) =~= prev.ovf);
            let t = ex.ovf.skip(prev.ovf.len() as int);
            assert(t.len() == 1 && t[0] == f);
            if any_nonzero(t) {
                let z = choose|z: int| 0 <= z < t.len() && #[trigger] t[z] != 0;
                assert(z == 0);
            }
            if f != 0 {
                assert(t[0] != 0);
            }
            assert forall|z: int| 0 <= z < ex.ovf.len() implies #[trigger] ex.ovf[z] >= 0 by {
                if z < prev.ovf.len() {
                    assert(ex.ovf[z] == prev.ovf[z]);
                }
            }
        }
    }
}

/// On clear digits the expansion keeps every block a digit when the carries in
/// are digits, and every column of the window past its first that the high digit
/// of a pair already reached is not empty.
proof fn lemma_expansion_shape(a: Seq<int>, b: Seq<int>, lo: nat, hi: nat, cin: Seq<int>, i: nat, j: nat)
    requires
        all_digits(a),
        all_digits(b),
        all_digits(cin),
        lo <= hi,
        i <= a.len(),
        j <= b.len(),
        j > 0 ==> i < a.len(),
    ensures
        ({
            let ex = expand_pairs(a, b, lo, hi, cin, clear_mul_ops(), i, j);
            &&& ex.cols.len() == hi + 1
            &&& cols_digits(ex.cols)
            &&& forall|c: int| lo + 1 <= c < hi && ((i >= 1 && b.len() >= 1 && c <= i + b.len() - 1) || (i + 1 <= c <= i + j))
                ==> (#[trigger] ex.cols[c]).len() >= 1
        }),
    decreases i, j,
{
    let o = clear_mul_ops();
    let ex = expand_pairs(a, b, lo, hi, cin, o, i, j);
    if j == 0 {
        if i == 0 {
            assert forall|c: int, x: int| 0 <= c < ex.cols.len() && 0 <= x < ex.cols[c].len() implies 0
                <= #[trigger] ex.cols[c][x] < 4 by {
                if c == lo {
                    assert(ex.cols[c] == cin);
                    assert(0 <= cin[x] < 4);
                }
            }
        } else {
            lemma_expansion_shape(a, b, lo, hi, cin, (i - 1) as nat, b.len());
        }
    } else {
        let jj = (j - 1) as nat;
        lemma_expansion_shape(a, b, lo, hi, cin, i, jj);
        let prev = expand_pairs(a, b, lo, hi, cin, o, i, jj);
        let k = (i + jj) as int;
        let x = a[i as int];
        let y = b[jj as int];
        assert(0 <= x < 4 && 0 <= y < 4);
        let pk = 4 * x + y;
        assert(pk / 4 == x && pk % 4 == y) by (nonlinear_arith)
            requires
                pk == 4 * x + y,
                0 <= y < 4,
        ;
        let prod = x * y;
        assert(0 <= prod <= 9) by (nonlinear_arith)
            requires
                prod == x * y,
                0 <= x < 4,
                0 <= y < 4,
        ;
        if lo <= k < hi {
            let lsb = prod % 4;
            let msb = prod / 4;
            assert(msb < 4);
            let c1 = prev.cols.update(k, prev.cols[k].push(lsb));
            assert(ex.cols == c1.update(k + 1, c1[k + 1].push(msb)));
            assert forall|c: int, z: int| 0 <= c < ex.cols.len() && 0 <= z < ex.cols[c].len() implies 0
                <= #[trigger] ex.cols[c][z] < 4 by {
                if (c == k || c == k + 1) && z < prev.cols[c].len() {
                    assert(ex.cols[c][z] == prev.cols[c][z]);
                } else if c != k && c != k + 1 {
                    assert(ex.cols[c][z] == prev.cols[c][z]);
                }
            }
            assert forall|c: int| 0 <= c < ex.cols.len() implies (#[trigger] ex.cols[c]).len() >= prev.cols[c].len() by {
            }
        } else {
            assert(ex.cols == prev.cols);
        }
    }
}

/// One link of the product keeps its value (see [`lemma_mul_chain_keeps_value`])
/// also when the window reaches the top column of the product, provided it starts
/// two columns below.
pub proof fn lemma_mul_chain_keeps_value_to_top(
    a: Seq<int>,
    b: Seq<int>,
    lo: nat,
    hi: nat,
    cin: Seq<int>,
    nu: nat,
    nu_bool: nat,
    zero: int,
)
    requires
        all_digits(a),
        all_digits(b),
        all_digits(cin),
        lo <= hi,
        a.len() >= 1,
        b.len() >= 1,
        hi <= a.len() + b.len(),
        lo + 2 <= a.len() + b.len(),
        2 <= nu <= 5,
    ensures
        ({
            let r = mul_chain_spec(a, b, lo, hi, cin, nu, nu_bool, zero, clear_mul_ops());
            &&& r.0.len() == hi - lo
            &&& all_digits(r.0)
            &&& all_digits(r.2)
            &&& digits_at(r.0, lo) + pow(4, hi) * total(r.2) == window_value(a, b, lo, hi, a.len(), 0) + pow(4, lo)
                * total(cin)
        }),
{
    let o = clear_mul_ops();
    assert(forall|x: int| 0 <= x < cin.len() ==> cin[x] >= 0);
    lemma_expansion_value(a, b, lo, hi, cin, a.len(), 0);
    lemma_expansion_shape(a, b, lo, hi, cin, a.len(), 0);
    let ex = expand_pairs(a, b, lo, hi, cin, o, a.len(), 0);
    assert forall|c: int| lo <= c < hi implies (#[trigger] ex.cols[c]).len() >= 1 by {
        if c <= a.len() + b.len() - 2 {
            assert(a.len() >= 1 && c <= a.len() + b.len() - 2);
        } else {
            assert(lo + 1 <= c);
        }
    }
    lemma_reduction_keeps_value(ex.cols, nu, lo, hi);
    lemma_reduction_bounded(ex.cols, nu, lo, hi);
    let red = reduce_columns(ex.cols, nu, o, lo, hi);
    assert forall|x: int| 0 <= x < red.cols[hi as int].len() implies 0 <= #[trigger] red.cols[hi as int][x] < 4 by {
        assert(0 <= red.cols[hi as int][x] < 4);
    }
}

proof fn lemma_outside_zero(a: Seq<int>, b: Seq<int>, hi: nat, i: nat, j: nat)
    requires
        a.len() + b.len() <= hi + 1,
        i <= a.len(),
        j <= b.len(),
        j > 0 ==> i < a.len(),
    ensures
        outside_value(a, b, hi, i, j) == 0,
    decreases i, j,
{
    if j == 0 {
        if i > 0 {
            lemma_outside_zero(a, b, hi, (i - 1) as nat, b.len());
        }
    } else {
        lemma_outside_zero(a, b, hi, i, (j - 1) as nat);
    }
}

proof fn lemma_window_outside(a: Seq<int>, b: Seq<int>, lo: nat, hi: nat, i: nat, j: nat)
    requires
        lo <= hi,
        i <= a.len(),
        j <= b.len(),
        j > 0 ==> i < a.len(),
    ensures
        window_value(a, b, lo, hi, i, j) + pow(4, hi) * outside_value(a, b, hi, i, j) == pow(4, lo) * outside_value(
            a,
            b,
            lo,
            i,
            j,
        ),
    decreases i, j,
{
    if j == 0 {
        if i > 0 {
            lemma_window_outside(a, b, lo, hi, (i - 1) as nat, b.len());
        }
    } else {
        let jj = (j - 1) as nat;
        lemma_window_outside(a, b, lo, hi, i, jj);
        let k = (i + jj) as nat;
        let pr = a[i as int] * b[jj as int];
        let w = window_value(a, b, lo, hi, i, jj);
        let oh = outside_value(a, b, hi, i, jj);
        let ol = outside_value(a, b, lo, i, jj);
        let ph = pow(4, hi);
        let pl = pow(4, lo);
        if k >= lo {
            vstd::arithmetic::power::lemma_pow_adds(4, lo, (k - lo) as nat);
            assert(pow(4, k) == pl * pow(4, (k - lo) as nat));
        }
        if k >= hi {
            vstd::arithmetic::power::lemma_pow_adds(4, hi, (k - hi) as nat);
            assert(pow(4, k) == ph * pow(4, (k - hi) as nat));
            let dh = pow(4, (k - hi) as nat);
            let dl = pow(4, (k - lo) as nat);
            assert(ph * (oh + dh * pr) == ph * oh + (ph * dh) * pr) by (nonlinear_arith);
            assert(pl * (ol + dl * pr) == pl * ol + (pl * dl) * pr) by (nonlinear_arith);
        } else if k >= lo {
            let dl = pow(4, (k - lo) as nat);
            assert(pl * (ol + dl * pr) == pl * ol + (pl * dl) * pr) by (nonlinear_arith);
        }
    }
}

/// Blocks placed from column `lo` are worth `4^lo` times their value.
pub proof fn lemma_digits_at_shift(d: Seq<int>, lo: nat)
    ensures
        digits_at(d, lo) == pow(4, lo) * digits_at(d, 0),
    decreases d.len(),
{
    if d.len() > 0 {
        lemma_digits_at_shift(d.drop_last(), lo);
        vstd::arithmetic::power::lemma_pow_adds(4, lo, (d.len() - 1) as nat);
        let pl = pow(4, lo);
        let pk = pow(4, (d.len() - 1) as nat);
        let x = digits_at(d.drop_last(), 0);
        assert(pl * x + (pl * pk) * d.last() == pl * (x + pk * d.last())) by (nonlinear_arith);
    }
}

/// On clear digits, a link over the first `mh` columns of the product of two
/// operands of `mh` blocks gives `mh` digits worth the product modulo `4^mh`.
pub proof fn lemma_low_link(a: Seq<int>, b: Seq<int>, mh: nat, nu: nat, nu_bool: nat)
    requires
        all_digits(a),
        all_digits(b),
        a.len() == mh,
        b.len() == mh,
        mh >= 2,
        2 <= nu <= 5,
    ensures
        ({
            let r = mul_chain_spec(a, b, 0, mh, Seq::empty(), nu, nu_bool, 0, clear_mul_ops());
            &&& r.0.len() == mh
            &&& all_digits(r.0)
            &&& digits_at(r.0, 0) == (digits_at(a, 0) * digits_at(b, 0)) % pow(4, mh)
        }),
{
    let o = clear_mul_ops();
    let r = mul_chain_spec(a, b, 0, mh, Seq::empty(), nu, nu_bool, 0, o);
    lemma_mul_chain_keeps_value_to_top(a, b, 0, mh, Seq::empty(), nu, nu_bool, 0);
    lemma_pairs_value(a, b, mh, a.len(), 0);
    assert(a.take(a.len() as int) =~= a);
    lemma_expansion_flags(a, b, mh, a.len(), 0);
    lemma_digits_at_bound(r.0);
    assert(all_nonneg(r.2)) by {
        assert forall|i: int| 0 <= i < r.2.len() implies #[trigger] r.2[i] >= 0 by {
            assert(0 <= r.2[i] < 4);
        }
    }
    lemma_total_positive(r.2);
    assert(total(Seq::<int>::empty()) == 0);
    let p = pow(4, mh);
    let q = total(r.2) + outside_value(a, b, mh, a.len(), 0);
    let dv = digits_at(r.0, 0);
    let tc = total(r.2);
    let om = outside_value(a, b, mh, a.len(), 0);
    let wl = window_value(a, b, 0, mh, a.len(), 0);
    assert(dv + p * tc == wl);
    assert(wl + p * om == digits_at(a, 0) * digits_at(b, 0));
    assert(dv + p * q == digits_at(a, 0) * digits_at(b, 0)) by (nonlinear_arith)
        requires
            dv + p * tc == wl,
            wl + p * om == digits_at(a, 0) * digits_at(b, 0),
            q == tc + om,
    ;
    assert(digits_at(a, 0) * digits_at(b, 0) == q * p + dv) by (nonlinear_arith)
        requires
            dv + p * q == digits_at(a, 0) * digits_at(b, 0),
    ;
    vstd::arithmetic::div_mod::lemma_fundamental_div_mod_converse(digits_at(a, 0) * digits_at(b, 0), p, q, dv);
}

/// On clear digits, the link over the upper `mh` columns of the product of two
/// operands of `mh` blocks, fed the carries of the lower link, gives `mh` digits
/// worth the product divided by `4^mh`.
pub proof fn lemma_high_link(a: Seq<int>, b: Seq<int>, mh: nat, nu: nat, nu_bool: nat)
    requires
        all_digits(a),
        all_digits(b),
        a.len() == mh,
        b.len() == mh,
        mh >= 2,
        2 <= nu <= 5,
    ensures
        ({
            let low = mul_chain_spec(a, b, 0, mh, Seq::empty(), nu, nu_bool, 0, clear_mul_ops());
            let r = mul_chain_spec(a, b, mh, 2 * mh, low.2, nu, nu_bool, 0, clear_mul_ops());
            &&& r.0.len() == mh
            &&& all_digits(r.0)
            &&& digits_at(r.0, 0) == (digits_at(a, 0) * digits_at(b, 0)) / pow(4, mh)
        }),
{
    let o = clear_mul_ops();
    let low = mul_chain_spec(a, b, 0, mh, Seq::empty(), nu, nu_bool, 0, o);
    lemma_low_link(a, b, mh, nu, nu_bool);
    lemma_mul_chain_keeps_value_to_top(a, b, 0, mh, Seq::empty(), nu, nu_bool, 0);
    lemma_mul_chain_keeps_value_to_top(a, b, mh, 2 * mh, low.2, nu, nu_bool, 0);
    let r = mul_chain_spec(a, b, mh, 2 * mh, low.2, nu, nu_bool, 0, o);
    lemma_pairs_value(a, b, mh, a.len(), 0);
    assert(a.take(a.len() as int) =~= a);
    lemma_window_outside(a, b, mh, 2 * mh, a.len(), 0);
    lemma_outside_zero(a, b, 2 * mh, a.len(), 0);
    lemma_digits_at_shift(r.0, mh);
    lemma_digits_at_bound(r.0);
    lemma_digits_at_bound(low.0);
    lemma_digits_at_bound(a);
    lemma_digits_at_bound(b);
    assert(all_nonneg(r.2)) by {
        assert forall|i: int| 0 <= i < r.2.len() implies #[trigger] r.2[i] >= 0 by {
            assert(0 <= r.2[i] < 4);
        }
    }
    lemma_total_positive(r.2);
    assert(total(Seq::<int>::empty()) == 0);
    let p = pow(4, mh);
    vstd::arithmetic::power::lemma_pow_adds(4, mh, mh);
    assert(pow(4, 2 * mh) == p * p);
    vstd::arithmetic::power::lemma_pow_positive(4, mh);
    let av = digits_at(a, 0);
    let bv = digits_at(b, 0);
    let ab = av * bv;
    let lv = digits_at(low.0, 0);
    let hv = digits_at(r.0, 0);
    let tcl = total(low.2);
    let tch = total(r.2);
    let om = outside_value(a, b, mh, a.len(), 0);
    let wl = window_value(a, b, 0, mh, a.len(), 0);
    let wh = window_value(a, b, mh, 2 * mh, a.len(), 0);
    assert(lv + p * tcl == wl);
    assert(wl + p * om == ab);
    assert(wh == p * om);
    assert(p * hv + (p * p) * tch == wh + p * tcl);
    assert(ab < p * p) by (nonlinear_arith)
        requires
            ab == av * bv,
            0 <= av < p,
            0 <= bv < p,
    ;
    assert(ab == lv + p * hv + (p * p) * tch) by (nonlinear_arith)
        requires
            lv + p * tcl == wl,
            wl + p * om == ab,
            wh == p * om,
            p * hv + (p * p) * tch == wh + p * tcl,
    ;
    assert(tch == 0) by (nonlinear_arith)
        requires
            ab == lv + p * hv + (p * p) * tch,
            ab < p * p,
            lv >= 0,
            hv >= 0,
            p > 0,
            tch >= 0,
    ;
    assert(ab == hv * p + lv) by (nonlinear_arith)
        requires
            ab == lv + p * hv + (p * p) * tch,
            tch == 0,
    ;
    vstd::arithmetic::div_mod::lemma_fundamental_div_mod_converse(ab, p, hv, lv);
}

/// Some pair of blocks of `a` and `b` before `(i, j)` (a row before `i`, or row
/// `i` before `j`) has its column outside the window from `lo` to `hi` and a
/// product that is not zero.
pub open spec fn outside_pair_before(a: Seq<int>, b: Seq<int>, lo: nat, hi: nat, i: nat, j: nat) -> bool {
    exists|p: int, q: int|
        #![trigger a[p], b[q]]
        0 <= p < a.len() && 0 <= q < b.len() && (p < i || (p == i && q < j)) && (p + q < lo || p + q >= hi) && a[p]
            * b[q] != 0
}

proof fn lemma_ovf_outside_pairs(a: Seq<int>, b: Seq<int>, lo: nat, hi: nat, cin: Seq<int>, i: nat, j: nat)
    requires
        all_digits(a),
        all_digits(b),
        i <= a.len(),
        j <= b.len(),
        j > 0 ==> i < a.len(),
    ensures
        any_nonzero(expand_pairs(a, b, lo, hi, cin, clear_mul_ops(), i, j).ovf) == outside_pair_before(a, b, lo, hi, i, j),
    decreases i, j,
{
    let o = clear_mul_ops();
    let ex = expand_pairs(a, b, lo, hi, cin, o, i, j);
    if j == 0 {
        if i == 0 {
            if any_nonzero(ex.ovf) {
                let z = choose|z: int| 0 <= z < ex.ovf.len() && #[trigger] ex.ovf[z] != 0;
            }
        } else {
            let ii = (i - 1) as nat;
            lemma_ovf_outside_pairs(a, b, lo, hi, cin, ii, b.len());
            if outside_pair_before(a, b, lo, hi, i, 0) {
                let (p, q) = choose|p: int, q: int|
                    #![trigger a[p], b[q]]
                    0 <= p < a.len() && 0 <= q < b.len() && (p < i || (p == i && q < 0)) && (p + q < lo || p + q >= hi)
                        && a[p] * b[q] != 0;
                assert(p < ii || (p == ii && q < b.len()));
                assert(outside_pair_before(a, b, lo, hi, ii, b.len()));
            }
            if outside_pair_before(a, b, lo, hi, ii, b.len()) {
                let (p, q) = choose|p: int, q: int|
                    #![trigger a[p], b[q]]
                    0 <= p < a.len() && 0 <= q < b.len() && (p < ii || (p == ii && q < b.len())) && (p + q < lo || p + q
                        >= hi) && a[p] * b[q] != 0;
                assert(p < i);
                assert(outside_pair_before(a, b, lo, hi, i, 0));
            }
        }
    } else {
        let jj = (j - 1) as nat;
        lemma_ovf_outside_pairs(a, b, lo, hi, cin, i, jj);
        let prev = expand_pairs(a, b, lo, hi, cin, o, i, jj);
        let k = (i + jj) as int;
        let x = a[i as int];
        let y = b[jj as int];
        assert(0 <= x < 4 && 0 <= y < 4);
        let pk = 4 * x + y;
        assert(pk / 4 == x && pk % 4 == y) by (nonlinear_arith)
            requires
                pk == 4 * x + y,
                0 <= y < 4,
        ;
        let outside = k < lo || k >= hi;
        if !outside {
            assert(ex.ovf == prev.ovf);
        } else {
            let f = (o.lut)(pk, MulLut::MultCarryMsgIsSome);
            assert(f == if x * y != 0 { 1int } else { 0int });
            assert(ex.ovf == prev.ovf.push(f));
            lemma_any_split(ex.ovf, prev.ovf.len() as int);
            assert(ex.ovf.take(prev.ovf.len() as int) =~= prev.ovf);
            let t = ex.ovf.skip(prev.ovf.len() as int);
            assert(t.len() == 1 && t[0] == f);
            if any_nonzero(t) {
                let z = choose|z: int| 0 <= z < t.len() && #[trigger] t[z] != 0;
                assert(z == 0);
            }
            if f != 0 {
                assert(t[0] != 0);
            }
        }
        // the pairs before (i, j): those before (i, jj) and (i, jj) itself
        if outside_pair_before(a, b, lo, hi, i, j) {
            let (p, q) = choose|p: int, q: int|
                #![trigger a[p], b[q]]
                0 <= p < a.len() && 0 <= q < b.len() && (p < i || (p == i && q < j)) && (p + q < lo || p + q >= hi)
                    && a[p] * b[q] != 0;
            if p == i && q == jj {
                assert(outside && x * y != 0);
            } else {
                assert(outside_pair_before(a, b, lo, hi, i, jj));
            }
        }
        if outside_pair_before(a, b, lo, hi, i, jj) {
            let (p, q) = choose|p: int, q: int|
                #![trigger a[p], b[q]]
                0 <= p < a.len() && 0 <= q < b.len() && (p < i || (p == i && q < jj)) && (p + q < lo || p + q >= hi)
                    && a[p] * b[q] != 0;
            assert(outside_pair_before(a, b, lo, hi, i, j));
        }
        if outside && x * y != 0 {
            assert(a[i as int] == x && b[jj as int] == y);
            assert(outside_pair_before(a, b, lo, hi, i, j));
        }
    }
}

/// On clear digits the overflow flag of a link (with a clear zero) is set exactly
/// when some pair of blocks whose column lies outside the window has a product that
/// is not zero, or a carry that leaves the window is not zero.
pub proof fn lemma_mul_chain_flag_outside(
    a: Seq<int>,
    b: Seq<int>,
    lo: nat,
    hi: nat,
    cin: Seq<int>,
    nu: nat,
    nu_bool: nat,
)
    requires
        all_digits(a),
        all_digits(b),
        all_nonneg(cin),
        lo <= hi,
        a.len() >= 1,
        b.len() >= 1,
        hi + 1 <= a.len() + b.len(),
        nu >= 1,
        nu_bool >= 2,
    ensures
        ({
            let r = mul_chain_spec(a, b, lo, hi, cin, nu, nu_bool, 0, clear_mul_ops());
            (r.1 != 0) == ((exists|p: int, q: int|
                #![trigger a[p], b[q]]
                0 <= p < a.len() && 0 <= q < b.len() && (p + q < lo || p + q >= hi) && a[p] * b[q] != 0) || any_nonzero(
                r.2,
            ))
        }),
{
    lemma_mul_chain_flag(a, b, lo, hi, cin, nu, nu_bool);
    lemma_ovf_outside_pairs(a, b, lo, hi, cin, a.len(), 0);
    let e = exists|p: int, q: int|
        #![trigger a[p], b[q]]
        0 <= p < a.len() && 0 <= q < b.len() && (p + q < lo || p + q >= hi) && a[p] * b[q] != 0;
    if e {
        let (p, q) = choose|p: int, q: int|
            #![trigger a[p], b[q]]
            0 <= p < a.len() && 0 <= q < b.len() && (p + q < lo || p + q >= hi) && a[p] * b[q] != 0;
        assert(p < a.len());
        assert(outside_pair_before(a, b, lo, hi, a.len(), 0));
    }
    if outside_pair_before(a, b, lo, hi, a.len(), 0) {
        let (p, q) = choose|p: int, q: int|
            #![trigger a[p], b[q]]
            0 <= p < a.len() && 0 <= q < b.len() && (p < a.len() || (p == a.len() && q < 0)) && (p + q < lo || p + q
                >= hi) && a[p] * b[q] != 0;
        assert(e);
    }
}

/// On clear digits the overflow flag of the product cut off after `cut` blocks is
/// set exactly when the product of the operands reaches `4^cut`. (The cut-off lies
/// within the width of the product, and at most five terms are summed before a
/// carry is extracted, as the block width allows.)
pub proof fn lemma_mul_flag_is_overflow(a: Seq<int>, b: Seq<int>, cut: nat, nu: nat, nu_bool: nat)
    requires
        all_digits(a),
        all_digits(b),
        a.len() >= 1,
        b.len() >= 1,
        cut + 1 <= a.len() + b.len(),
        2 <= nu <= 5,
        nu_bool >= 2,
    ensures
        (mul_spec(a, b, cut, nu, nu_bool, 0, clear_mul_ops()).1 != 0) == (digits_at(a, 0) * digits_at(b, 0) >= pow(
            4,
            cut,
        )),
{
    let o = clear_mul_ops();
    lemma_mul_is_product(a, b, cut, nu, nu_bool, 0);
    lemma_mul_chain_flag(a, b, 0, cut, Seq::empty(), nu, nu_bool);
    lemma_expansion_flags(a, b, cut, a.len(), 0);
    let ex = expand_pairs(a, b, 0, cut, Seq::empty(), o, a.len(), 0);
    lemma_reduction_bounded(ex.cols, nu, 0, cut);
    let red = reduce_columns(ex.cols, nu, o, 0, cut);
    let r = mul_chain_spec(a, b, 0, cut, Seq::empty(), nu, nu_bool, 0, o);
    assert(r.0 == red.dst);
    assert(r.2 == red.cols[cut as int]);
    lemma_digits_at_bound(r.0);
    assert(all_nonneg(r.2)) by {
        assert forall|i: int| 0 <= i < r.2.len() implies #[trigger] r.2[i] >= 0 by {
            assert(0 <= red.cols[cut as int][i] < 4);
        }
    }
    lemma_total_positive(r.2);
    let ov = outside_value(a, b, cut, a.len(), 0);
    let q = total(r.2) + ov;
    let pc = pow(4, cut);
    let dv = digits_at(r.0, 0);
    vstd::arithmetic::power::lemma_pow_positive(4, cut);
    assert(dv + pc * q == digits_at(a, 0) * digits_at(b, 0));
    assert((dv + pc * q >= pc) == (q > 0)) by (nonlinear_arith)
        requires
            0 <= dv < pc,
            q >= 0,
    ;
}

/// The contents of each vector of `cols`.
pub open spec fn col_views<B>(cols: Seq<Vec<B>>) -> Seq<Seq<B>> {
    Seq::new(cols.len(), |k: int| cols[k]@)
}

/// The partial products of every pair of blocks, by column, with the blocks `cin`
/// first in column `lo`.
fn expand<B: Copy, FA: Fn(B, B) -> B, FP: Fn(B, B) -> B, FL: Fn(B, MulLut) -> B>(
    a: &[B],
    b: &[B],
    lo: usize,
    hi: usize,
    cin: Vec<B>,
    ops: &MulCalls<FA, FP, FL>,
) -> (r: (Vec<Vec<B>>, Vec<B>))
    requires
        mul_total::<B, FA, FP, FL>(ops),
        lo <= hi < usize::MAX,
    ensures
        r.0@.len() == hi + 1,
        forall|o: MulOps<B>| #[trigger] mul_implements::<B, FA, FP, FL>(ops, o) ==> col_views(r.0@)
            == expand_pairs(a@, b@, lo as nat, hi as nat, cin@, o, a@.len(), 0).cols && r.1@ == expand_pairs(
            a@,
            b@,
            lo as nat,
            hi as nat,
            cin@,
            o,
            a@.len(),
            0,
        ).ovf,
{
    let ghost c0 = cin@;
    let mut cin = cin;
    let mut cols: Vec<Vec<B>> = Vec::new();
    let mut c: usize = 0;
    while c <= hi
        invariant
            c <= hi + 1,
            lo <= hi < usize::MAX,
            cols@.len() == c,
            c <= lo ==> cin@ == c0,
            forall|k: int| 0 <= k < c ==> (#[trigger] cols@[k])@ == (if k == lo { c0 } else { Seq::<B>::empty() }),
        decreases hi + 1 - c,
    {
        if c == lo {
            let mut col: Vec<B> = Vec::new();
            col.append(&mut cin);
            cols.push(col);
        } else {
            cols.push(Vec::new());
        }
        c = c + 1;
    }
    let mut ovf: Vec<B> = Vec::new();
    proof {
        assert forall|o: MulOps<B>| #[trigger] mul_implements::<B, FA, FP, FL>(ops, o) implies col_views(cols@)
            == expand_pairs(a@, b@, lo as nat, hi as nat, c0, o, 0, 0).cols && ovf@ == expand_pairs(
            a@,
            b@,
            lo as nat,
            hi as nat,
            c0,
            o,
            0,
            0,
        ).ovf by {
            let e = expand_pairs(a@, b@, lo as nat, hi as nat, c0, o, 0, 0).cols;
            assert forall|k: int| 0 <= k < cols@.len() implies #[trigger] col_views(cols@)[k] == e[k] by {
                assert(cols@[k]@ == (if k == lo { c0 } else { Seq::<B>::empty() }));
            }
            assert(col_views(cols@) =~= e);
        }
    }
    let mut i: usize = 0;
    while i < a.len()
        invariant
            i <= a@.len(),
            lo <= hi < usize::MAX,
            cols@.len() == hi + 1,
            mul_total::<B, FA, FP, FL>(ops),
            forall|o: MulOps<B>| #[trigger] mul_implements::<B, FA, FP, FL>(ops, o) ==> col_views(cols@)
                == expand_pairs(a@, b@, lo as nat, hi as nat, c0, o, i as nat, 0).cols && ovf@ == expand_pairs(
                a@,
                b@,
                lo as nat,
                hi as nat,
                c0,
                o,
                i as nat,
                0,
            ).ovf,
        decreases a@.len() - i,
    {
        let mut j: usize = 0;
        while j < b.len()
            invariant
                i < a@.len(),
                j <= b@.len(),
                lo <= hi < usize::MAX,
                cols@.len() == hi + 1,
                mul_total::<B, FA, FP, FL>(ops),
                forall|o: MulOps<B>| #[trigger] mul_implements::<B, FA, FP, FL>(ops, o) ==> col_views(cols@)
                    == expand_pairs(a@, b@, lo as nat, hi as nat, c0, o, i as nat, j as nat).cols && ovf@
                    == expand_pairs(a@, b@, lo as nat, hi as nat, c0, o, i as nat, j as nat).ovf,
            decreases b@.len() - j,
        {
            let ghost old_cols = cols@;
            let p = (ops.pack)(a[i], b[j]);
            if i < hi && j < hi - i && lo <= i + j {
                let k = i + j;
                let lsb = (ops.lut)(p, MulLut::MultCarryMsgLsb);
                let msb = (ops.lut)(p, MulLut::MultCarryMsgMsb);
                cols[k].push(lsb);
                cols[k + 1].push(msb);
                proof {
                    assert forall|o: MulOps<B>| #[trigger] mul_implements::<B, FA, FP, FL>(ops, o) implies col_views(
                        cols@,
                    ) == expand_pairs(a@, b@, lo as nat, hi as nat, c0, o, i as nat, (j + 1) as nat).cols && ovf@
                        == expand_pairs(a@, b@, lo as nat, hi as nat, c0, o, i as nat, (j + 1) as nat).ovf by {
                        let prev = expand_pairs(a@, b@, lo as nat, hi as nat, c0, o, i as nat, j as nat);
                        assert(col_views(old_cols) == prev.cols);
                        assert(old_cols[k as int]@ == prev.cols[k as int]);
                        assert(old_cols[k + 1]@ == prev.cols[k + 1]);
                        let c1 = prev.cols.update(k as int, prev.cols[k as int].push(lsb));
                        assert(col_views(cols@) =~= c1.update(k + 1, c1[k + 1].push(msb)));
                    }
                }
            } else {
                let f = (ops.lut)(p, MulLut::MultCarryMsgIsSome);
                ovf.push(f);
            }
            j = j + 1;
        }
        i = i + 1;
    }
    (cols, ovf)
}

/// The reduction of one non-empty column: its clean digit and the carries it
/// forwards to the next column.
fn reduce_column<B: Copy, FA: Fn(B, B) -> B, FP: Fn(B, B) -> B, FL: Fn(B, MulLut) -> B>(
    stage: &Vec<B>,
    nu: usize,
    ops: &MulCalls<FA, FP, FL>,
) -> (r: (B, Vec<B>))
    requires
        mul_total::<B, FA, FP, FL>(ops),
        stage@.len() >= 1,
    ensures
        forall|o: MulOps<B>| #[trigger] mul_implements::<B, FA, FP, FL>(ops, o) ==> (r.0, r.1@)
            == reduce_from(stage@, 1, stage@[0], 1, Seq::empty(), nu as nat, o),
{
    let n = stage.len();
    let mut acc = stage[0];
    let mut nu_acc: usize = 1;
    let mut nxt: Vec<B> = Vec::new();
    let mut t: usize = 1;
    while t < n
        invariant
            n == stage@.len(),
            1 <= t <= n,
            1 <= nu_acc <= t,
            mul_total::<B, FA, FP, FL>(ops),
            forall|o: MulOps<B>| #[trigger] mul_implements::<B, FA, FP, FL>(ops, o) ==> reduce_from(
                stage@,
                t as int,
                acc,
                nu_acc as nat,
                nxt@,
                nu as nat,
                o,
            ) == reduce_from(stage@, 1, stage@[0], 1, Seq::empty(), nu as nat, o),
        decreases n - t,
    {
        let ghost old_acc = acc;
        let ghost old_nu = nu_acc;
        let ghost old_nxt = nxt@;
        let a2 = (ops.add)(stage[t], acc);
        nu_acc = nu_acc + 1;
        if nu_acc == nu {
            let c = (ops.lut)(a2, MulLut::CarryInMsg);
            nxt.push(c);
            acc = (ops.lut)(a2, MulLut::MsgOnly);
            nu_acc = 1;
        } else {
            acc = a2;
        }
        t = t + 1;
        proof {
            assert forall|o: MulOps<B>| #[trigger] mul_implements::<B, FA, FP, FL>(ops, o) implies reduce_from(
                stage@,
                t as int,
                acc,
                nu_acc as nat,
                nxt@,
                nu as nat,
                o,
            ) == reduce_from(stage@, 1, stage@[0], 1, Seq::empty(), nu as nat, o) by {
                assert(reduce_from(stage@, t - 1, old_acc, old_nu as nat, old_nxt, nu as nat, o) == reduce_from(
                    stage@,
                    t as int,
                    acc,
                    nu_acc as nat,
                    nxt@,
                    nu as nat,
                    o,
                ));
            }
        }
    }
    if nu_acc != 1 {
        let c = (ops.lut)(acc, MulLut::CarryInMsg);
        nxt.push(c);
        acc = (ops.lut)(acc, MulLut::MsgOnly);
    }
    (acc, nxt)
}

/// The reduction of the columns from `lo` to `cut`: the columns with their
/// carries forwarded, and the digits.
fn reduce_all<B: Copy, FA: Fn(B, B) -> B, FP: Fn(B, B) -> B, FL: Fn(B, MulLut) -> B>(
    cols: Vec<Vec<B>>,
    lo: usize,
    cut: usize,
    nu: usize,
    ops: &MulCalls<FA, FP, FL>,
) -> (r: (Vec<Vec<B>>, Vec<B>))
    requires
        mul_total::<B, FA, FP, FL>(ops),
        lo <= cut,
        cols@.len() == cut + 1,
    ensures
        r.0@.len() == cut + 1,
        r.1@.len() <= cut - lo,
        forall|o: MulOps<B>| #[trigger] mul_implements::<B, FA, FP, FL>(ops, o) ==> col_views(r.0@)
            == reduce_columns(col_views(cols@), nu as nat, o, lo as nat, cut as nat).cols && r.1@ == reduce_columns(
            col_views(cols@),
            nu as nat,
            o,
            lo as nat,
            cut as nat,
        ).dst,
{
    let ghost cols0 = col_views(cols@);
    let mut cols = cols;
    let mut dst: Vec<B> = Vec::new();
    let mut k: usize = lo;
    while k < cut
        invariant
            lo <= k <= cut,
            dst@.len() <= k - lo,
            cols@.len() == cut + 1,
            mul_total::<B, FA, FP, FL>(ops),
            forall|o: MulOps<B>| #[trigger] mul_implements::<B, FA, FP, FL>(ops, o) ==> col_views(cols@)
                == reduce_columns(cols0, nu as nat, o, lo as nat, k as nat).cols && dst@ == reduce_columns(
                cols0,
                nu as nat,
                o,
                lo as nat,
                k as nat,
            ).dst,
        decreases cut - k,
    {
        let ghost old_cols = cols@;
        let ghost old_dst = dst@;
        if cols[k].len() != 0 {
            let (d, mut nxt) = reduce_column(&cols[k], nu, ops);
            let ghost nx = nxt@;
            dst.push(d);
            cols[k + 1].append(&mut nxt);
            proof {
                assert forall|o: MulOps<B>| #[trigger] mul_implements::<B, FA, FP, FL>(ops, o) implies col_views(cols@)
                    == reduce_columns(cols0, nu as nat, o, lo as nat, (k + 1) as nat).cols && dst@ == reduce_columns(
                    cols0,
                    nu as nat,
                    o,
                    lo as nat,
                    (k + 1) as nat,
                ).dst by {
                    let prev = reduce_columns(cols0, nu as nat, o, lo as nat, k as nat);
                    assert(col_views(old_cols) == prev.cols);
                    assert(old_cols[k as int]@ == prev.cols[k as int]);
                    assert(old_cols[k + 1]@ == prev.cols[k + 1]);
                    assert(col_views(cols@) =~= prev.cols.update(k + 1, prev.cols[k + 1] + nx));
                }
            }
        } else {
            proof {
                assert forall|o: MulOps<B>| #[trigger] mul_implements::<B, FA, FP, FL>(ops, o) implies col_views(cols@)
                    == reduce_columns(cols0, nu as nat, o, lo as nat, (k + 1) as nat).cols && dst@ == reduce_columns(
                    cols0,
                    nu as nat,
                    o,
                    lo as nat,
                    (k + 1) as nat,
                ).dst by {
                    let prev = reduce_columns(cols0, nu as nat, o, lo as nat, k as nat);
                    assert(col_views(old_cols) == prev.cols);
                    assert(old_cols[k as int]@ == prev.cols[k as int]);
                }
            }
        }
        k = k + 1;
    }
    (cols, dst)
}

/// The left-to-right sum of the blocks of `s` from `lo` to `hi`.
fn sum_range<B: Copy, FA: Fn(B, B) -> B, FP: Fn(B, B) -> B, FL: Fn(B, MulLut) -> B>(
    s: &Vec<B>,
    lo: usize,
    hi: usize,
    ops: &MulCalls<FA, FP, FL>,
) -> (r: B)
    requires
        mul_total::<B, FA, FP, FL>(ops),
        lo < hi <= s@.len(),
    ensures
        forall|o: MulOps<B>| #[trigger] mul_implements::<B, FA, FP, FL>(ops, o) ==> r == sum_left(
            s@.subrange(lo as int, hi as int),
            o,
        ),
{
    let mut acc = s[lo];
    let mut m: usize = lo + 1;
    while m < hi
        invariant
            lo < m <= hi <= s@.len(),
            mul_total::<B, FA, FP, FL>(ops),
            forall|o: MulOps<B>| #[trigger] mul_implements::<B, FA, FP, FL>(ops, o) ==> acc == sum_left(
                s@.subrange(lo as int, m as int),
                o,
            ),
        decreases hi - m,
    {
        let ghost old_acc = acc;
        acc = (ops.add)(acc, s[m]);
        proof {
            assert forall|o: MulOps<B>| #[trigger] mul_implements::<B, FA, FP, FL>(ops, o) implies acc == sum_left(
                s@.subrange(lo as int, m + 1),
                o,
            ) by {
                let sub = s@.subrange(lo as int, m + 1);
                assert(sub.drop_last() =~= s@.subrange(lo as int, m as int));
            }
        }
        m = m + 1;
    }
    acc
}

/// The `IsSome` flags of the chunks of `w` blocks of `s`.
pub(crate) fn chunk_flags_exec<B: Copy, FA: Fn(B, B) -> B, FP: Fn(B, B) -> B, FL: Fn(B, MulLut) -> B>(
    s: &Vec<B>,
    w: usize,
    ops: &MulCalls<FA, FP, FL>,
) -> (r: Vec<B>)
    requires
        mul_total::<B, FA, FP, FL>(ops),
        w >= 1,
    ensures
        r@.len() == chunk_count(s@.len(), w as nat),
        forall|o: MulOps<B>| #[trigger] mul_implements::<B, FA, FP, FL>(ops, o) ==> r@ == chunk_flags(
            s@,
            w as nat,
            o,
        ),
{
    let n = s.len();
    let mut out: Vec<B> = Vec::new();
    let mut i: usize = 0;
    proof {
        assert(s@.skip(0) =~= s@);
        assert forall|o: MulOps<B>| #[trigger] mul_implements::<B, FA, FP, FL>(ops, o) implies out@ + chunk_flags(
            s@.skip(0),
            w as nat,
            o,
        ) == chunk_flags(s@, w as nat, o) by {
            assert(out@ + chunk_flags(s@, w as nat, o) =~= chunk_flags(s@, w as nat, o));
        }
    }
    while i < n
        invariant
            n == s@.len(),
            i <= n,
            w >= 1,
            out@.len() + chunk_count((n - i) as nat, w as nat) == chunk_count(n as nat, w as nat),
            mul_total::<B, FA, FP, FL>(ops),
            forall|o: MulOps<B>| #[trigger] mul_implements::<B, FA, FP, FL>(ops, o) ==> out@ + chunk_flags(
                s@.skip(i as int),
                w as nat,
                o,
            ) == chunk_flags(s@, w as nat, o),
        decreases n - i,
    {
        let ghost old_out = out@;
        let end = if n - i <= w {
            n
        } else {
            i + w
        };
        let sum = sum_range(s, i, end, ops);
        let f = (ops.lut)(sum, MulLut::IsSome);
        out.push(f);
        proof {
            assert(chunk_count((n - i) as nat, w as nat) == 1 + chunk_count((n - end) as nat, w as nat));
            assert forall|o: MulOps<B>| #[trigger] mul_implements::<B, FA, FP, FL>(ops, o) implies out@ + chunk_flags(
                s@.skip(end as int),
                w as nat,
                o,
            ) == chunk_flags(s@, w as nat, o) by {
                let rest = s@.skip(i as int);
                if n - i <= w {
                    assert(rest =~= s@.subrange(i as int, end as int));
                    assert(s@.skip(end as int) =~= Seq::<B>::empty());
                    assert(chunk_flags(rest, w as nat, o) == seq![f]);
                    assert(out@ =~= old_out + seq![f]);
                    assert(out@ + chunk_flags(s@.skip(end as int), w as nat, o) =~= out@);
                } else {
                    assert(rest.take(w as int) =~= s@.subrange(i as int, end as int));
                    assert(rest.skip(w as int) =~= s@.skip(end as int));
                    assert(chunk_flags(rest, w as nat, o) == seq![f] + chunk_flags(
                        s@.skip(end as int),
                        w as nat,
                        o,
                    ));
                    assert(out@ + chunk_flags(s@.skip(end as int), w as nat, o) =~= old_out + chunk_flags(
                        rest,
                        w as nat,
                        o,
                    ));
                }
            }
        }
        i = end;
    }
    proof {
        assert forall|o: MulOps<B>| #[trigger] mul_implements::<B, FA, FP, FL>(ops, o) implies out@ == chunk_flags(
            s@,
            w as nat,
            o,
        ) by {
            assert(s@.skip(n as int) =~= Seq::<B>::empty());
            assert(out@ + chunk_flags(s@.skip(n as int), w as nat, o) =~= out@);
        }
    }
    out
}

/// The number of chunks of `w` among `n` items.
pub open spec fn chunk_count(n: nat, w: nat) -> nat
    decreases n,
{
    if n == 0 || w == 0 {
        0
    } else if n <= w {
        1
    } else {
        1 + chunk_count((n - w) as nat, w)
    }
}

/// Chunks of at least two shorten any sequence of two items or more, and leave
/// at least one.
pub proof fn lemma_chunk_count_shorter(n: nat, w: nat)
    requires
        n >= 2,
        w >= 2,
    ensures
        1 <= chunk_count(n, w) < n,
    decreases n,
{
    if n > w {
        if n - w >= 2 {
            lemma_chunk_count_shorter((n - w) as nat, w);
        } else {
            assert(chunk_count((n - w) as nat, w) == 1);
        }
    }
}

/// One link of a chained schoolbook product of the blocks `a` and `b` (least
/// significant first) over the columns from `cut_in` to `cut_off`, with the
/// carries `carry_in` entering column `cut_in`: the digits of those columns; a
/// flag that merges, by groups of `nu_bool`, whether any partial product outside
/// the window or any carry past it is not zero (`zero` when there is none); and
/// the carries leaving the window. Column sums extract their carry after `nu`
/// terms.
pub fn limb_mul_chain_plan<B: Copy, FA: Fn(B, B) -> B, FP: Fn(B, B) -> B, FL: Fn(B, MulLut) -> B>(
    a: &[B],
    b: &[B],
    cut_in: usize,
    cut_off: usize,
    carry_in: Vec<B>,
    nu: usize,
    nu_bool: usize,
    zero: B,
    ops: &MulCalls<FA, FP, FL>,
) -> (r: (Vec<B>, B, Vec<B>))
    requires
        mul_total::<B, FA, FP, FL>(ops),
        cut_in <= cut_off < usize::MAX,
        nu >= 1,
        nu_bool >= 2,
    ensures
        r.0@.len() <= cut_off - cut_in,
        forall|o: MulOps<B>| #[trigger] mul_implements::<B, FA, FP, FL>(ops, o) ==> (r.0@, r.1, r.2@)
            == mul_chain_spec(
            a@,
            b@,
            cut_in as nat,
            cut_off as nat,
            carry_in@,
            nu as nat,
            nu_bool as nat,
            zero,
            o,
        ),
{
    let ghost cin = carry_in@;
    let (cols, mut ovf) = expand(a, b, cut_in, cut_off, carry_in, ops);
    let ghost ex_ovf = ovf@;
    let ghost cols0 = col_views(cols@);
    let (cols2, dst) = reduce_all(cols, cut_in, cut_off, nu, ops);
    let ghost red_cols = col_views(cols2@);
    let mut flags = chunk_flags_exec(&cols2[cut_off], nu, ops);
    let ghost fl = flags@;
    let mut cout: Vec<B> = Vec::new();
    let mut t: usize = 0;
    while t < cols2[cut_off].len()
        invariant
            cols2@.len() == cut_off + 1,
            t <= cols2@[cut_off as int]@.len(),
            cout@ == cols2@[cut_off as int]@.take(t as int),
        decreases cols2@[cut_off as int]@.len() - t,
    {
        cout.push(cols2[cut_off][t]);
        t = t + 1;
        proof {
            assert(cout@ =~= cols2@[cut_off as int]@.take(t as int));
        }
    }
    proof {
        assert(cout@ =~= cols2@[cut_off as int]@);
        assert(red_cols[cut_off as int] == cout@);
    }
    ovf.append(&mut flags);
    let ghost all = ovf@;
    let flag = if ovf.len() == 0 {
        zero
    } else {
        while ovf.len() > 1
            invariant
                ovf@.len() >= 1,
                nu_bool >= 2,
                mul_total::<B, FA, FP, FL>(ops),
                forall|o: MulOps<B>| #[trigger] mul_implements::<B, FA, FP, FL>(ops, o) ==> merge_flags(
                    ovf@,
                    nu_bool as nat,
                    o,
                ) == merge_flags(all, nu_bool as nat, o),
            decreases ovf@.len(),
        {
            let next = chunk_flags_exec(&ovf, nu_bool, ops);
            proof {
                lemma_chunk_count_shorter(ovf@.len(), nu_bool as nat);
                assert forall|o: MulOps<B>| #[trigger] mul_implements::<B, FA, FP, FL>(ops, o) implies merge_flags(
                    next@,
                    nu_bool as nat,
                    o,
                ) == merge_flags(all, nu_bool as nat, o) by {
                    assert(merge_flags(ovf@, nu_bool as nat, o) == merge_flags(next@, nu_bool as nat, o));
                }
            }
            ovf = next;
        }
        ovf[0]
    };
    proof {
        assert forall|o: MulOps<B>| #[trigger] mul_implements::<B, FA, FP, FL>(ops, o) implies (dst@, flag, cout@)
            == mul_chain_spec(
            a@,
            b@,
            cut_in as nat,
            cut_off as nat,
            cin,
            nu as nat,
            nu_bool as nat,
            zero,
            o,
        ) by {
            assert(cols0 == expand_pairs(a@, b@, cut_in as nat, cut_off as nat, cin, o, a@.len(), 0).cols);
            assert(all =~= ex_ovf + fl);
        }
    }
    (dst, flag, cout)
}

/// The product of the blocks `a` and `b` (least significant first), cut off after
/// `cut` blocks: the digits below the cut-off, and a flag that merges, by groups
/// of `nu_bool`, whether any partial product or carry past the cut-off is not
/// zero (`zero` when nothing lies past it). Column sums extract their carry after
/// `nu` terms.
pub fn mul_plan<B: Copy, FA: Fn(B, B) -> B, FP: Fn(B, B) -> B, FL: Fn(B, MulLut) -> B>(
    a: &[B],
    b: &[B],
    cut: u8,
    nu: usize,
    nu_bool: usize,
    zero: B,
    ops: &MulCalls<FA, FP, FL>,
) -> (r: (Vec<B>, B))
    requires
        mul_total::<B, FA, FP, FL>(ops),
        nu >= 1,
        nu_bool >= 2,
    ensures
        r.0@.len() <= cut,
        forall|o: MulOps<B>| #[trigger] mul_implements::<B, FA, FP, FL>(ops, o) ==> (r.0@, r.1) == mul_spec(
            a@,
            b@,
            cut as nat,
            nu as nat,
            nu_bool as nat,
            zero,
            o,
        ),
{
    let (dst, flag, _) = limb_mul_chain_plan(a, b, 0, cut as usize, Vec::new(), nu, nu_bool, zero, ops);
    (dst, flag)
}

} // verus!
