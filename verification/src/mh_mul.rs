//! The multiplier that splits each operand into limbs: the product of every pair
//! of limbs by chained links of the schoolbook multiplier, the limbs of each
//! offset summed by a tree of limb adders whose carries feed the next offset, and
//! the overflow flag of what lies past the cut-off. The block operations and the
//! limb adder of the circuit builder are handed in as closures.
use vstd::prelude::*;
use crate::mul::{
    all_digits, chunk_count, chunk_flags, chunk_flags_exec, clear_mul_ops, col_views, digits_at, lemma_chunk_count_shorter,
    lemma_digits_at_bound, lemma_high_link, lemma_low_link, limb_mul_chain_plan, merge_flags, mul_chain_spec,
    mul_implements, mul_total, sum_left, MulCalls, MulLut, MulOps,
};
use vstd::arithmetic::power::pow;

verus! {

/// What the limb adder computes: the sum limb and its carry out, from two limbs
/// and an optional carry in.
pub type LimbAdd<B> = spec_fn(Seq<B>, Seq<B>, Option<B>) -> (Seq<B>, B);

/// The limb adder accepts every argument.
pub open spec fn limb_add_total<B, FL2: Fn(Vec<B>, Vec<B>, Option<B>) -> (Vec<B>, B)>(f: &FL2) -> bool {
    forall|x: Vec<B>, y: Vec<B>, c: Option<B>| call_requires(*f, (x, y, c))
}

/// The limb adder computes `g`.
pub open spec fn limb_add_implements<B, FL2: Fn(Vec<B>, Vec<B>, Option<B>) -> (Vec<B>, B)>(
    f: &FL2,
    g: LimbAdd<B>,
) -> bool {
    forall|x: Vec<B>, y: Vec<B>, c: Option<B>, r: (Vec<B>, B)| #[trigger] call_ensures(*f, (x, y, c), r) ==> (
    r.0@, r.1) == g(x@, y@, c)
}

/// The limb of index `i`: `mh` blocks from block `i * mh`.
pub open spec fn limb<B>(s: Seq<B>, mh: nat, i: nat) -> Seq<B> {
    s.subrange((i * mh) as int, (i * mh + mh) as int)
}

/// The last column of the product of two limbs whose offset is `ofs` blocks:
/// twice the limb width, or what is left below the cut-off.
pub open spec fn relin_cut(cut: nat, mh: nat, ofs: nat) -> nat {
    let rest = if cut >= ofs { (cut - ofs) as nat } else { 0 };
    if 2 * mh < rest { 2 * mh } else { rest }
}

/// The parameters of the split multiplier.
pub struct MhParams<B> {
    /// Blocks per limb.
    pub mh: nat,
    /// Limbs per operand.
    pub sd: nat,
    /// The cut-off block.
    pub cut: nat,
    pub nu: nat,
    pub nu_bool: nat,
    pub zero: B,
}

/// The product limbs gathered by offset (in units of limbs), after the pairs of
/// limbs of `a` before `i` and the first `j` limbs of `b` with limb `i`.
pub open spec fn limb_products<B>(a: Seq<B>, b: Seq<B>, p: MhParams<B>, o: MulOps<B>, i: nat, j: nat) -> Seq<Seq<Seq<B>>>
    decreases i, j,
{
    if j == 0 {
        if i == 0 {
            Seq::new(2 * p.sd, |k: int| Seq::<Seq<B>>::empty())
        } else {
            limb_products(a, b, p, o, (i - 1) as nat, p.sd)
        }
    } else {
        let jj = (j - 1) as nat;
        let prev = limb_products(a, b, p, o, i, jj);
        let ai = limb(a, p.mh, i);
        let bj = limb(b, p.mh, jj);
        let k = (i + jj) as int;
        let r = relin_cut(p.cut, p.mh, ((i + jj) * p.mh) as nat);
        if r > p.mh {
            let low = mul_chain_spec(ai, bj, 0, p.mh, Seq::empty(), p.nu, p.nu_bool, p.zero, o);
            let high = mul_chain_spec(ai, bj, p.mh, r, low.2, p.nu, p.nu_bool, p.zero, o);
            let p1 = prev.update(k, prev[k].push(low.0));
            if high.0.len() > 0 {
                p1.update(k + 1, p1[k + 1].push(high.0))
            } else {
                p1
            }
        } else {
            let cur = mul_chain_spec(ai, bj, 0, r, Seq::empty(), p.nu, p.nu_bool, p.zero, o);
            if cur.0.len() > 0 {
                prev.update(k, prev[k].push(cur.0))
            } else {
                prev
            }
        }
    }
}

/// One pass of the limb adder tree: consecutive pairs summed, each with the last
/// carry in still unused, an odd limb passed through. Returns the next limbs, the
/// carries in left and the carries out.
pub open spec fn pair_pass<B>(st: Seq<Seq<B>>, cin: Seq<B>, g: LimbAdd<B>) -> (Seq<Seq<B>>, Seq<B>, Seq<B>)
    decreases st.len(),
{
    if st.len() < 2 {
        (st, cin, Seq::empty())
    } else {
        let c = if cin.len() > 0 { Some(cin.last()) } else { None };
        let cin2 = if cin.len() > 0 { cin.drop_last() } else { cin };
        let (sum, co) = g(st[0], st[1], c);
        let r = pair_pass(st.skip(2), cin2, g);
        (seq![sum] + r.0, r.1, seq![co] + r.2)
    }
}

/// The number of limbs after a pass.
pub proof fn lemma_pair_pass_len<B>(st: Seq<Seq<B>>, cin: Seq<B>, g: LimbAdd<B>)
    ensures
        pair_pass(st, cin, g).0.len() == (st.len() + 1) / 2,
    decreases st.len(),
{
    if st.len() >= 2 {
        lemma_pair_pass_len(st.skip(2), if cin.len() > 0 { cin.drop_last() } else { cin }, g);
    }
}

/// The limb adder tree: passes until one limb is left. Returns the limbs left,
/// the carries in left and all the carries out.
pub open spec fn tree_reduce<B>(st: Seq<Seq<B>>, cin: Seq<B>, g: LimbAdd<B>) -> (Seq<Seq<B>>, Seq<B>, Seq<B>)
    decreases st.len(),
{
    if st.len() <= 1 {
        (st, cin, Seq::empty())
    } else {
        let p = pair_pass(st, cin, g);
        if p.0.len() < st.len() {
            let t = tree_reduce(p.0, p.1, g);
            (t.0, t.1, p.2 + t.2)
        } else {
            (st, cin, Seq::empty())
        }
    }
}

/// The first offset that holds a limb, from `k` on (0 when none does).
pub open spec fn first_from<B>(ls: Seq<Seq<Seq<B>>>, k: nat) -> nat
    decreases ls.len() - k,
{
    if k >= ls.len() {
        0
    } else if ls[k as int].len() > 0 {
        k
    } else {
        first_from(ls, k + 1)
    }
}

/// The last offset before `k` that holds a limb (0 when none does).
pub open spec fn last_before<B>(ls: Seq<Seq<Seq<B>>>, k: nat) -> nat
    decreases k,
{
    if k == 0 {
        0
    } else if ls[k - 1].len() > 0 {
        (k - 1) as nat
    } else {
        last_before(ls, (k - 1) as nat)
    }
}

/// The state of the limb reduction: limbs not yet consumed, carries waiting by
/// offset, and the output limbs.
pub struct LimbState<B> {
    pub limbs: Seq<Seq<Seq<B>>>,
    pub carry: Seq<Seq<B>>,
    pub dst: Seq<Seq<B>>,
}

/// The reduction of the offsets from `first` to `k`: at each, the limbs are
/// summed by the adder tree with the carries waiting there, the tree's carries
/// wait at the next offset, and the last limb left is the output limb.
pub open spec fn reduce_limbs<B>(ls: Seq<Seq<Seq<B>>>, sd: nat, first: nat, k: nat, g: LimbAdd<B>) -> LimbState<B>
    decreases k,
{
    if k <= first {
        LimbState {
            limbs: ls,
            carry: Seq::new(ls.len() + 1, |c: int| Seq::<B>::empty()),
            dst: Seq::new(sd, |c: int| Seq::<B>::empty()),
        }
    } else {
        let prev = reduce_limbs(ls, sd, first, (k - 1) as nat, g);
        let kk = (k - 1) as int;
        let st = prev.limbs[kk];
        let cin = prev.carry[kk];
        let limbs = prev.limbs.update(kk, Seq::empty());
        let carry = prev.carry.update(kk, Seq::empty());
        if st.len() > 1 {
            let t = tree_reduce(st, cin, g);
            LimbState {
                limbs,
                carry: carry.update(kk + 1, carry[kk + 1] + t.2),
                dst: prev.dst.update(kk, t.0.last()),
            }
        } else {
            LimbState { limbs, carry, dst: prev.dst.update(kk, st.last()) }
        }
    }
}

/// All the blocks of the limbs, by offset then limb.
pub open spec fn flat_limbs<B>(ls: Seq<Seq<Seq<B>>>) -> Seq<B>
    decreases ls.len(),
{
    if ls.len() == 0 {
        Seq::empty()
    } else {
        flat_limbs(ls.drop_last()) + flat(ls.last())
    }
}

/// All the blocks of the sequences, in order.
pub open spec fn flat<B>(s: Seq<Seq<B>>) -> Seq<B>
    decreases s.len(),
{
    if s.len() == 0 {
        Seq::empty()
    } else {
        flat(s.drop_last()) + s.last()
    }
}

/// The offsets that the reduction visits: from the first that holds a limb to
/// the last one, but not past the cut-off.
pub open spec fn visit_range<B>(ls: Seq<Seq<Seq<B>>>, cut: nat) -> (nat, nat) {
    let first = first_from(ls, 0);
    let last = last_before(ls, ls.len());
    (first, if cut < last { cut } else { last })
}

/// The reduction never finds an offset without a limb, nor one past the output.
pub open spec fn mh_plan_ok<B>(a: Seq<B>, b: Seq<B>, p: MhParams<B>, o: MulOps<B>) -> bool {
    let ls = limb_products(a, b, p, o, p.sd, 0);
    let (first, last) = visit_range(ls, p.cut);
    forall|k: int| first <= k <= last ==> k < p.sd && (#[trigger] ls[k]).len() >= 1
}

/// The overflow flag and the output limbs of the split multiplier.
pub open spec fn mh_mul_spec<B>(a: Seq<B>, b: Seq<B>, p: MhParams<B>, o: MulOps<B>, g: LimbAdd<B>) -> (B, Seq<Seq<B>>) {
    let ls = limb_products(a, b, p, o, p.sd, 0);
    let (first, last) = visit_range(ls, p.cut);
    let red = reduce_limbs(ls, p.sd, first, last + 1, g);
    let v = flat(red.carry) + chunk_flags(flat_limbs(red.limbs), p.nu, o);
    (if v.len() == 0 { p.zero } else { merge_flags(v, p.nu_bool, o) }, red.dst)
}

/// The limb adder adds: on limbs of digits and a carry in of 0 or 1, it gives a
/// limb of digits as wide as the wider operand and a carry out, which together
/// are worth the sum of the operands and the carry in.
pub open spec fn adds_limbs(g: LimbAdd<int>) -> bool {
    forall|x: Seq<int>, y: Seq<int>, c: Option<int>|
        all_digits(x) && all_digits(y) && (c matches Some(v) ==> 0 <= v <= 1) ==> {
            let r = #[trigger] g(x, y, c);
            let n = if x.len() < y.len() { y.len() } else { x.len() };
            &&& r.0.len() == n
            &&& all_digits(r.0)
            &&& r.1 >= 0
            &&& digits_at(r.0, 0) + pow(4, n) * r.1 == digits_at(x, 0) + digits_at(y, 0) + (match c {
                Some(v) => v,
                None => 0,
            })
        }
}

proof fn lemma_limb_digits(s: Seq<int>, mh: nat, i: nat)
    requires
        all_digits(s),
        (i + 1) * mh <= s.len(),
    ensures
        all_digits(limb(s, mh, i)),
        limb(s, mh, i).len() == mh,
{
    assert((i + 1) * mh == i * mh + mh) by (nonlinear_arith);
    assert forall|k: int| 0 <= k < limb(s, mh, i).len() implies 0 <= #[trigger] limb(s, mh, i)[k] < 4 by {
        assert(limb(s, mh, i)[k] == s[i * mh + k]);
    }
}

proof fn lemma_flat_limbs_empty<B>(ls: Seq<Seq<Seq<B>>>)
    requires
        forall|k: int| 0 <= k < ls.len() ==> (#[trigger] ls[k]).len() == 0,
    ensures
        flat_limbs(ls) == Seq::<B>::empty(),
    decreases ls.len(),
{
    if ls.len() > 0 {
        lemma_flat_limbs_empty(ls.drop_last());
        assert(ls.last() =~= Seq::<Seq<B>>::empty());
        assert(flat(ls.last()) == Seq::<B>::empty());
        assert(Seq::<B>::empty() + Seq::<B>::empty() =~= Seq::<B>::empty());
    }
}

/// On clear digits, with operands split in two limbs of `mh` blocks each and the
/// cut-off at the product's width of two limbs, the split multiplier gives as
/// first output limb the low limb of the product of the low limbs, as second the
/// sum of the high limb of that product and the low limbs of the two cross
/// products, modulo `4^mh`; and its flag is set exactly when that sum carries out.
/// (The product of the high limbs lies past the cut-off and is left out, and so
/// are the high limbs of the cross products: the links that compute them are not
/// asked for those columns.)
pub proof fn lemma_mh_mul_two_limbs(a: Seq<int>, b: Seq<int>, mh: nat, nu: nat, nu_bool: nat, g: LimbAdd<int>)
    requires
        all_digits(a),
        all_digits(b),
        a.len() == 2 * mh,
        b.len() == 2 * mh,
        mh >= 2,
        2 <= nu <= 5,
        nu_bool >= 2,
        adds_limbs(g),
    ensures
        ({
            let p = MhParams { mh, sd: 2, cut: 2 * mh, nu, nu_bool, zero: 0int };
            let r = mh_mul_spec(a, b, p, clear_mul_ops(), g);
            let a0 = digits_at(limb(a, mh, 0), 0);
            let a1 = digits_at(limb(a, mh, 1), 0);
            let b0 = digits_at(limb(b, mh, 0), 0);
            let b1 = digits_at(limb(b, mh, 1), 0);
            let pm = pow(4, mh);
            let mid = (a0 * b0) / pm + (a0 * b1) % pm + (a1 * b0) % pm;
            &&& r.1.len() == 2
            &&& digits_at(r.1[0], 0) == (a0 * b0) % pm
            &&& digits_at(r.1[1], 0) == mid % pm
            &&& (r.0 != 0) == (mid >= pm)
        }),
{
    let o = clear_mul_ops();
    let p = MhParams { mh, sd: 2, cut: 2 * mh, nu, nu_bool, zero: 0int };
    let la0 = limb(a, mh, 0);
    let la1 = limb(a, mh, 1);
    let lb0 = limb(b, mh, 0);
    let lb1 = limb(b, mh, 1);
    lemma_limb_digits(a, mh, 0);
    lemma_limb_digits(a, mh, 1);
    lemma_limb_digits(b, mh, 0);
    lemma_limb_digits(b, mh, 1);
    lemma_low_link(la0, lb0, mh, nu, nu_bool);
    lemma_high_link(la0, lb0, mh, nu, nu_bool);
    lemma_low_link(la0, lb1, mh, nu, nu_bool);
    lemma_low_link(la1, lb0, mh, nu, nu_bool);
    let low = mul_chain_spec(la0, lb0, 0, mh, Seq::empty(), nu, nu_bool, 0, o);
    let high = mul_chain_spec(la0, lb0, mh, 2 * mh, low.2, nu, nu_bool, 0, o);
    let c01 = mul_chain_spec(la0, lb1, 0, mh, Seq::empty(), nu, nu_bool, 0, o);
    let c10 = mul_chain_spec(la1, lb0, 0, mh, Seq::empty(), nu, nu_bool, 0, o);
    let c11 = mul_chain_spec(la1, lb1, 0, 0, Seq::empty(), nu, nu_bool, 0, o);
    assert(c11.0.len() == 0);
    // the product limbs by offset
    assert(relin_cut(2 * mh, mh, 0) == 2 * mh);
    assert(relin_cut(2 * mh, mh, mh) == mh) by (nonlinear_arith)
        requires
            mh >= 2,
    ;
    assert(relin_cut(2 * mh, mh, 2 * mh) == 0);
    let e00 = limb_products(a, b, p, o, 0, 0);
    let e01 = limb_products(a, b, p, o, 0, 1);
    let e02 = limb_products(a, b, p, o, 0, 2);
    let e11 = limb_products(a, b, p, o, 1, 1);
    let e12 = limb_products(a, b, p, o, 1, 2);
    let ls = limb_products(a, b, p, o, 2, 0);
    assert(e00.len() == 4 && e00[0].len() == 0 && e00[1].len() == 0 && e00[2].len() == 0 && e00[3].len() == 0);
    assert(((0 + 0) * mh) as nat == 0);
    assert(e01 == e00.update(0, e00[0].push(low.0)).update(1, e00.update(0, e00[0].push(low.0))[1].push(high.0)));
    assert(e01[0] =~= seq![low.0] && e01[1] =~= seq![high.0] && e01[2].len() == 0 && e01[3].len() == 0);
    assert(((0 + 1) * mh) as nat == mh);
    assert(e02 == e01.update(1, e01[1].push(c01.0)));
    assert(e02[1] =~= seq![high.0, c01.0]);
    assert(limb_products(a, b, p, o, 1, 0) == e02);
    assert(((1 + 0) * mh) as nat == mh);
    assert(e11 == e02.update(1, e02[1].push(c10.0)));
    assert(e11[1] =~= seq![high.0, c01.0, c10.0]);
    assert(((1 + 1) * mh) as nat == 2 * mh);
    assert(e12 == e11);
    assert(ls == e12);
    assert(ls.len() == 4 && ls[0] =~= seq![low.0] && ls[1] =~= seq![high.0, c01.0, c10.0] && ls[2].len() == 0
        && ls[3].len() == 0);
    // the offsets visited
    assert(first_from(ls, 0) == 0);
    assert(last_before(ls, 2) == 1);
    assert(last_before(ls, 3) == 1);
    assert(last_before(ls, 4) == 1);
    assert(visit_range(ls, 2 * mh) == (0nat, 1nat));
    // the reduction
    let st0 = reduce_limbs(ls, 2, 0, 0, g);
    let st1 = reduce_limbs(ls, 2, 0, 1, g);
    let st2 = reduce_limbs(ls, 2, 0, 2, g);
    assert(st1.limbs == ls.update(0, Seq::empty()));
    assert(st1.carry == st0.carry.update(0, Seq::empty()));
    assert(st1.dst == st0.dst.update(0, low.0));
    let s1r = g(high.0, c01.0, None);
    let s2r = g(s1r.0, c10.0, None);
    let stage = seq![high.0, c01.0, c10.0];
    assert(stage[0] == high.0 && stage[1] == c01.0 && stage.skip(2) =~= seq![c10.0]);
    let pp1 = pair_pass(stage, Seq::empty(), g);
    assert(pair_pass(seq![c10.0], Seq::<int>::empty(), g) == (seq![c10.0], Seq::<int>::empty(), Seq::<int>::empty()));
    assert(pp1 == (seq![s1r.0] + seq![c10.0], Seq::<int>::empty(), seq![s1r.1] + Seq::<int>::empty()));
    let n2 = seq![s1r.0, c10.0];
    assert(pp1.0 =~= n2);
    assert(n2[0] == s1r.0 && n2[1] == c10.0 && n2.skip(2) =~= Seq::<Seq<int>>::empty());
    assert(pair_pass(Seq::<Seq<int>>::empty(), Seq::<int>::empty(), g) == (Seq::<Seq<int>>::empty(), Seq::<int>::empty(), Seq::<int>::empty()));
    let pp2 = pair_pass(n2, Seq::empty(), g);
    assert(pp2 == (seq![s2r.0] + Seq::<Seq<int>>::empty(), Seq::<int>::empty(), seq![s2r.1] + Seq::<int>::empty()));
    assert(pp2.0 =~= seq![s2r.0]);
    let tr2 = tree_reduce(n2, Seq::empty(), g);
    assert(tree_reduce(seq![s2r.0], Seq::<int>::empty(), g) == (seq![s2r.0], Seq::<int>::empty(), Seq::<int>::empty()));
    assert(tr2 == (seq![s2r.0], Seq::<int>::empty(), seq![s2r.1] + Seq::<int>::empty()));
    let tr = tree_reduce(stage, Seq::empty(), g);
    assert(tr.0 == seq![s2r.0]);
    assert(tr.2 =~= seq![s1r.1, s2r.1]);
    assert(st1.limbs[1] == stage);
    assert(st1.carry[1].len() == 0);
    assert(st1.carry[1] =~= Seq::<int>::empty());
    assert(st2.dst == st1.dst.update(1, tr.0.last()));
    let cr = st1.carry.update(1, Seq::empty());
    assert(st2.carry == cr.update(2, cr[2] + tr.2));
    assert(st2.carry =~= seq![Seq::<int>::empty(), Seq::<int>::empty(), seq![s1r.1, s2r.1], Seq::<int>::empty(), Seq::<int>::empty()]);
    assert(st2.limbs =~= seq![Seq::<Seq<int>>::empty(), Seq::<Seq<int>>::empty(), Seq::<Seq<int>>::empty(), Seq::<Seq<int>>::empty()]) by {
        assert(st2.limbs == st1.limbs.update(1, Seq::empty()));
    }
    lemma_flat_limbs_empty(st2.limbs);
    // the carries left and the flag
    let cs = st2.carry;
    assert(cs.drop_last().drop_last().drop_last().drop_last().drop_last() =~= Seq::<Seq<int>>::empty());
    assert(flat(cs) =~= seq![s1r.1, s2r.1]) by {
        let c4 = cs.drop_last();
        let c3 = c4.drop_last();
        let c2 = c3.drop_last();
        let c1 = c2.drop_last();
        let c0 = c1.drop_last();
        assert(flat(c0) == Seq::<int>::empty());
        assert(flat(c1) =~= Seq::<int>::empty());
        assert(flat(c2) =~= Seq::<int>::empty());
        assert(flat(c3) =~= seq![s1r.1, s2r.1]);
        assert(flat(c4) =~= seq![s1r.1, s2r.1]);
    }
    assert(chunk_flags(Seq::<int>::empty(), nu, o) == Seq::<int>::empty());
    let v = seq![s1r.1, s2r.1];
    assert(flat(cs) + chunk_flags(flat_limbs(st2.limbs), nu, o) =~= v);
    assert(v.drop_last() =~= seq![s1r.1]);
    assert(sum_left(seq![s1r.1], o) == s1r.1);
    assert(v.last() == s2r.1);
    assert(sum_left(v, o) == (o.add)(sum_left(v.drop_last(), o), v.last()));
    assert(sum_left(v, o) == s1r.1 + s2r.1);
    let nx = chunk_flags(v, nu_bool, o);
    assert(nx == seq![(o.lut)(sum_left(v, o), MulLut::IsSome)]);
    assert(merge_flags(v, nu_bool, o) == merge_flags(nx, nu_bool, o));
    let r = mh_mul_spec(a, b, p, o, g);
    assert(r.0 == (if s1r.1 + s2r.1 != 0 { 1int } else { 0int }));
    // the adder
    let pm = pow(4, mh);
    lemma_digits_at_bound(s1r.0);
    lemma_digits_at_bound(s2r.0);
    let hv = digits_at(high.0, 0);
    let v01 = digits_at(c01.0, 0);
    let v10 = digits_at(c10.0, 0);
    let s1v = digits_at(s1r.0, 0);
    let s2v = digits_at(s2r.0, 0);
    assert(s1v + pm * s1r.1 == hv + v01);
    assert(s2v + pm * s2r.1 == s1v + v10);
    vstd::arithmetic::power::lemma_pow_positive(4, mh);
    lemma_digits_at_bound(high.0);
    lemma_digits_at_bound(c01.0);
    lemma_digits_at_bound(c10.0);
    let c1 = s1r.1;
    let c2 = s2r.1;
    assert((c1 + c2 != 0) == (hv + v01 + v10 >= pm)) by (nonlinear_arith)
        requires
            s1v + pm * c1 == hv + v01,
            s2v + pm * c2 == s1v + v10,
            0 <= s1v < pm,
            0 <= s2v < pm,
            c1 >= 0,
            c2 >= 0,
            0 <= hv < pm,
            0 <= v01 < pm,
            0 <= v10 < pm,
    ;
    assert(hv + v01 + v10 == s2v + pm * (c1 + c2)) by (nonlinear_arith)
        requires
            s1v + pm * c1 == hv + v01,
            s2v + pm * c2 == s1v + v10,
    ;
    vstd::arithmetic::div_mod::lemma_fundamental_div_mod_converse(hv + v01 + v10, pm, c1 + c2, s2v);
    assert(r.1 == st2.dst);
    assert(r.1[1] == s2r.0);
    assert(r.1[0] == low.0);
}

/// The contents of each vector of vectors of `ls`.
pub open spec fn limb_views<B>(ls: Seq<Vec<Vec<B>>>) -> Seq<Seq<Seq<B>>> {
    Seq::new(ls.len(), |k: int| col_views(ls[k]@))
}

/// The blocks of `s` from `lo` to `hi`.
fn copy_range<B: Copy>(s: &[B], lo: usize, hi: usize) -> (r: Vec<B>)
    requires
        lo <= hi <= s@.len(),
    ensures
        r@ == s@.subrange(lo as int, hi as int),
{
    let mut out: Vec<B> = Vec::new();
    let mut i = lo;
    while i < hi
        invariant
            lo <= i <= hi <= s@.len(),
            out@ == s@.subrange(lo as int, i as int),
        decreases hi - i,
    {
        out.push(s[i]);
        i = i + 1;
        proof {
            assert(out@ =~= s@.subrange(lo as int, i as int));
        }
    }
    out
}

/// The product limbs of every pair of limbs, by offset.
fn limb_products_exec<B: Copy, FA: Fn(B, B) -> B, FP: Fn(B, B) -> B, FL: Fn(B, MulLut) -> B>(
    a: &[B],
    b: &[B],
    mh: usize,
    sd: usize,
    cut: usize,
    nu: usize,
    nu_bool: usize,
    zero: B,
    ops: &MulCalls<FA, FP, FL>,
) -> (r: Vec<Vec<Vec<B>>>)
    requires
        mul_total::<B, FA, FP, FL>(ops),
        sd >= 1,
        mh >= 1,
        a@.len() == sd * mh,
        b@.len() == sd * mh,
        a@.len() <= usize::MAX / 4,
        nu >= 1,
        nu_bool >= 2,
    ensures
        r@.len() == 2 * sd,
        forall|o: MulOps<B>| #[trigger] mul_implements::<B, FA, FP, FL>(ops, o) ==> limb_views(r@) == limb_products(
            a@,
            b@,
            MhParams { mh: mh as nat, sd: sd as nat, cut: cut as nat, nu: nu as nat, nu_bool: nu_bool as nat, zero },
            o,
            sd as nat,
            0,
        ),
{
    let ghost p = MhParams { mh: mh as nat, sd: sd as nat, cut: cut as nat, nu: nu as nat, nu_bool: nu_bool as nat, zero };
    let mut ls: Vec<Vec<Vec<B>>> = Vec::new();
    proof {
        assert(sd <= sd * mh) by (nonlinear_arith)
            requires
                mh >= 1,
        ;
        assert(mh <= sd * mh) by (nonlinear_arith)
            requires
                sd >= 1,
        ;
    }
    let mut c: usize = 0;
    while c < 2 * sd
        invariant
            c <= 2 * sd,
            a@.len() == sd * mh,
            a@.len() <= usize::MAX / 4,
            sd >= 1,
            mh >= 1,
            sd <= sd * mh,
            ls@.len() == c,
            forall|k: int| 0 <= k < c ==> (#[trigger] ls@[k])@ == Seq::<Vec<B>>::empty(),
        decreases 2 * sd - c,
    {
        ls.push(Vec::new());
        c = c + 1;
    }
    proof {
        assert forall|o: MulOps<B>| #[trigger] mul_implements::<B, FA, FP, FL>(ops, o) implies limb_views(ls@)
            == limb_products(a@, b@, p, o, 0, 0) by {
            let e = limb_products(a@, b@, p, o, 0, 0);
            assert forall|k: int| 0 <= k < ls@.len() implies #[trigger] limb_views(ls@)[k] == e[k] by {
                assert(ls@[k]@ == Seq::<Vec<B>>::empty());
                assert(col_views(ls@[k]@) =~= Seq::<Seq<B>>::empty());
            }
            assert(limb_views(ls@) =~= e);
        }
    }
    let mut i: usize = 0;
    while i < sd
        invariant
            i <= sd,
            sd >= 1,
            mh >= 1,
            sd <= sd * mh,
            mh <= sd * mh,
            a@.len() == sd * mh,
            b@.len() == sd * mh,
            a@.len() <= usize::MAX / 4,
            nu >= 1,
            nu_bool >= 2,
            ls@.len() == 2 * sd,
            p == (MhParams { mh: mh as nat, sd: sd as nat, cut: cut as nat, nu: nu as nat, nu_bool: nu_bool as nat, zero }),
            mul_total::<B, FA, FP, FL>(ops),
            forall|o: MulOps<B>| #[trigger] mul_implements::<B, FA, FP, FL>(ops, o) ==> limb_views(ls@)
                == limb_products(a@, b@, p, o, i as nat, 0),
        decreases sd - i,
    {
        proof {
            assert((i + 1) * mh <= sd * mh) by (nonlinear_arith)
                requires
                    i < sd,
            ;
            assert(i * mh + mh == (i + 1) * mh) by (nonlinear_arith);
        }
        let ai = copy_range(a, i * mh, i * mh + mh);
        let mut j: usize = 0;
        while j < sd
            invariant
                i < sd,
                j <= sd,
                sd >= 1,
                mh >= 1,
                sd <= sd * mh,
                mh <= sd * mh,
                a@.len() == sd * mh,
                b@.len() == sd * mh,
                a@.len() <= usize::MAX / 4,
                nu >= 1,
                nu_bool >= 2,
                ls@.len() == 2 * sd,
                ai@ == limb(a@, mh as nat, i as nat),
                p == (MhParams { mh: mh as nat, sd: sd as nat, cut: cut as nat, nu: nu as nat, nu_bool: nu_bool as nat, zero }),
                mul_total::<B, FA, FP, FL>(ops),
                forall|o: MulOps<B>| #[trigger] mul_implements::<B, FA, FP, FL>(ops, o) ==> limb_views(ls@)
                    == limb_products(a@, b@, p, o, i as nat, j as nat),
            decreases sd - j,
        {
            proof {
                assert((j + 1) * mh <= sd * mh) by (nonlinear_arith)
                    requires
                        j < sd,
                ;
                assert(j * mh + mh == (j + 1) * mh) by (nonlinear_arith);
                assert((i + j) * mh <= 2 * (sd * mh)) by (nonlinear_arith)
                    requires
                        i < sd,
                        j < sd,
                ;
            }
            let bj = copy_range(b, j * mh, j * mh + mh);
            assert(sd * mh <= usize::MAX / 4);
            assert(i + j + 1 < 2 * sd);
            let ofs = (i + j) * mh;
            let rest = if cut >= ofs { cut - ofs } else { 0 };
            let r = if 2 * mh < rest { 2 * mh } else { rest };
            let k = i + j;
            let ghost old_ls = ls@;
            if r > mh {
                let (low, _f0, lc) = limb_mul_chain_plan(ai.as_slice(), bj.as_slice(), 0, mh, Vec::new(), nu, nu_bool, zero, ops);
                let ghost lc0 = lc@;
                let (high, _f1, _c1) = limb_mul_chain_plan(ai.as_slice(), bj.as_slice(), mh, r, lc, nu, nu_bool, zero, ops);
                let ghost low0 = low@;
                let ghost high0 = high@;
                let nonempty = high.len() > 0;
                ls[k].push(low);
                let ghost mid = ls@;
                if nonempty {
                    ls[k + 1].push(high);
                }
                proof {
                    assert forall|o: MulOps<B>| #[trigger] mul_implements::<B, FA, FP, FL>(ops, o) implies limb_views(ls@)
                        == limb_products(a@, b@, p, o, i as nat, (j + 1) as nat) by {
                        let prev = limb_products(a@, b@, p, o, i as nat, j as nat);
                        assert(limb_views(old_ls) == prev);
                        assert(old_ls[k as int]@.len() == prev[k as int].len());
                        assert(col_views(old_ls[k as int]@) == prev[k as int]);
                        assert(col_views(old_ls[k + 1]@) == prev[k + 1]);
                        assert(col_views(mid[k as int]@) =~= prev[k as int].push(low0));
                        let p1 = prev.update(k as int, prev[k as int].push(low0));
                        if nonempty {
                            assert(col_views(ls@[k + 1]@) =~= p1[k + 1].push(high0));
                            assert(limb_views(ls@) =~= p1.update(k + 1, p1[k + 1].push(high0)));
                        } else {
                            assert(limb_views(ls@) =~= p1);
                        }
                    }
                }
            } else {
                let (cur, _f, _c) = limb_mul_chain_plan(ai.as_slice(), bj.as_slice(), 0, r, Vec::new(), nu, nu_bool, zero, ops);
                let ghost cur0 = cur@;
                if cur.len() > 0 {
                    ls[k].push(cur);
                }
                proof {
                    assert forall|o: MulOps<B>| #[trigger] mul_implements::<B, FA, FP, FL>(ops, o) implies limb_views(ls@)
                        == limb_products(a@, b@, p, o, i as nat, (j + 1) as nat) by {
                        let prev = limb_products(a@, b@, p, o, i as nat, j as nat);
                        assert(limb_views(old_ls) == prev);
                        assert(col_views(old_ls[k as int]@) == prev[k as int]);
                        if cur0.len() > 0 {
                            assert(col_views(ls@[k as int]@) =~= prev[k as int].push(cur0));
                            assert(limb_views(ls@) =~= prev.update(k as int, prev[k as int].push(cur0)));
                        } else {
                            assert(limb_views(ls@) =~= prev);
                        }
                    }
                }
            }
            j = j + 1;
        }
        i = i + 1;
    }
    ls
}

/// A copy of `v`.
pub(crate) fn copy_vec<B: Copy>(v: &Vec<B>) -> (r: Vec<B>)
    ensures
        r@ == v@,
{
    let mut out: Vec<B> = Vec::new();
    let mut i: usize = 0;
    while i < v.len()
        invariant
            i <= v@.len(),
            out@ == v@.take(i as int),
        decreases v@.len() - i,
    {
        out.push(v[i]);
        i = i + 1;
        proof {
            assert(out@ =~= v@.take(i as int));
        }
    }
    proof {
        assert(v@.take(i as int) =~= v@);
    }
    out
}

/// One pass of the limb adder tree.
fn pair_pass_exec<B: Copy, FL2: Fn(Vec<B>, Vec<B>, Option<B>) -> (Vec<B>, B)>(
    st: &Vec<Vec<B>>,
    cin: Vec<B>,
    add_limbs: &FL2,
) -> (r: (Vec<Vec<B>>, Vec<B>, Vec<B>))
    requires
        limb_add_total::<B, FL2>(add_limbs),
    ensures
        r.0@.len() == (st@.len() + 1) / 2,
        forall|g: LimbAdd<B>| #[trigger] limb_add_implements::<B, FL2>(add_limbs, g) ==> (col_views(r.0@), r.1@, r.2@)
            == pair_pass(col_views(st@), cin@, g),
{
    let ghost s0 = col_views(st@);
    let ghost c0 = cin@;
    let n = st.len();
    let mut cin = cin;
    let mut next: Vec<Vec<B>> = Vec::new();
    let mut couts: Vec<B> = Vec::new();
    let mut idx: usize = 0;
    proof {
        assert(s0.skip(0) =~= s0);
        assert forall|g: LimbAdd<B>| #[trigger] limb_add_implements::<B, FL2>(add_limbs, g) implies ({
            let rest = pair_pass(s0.skip(0), c0, g);
            (col_views(next@) + rest.0, rest.1, couts@ + rest.2) == pair_pass(s0, c0, g)
        }) by {
            let rest = pair_pass(s0, c0, g);
            assert(col_views(next@) + rest.0 =~= rest.0);
            assert(couts@ + rest.2 =~= rest.2);
        }
    }
    while idx + 1 < n
        invariant
            n == st@.len(),
            s0 == col_views(st@),
            idx <= n,
            idx % 2 == 0,
            next@.len() == idx / 2,
            limb_add_total::<B, FL2>(add_limbs),
            forall|g: LimbAdd<B>| #[trigger] limb_add_implements::<B, FL2>(add_limbs, g) ==> ({
                let rest = pair_pass(s0.skip(idx as int), cin@, g);
                (col_views(next@) + rest.0, rest.1, couts@ + rest.2) == pair_pass(s0, c0, g)
            }),
        decreases n - idx,
    {
        let ghost old_next = next@;
        let ghost old_couts = couts@;
        let ghost old_cin = cin@;
        let x = copy_vec(&st[idx]);
        let y = copy_vec(&st[idx + 1]);
        let c = cin.pop();
        let (sum, co) = add_limbs(x, y, c);
        let ghost sum0 = sum@;
        next.push(sum);
        couts.push(co);
        idx = idx + 2;
        proof {
            assert forall|g: LimbAdd<B>| #[trigger] limb_add_implements::<B, FL2>(add_limbs, g) implies ({
                let rest = pair_pass(s0.skip(idx as int), cin@, g);
                (col_views(next@) + rest.0, rest.1, couts@ + rest.2) == pair_pass(s0, c0, g)
            }) by {
                let here = s0.skip(idx - 2);
                assert(here[0] == s0[idx - 2]);
                assert(here[1] == s0[idx - 1]);
                assert(here.skip(2) =~= s0.skip(idx as int));
                assert((sum0, co) == g(x@, y@, c));
                let rest = pair_pass(s0.skip(idx as int), cin@, g);
                assert(col_views(next@) =~= col_views(old_next).push(sum0));
                assert(col_views(next@) + rest.0 =~= col_views(old_next) + (seq![sum0] + rest.0));
                assert(couts@ + rest.2 =~= old_couts + (seq![co] + rest.2));
            }
        }
    }
    if idx < n {
        let x = copy_vec(&st[idx]);
        let ghost x0 = x@;
        let ghost old_next = next@;
        next.push(x);
        idx = idx + 1;
        proof {
            assert forall|g: LimbAdd<B>| #[trigger] limb_add_implements::<B, FL2>(add_limbs, g) implies ({
                let rest = pair_pass(s0.skip(idx as int), cin@, g);
                (col_views(next@) + rest.0, rest.1, couts@ + rest.2) == pair_pass(s0, c0, g)
            }) by {
                let here = s0.skip(idx - 1);
                assert(here =~= seq![x0]);
                assert(s0.skip(idx as int) =~= Seq::<Seq<B>>::empty());
                let rest = pair_pass(s0.skip(idx as int), cin@, g);
                assert(col_views(next@) + rest.0 =~= col_views(old_next) + seq![x0]);
                assert(couts@ + rest.2 =~= couts@);
            }
        }
    }
    proof {
        assert forall|g: LimbAdd<B>| #[trigger] limb_add_implements::<B, FL2>(add_limbs, g) implies (col_views(next@), cin@, couts@)
            == pair_pass(s0, c0, g) by {
            assert(s0.skip(n as int) =~= Seq::<Seq<B>>::empty());
            let rest = pair_pass(s0.skip(n as int), cin@, g);
            assert(col_views(next@) + rest.0 =~= col_views(next@));
            assert(couts@ + rest.2 =~= couts@);
        }
    }
    (next, cin, couts)
}

/// The limb adder tree.
fn tree_reduce_exec<B: Copy, FL2: Fn(Vec<B>, Vec<B>, Option<B>) -> (Vec<B>, B)>(
    st: Vec<Vec<B>>,
    cin: Vec<B>,
    add_limbs: &FL2,
) -> (r: (Vec<Vec<B>>, Vec<B>, Vec<B>))
    requires
        limb_add_total::<B, FL2>(add_limbs),
    ensures
        st@.len() >= 1 ==> r.0@.len() >= 1,
        forall|g: LimbAdd<B>| #[trigger] limb_add_implements::<B, FL2>(add_limbs, g) ==> (col_views(r.0@), r.1@, r.2@)
            == tree_reduce(col_views(st@), cin@, g),
{
    let ghost s0 = col_views(st@);
    let ghost c0 = cin@;
    let ghost n0 = st@.len();
    let mut st = st;
    let mut cin = cin;
    let mut couts: Vec<B> = Vec::new();
    proof {
        assert forall|g: LimbAdd<B>| #[trigger] limb_add_implements::<B, FL2>(add_limbs, g) implies ({
            let t = tree_reduce(col_views(st@), cin@, g);
            (t.0, t.1, couts@ + t.2) == tree_reduce(s0, c0, g)
        }) by {
            let t = tree_reduce(s0, c0, g);
            assert(couts@ + t.2 =~= t.2);
        }
    }
    while st.len() > 1
        invariant
            n0 >= 1 ==> st@.len() >= 1,
            limb_add_total::<B, FL2>(add_limbs),
            forall|g: LimbAdd<B>| #[trigger] limb_add_implements::<B, FL2>(add_limbs, g) ==> ({
                let t = tree_reduce(col_views(st@), cin@, g);
                (t.0, t.1, couts@ + t.2) == tree_reduce(s0, c0, g)
            }),
        decreases st@.len(),
    {
        let ghost old_st = col_views(st@);
        let ghost old_cin = cin@;
        let ghost old_couts = couts@;
        let (next, cin2, mut co) = pair_pass_exec(&st, cin, add_limbs);
        let ghost co0 = co@;
        couts.append(&mut co);
        st = next;
        cin = cin2;
        proof {
            assert forall|g: LimbAdd<B>| #[trigger] limb_add_implements::<B, FL2>(add_limbs, g) implies ({
                let t = tree_reduce(col_views(st@), cin@, g);
                (t.0, t.1, couts@ + t.2) == tree_reduce(s0, c0, g)
            }) by {
                lemma_pair_pass_len(old_st, old_cin, g);
                let t = tree_reduce(col_views(st@), cin@, g);
                assert(couts@ + t.2 =~= old_couts + (co0 + t.2));
            }
        }
    }
    (st, cin, couts)
}

/// All the blocks of the vectors of `v`, in order.
fn flat_exec<B: Copy>(v: &Vec<Vec<B>>) -> (r: Vec<B>)
    ensures
        r@ == flat(col_views(v@)),
{
    let mut out: Vec<B> = Vec::new();
    let mut i: usize = 0;
    while i < v.len()
        invariant
            i <= v@.len(),
            out@ == flat(col_views(v@).take(i as int)),
        decreases v@.len() - i,
    {
        let mut x = copy_vec(&v[i]);
        out.append(&mut x);
        i = i + 1;
        proof {
            assert(col_views(v@).take(i as int).drop_last() =~= col_views(v@).take(i - 1));
        }
    }
    proof {
        assert(col_views(v@).take(i as int) =~= col_views(v@));
    }
    out
}

/// All the blocks of the limbs of `ls`, by offset then limb.
fn flat_limbs_exec<B: Copy>(ls: &Vec<Vec<Vec<B>>>) -> (r: Vec<B>)
    ensures
        r@ == flat_limbs(limb_views(ls@)),
{
    let mut out: Vec<B> = Vec::new();
    let mut i: usize = 0;
    while i < ls.len()
        invariant
            i <= ls@.len(),
            out@ == flat_limbs(limb_views(ls@).take(i as int)),
        decreases ls@.len() - i,
    {
        let mut x = flat_exec(&ls[i]);
        out.append(&mut x);
        i = i + 1;
        proof {
            assert(limb_views(ls@).take(i as int).drop_last() =~= limb_views(ls@).take(i - 1));
        }
    }
    proof {
        assert(limb_views(ls@).take(i as int) =~= limb_views(ls@));
    }
    out
}

/// The product of `a` and `b`, each split into `split_depth` limbs: the overflow
/// flag and the output limbs, the first `cut_off` blocks of the product. The
/// product of each pair of limbs is computed by one link of the schoolbook
/// multiplier, or two when it straddles the limb width; the limbs of each offset
/// are summed by a tree of `add_limbs`, whose carries feed the next offset; the
/// flag merges the carries left and whether the limbs past the cut-off are not
/// zero (`zero` when there is none of them).
pub fn mh_mul_plan<
    B: Copy,
    FA: Fn(B, B) -> B,
    FP: Fn(B, B) -> B,
    FL: Fn(B, MulLut) -> B,
    FL2: Fn(Vec<B>, Vec<B>, Option<B>) -> (Vec<B>, B),
>(
    a: &[B],
    b: &[B],
    cut_off: usize,
    split_depth: usize,
    nu: usize,
    nu_bool: usize,
    zero: B,
    ops: &MulCalls<FA, FP, FL>,
    add_limbs: &FL2,
) -> (r: (B, Vec<Vec<B>>))
    requires
        mul_total::<B, FA, FP, FL>(ops),
        limb_add_total::<B, FL2>(add_limbs),
        a@.len() == b@.len(),
        1 <= a@.len() <= usize::MAX / 4,
        split_depth >= 1,
        a@.len() % (split_depth as nat) == 0,
        nu >= 1,
        nu_bool >= 2,
        forall|o: MulOps<B>| #[trigger] mul_implements::<B, FA, FP, FL>(ops, o) ==> mh_plan_ok(
            a@,
            b@,
            MhParams {
                mh: a@.len() / (split_depth as nat),
                sd: split_depth as nat,
                cut: cut_off as nat,
                nu: nu as nat,
                nu_bool: nu_bool as nat,
                zero,
            },
            o,
        ),
    ensures
        r.1@.len() == split_depth,
        forall|o: MulOps<B>, g: LimbAdd<B>|
            #![trigger mul_implements::<B, FA, FP, FL>(ops, o), limb_add_implements::<B, FL2>(add_limbs, g)]
            mul_implements::<B, FA, FP, FL>(ops, o) && limb_add_implements::<B, FL2>(add_limbs, g) ==> (r.0, col_views(
                r.1@,
            )) == mh_mul_spec(
                a@,
                b@,
                MhParams {
                    mh: a@.len() / (split_depth as nat),
                    sd: split_depth as nat,
                    cut: cut_off as nat,
                    nu: nu as nat,
                    nu_bool: nu_bool as nat,
                    zero,
                },
                o,
                g,
            ),
{
    let n = a.len();
    let sd = split_depth;
    let mh = n / sd;
    proof {
        assert(n == sd * mh) by (nonlinear_arith)
            requires
                n % sd == 0,
                mh == n / sd,
                sd >= 1,
        ;
        assert(mh >= 1) by (nonlinear_arith)
            requires
                n == sd * mh,
                n >= 1,
        ;
        assert(sd <= n) by (nonlinear_arith)
            requires
                n == sd * mh,
                mh >= 1,
        ;
    }
    let ghost p = MhParams { mh: mh as nat, sd: sd as nat, cut: cut_off as nat, nu: nu as nat, nu_bool: nu_bool as nat, zero };
    let mut limbs = limb_products_exec(a, b, mh, sd, cut_off, nu, nu_bool, zero, ops);
    let ghost limbs0 = limbs@;
    let len = limbs.len();
    // The first offset that holds a limb.
    let mut first: usize = 0;
    let mut found = false;
    while first < len && !found
        invariant
            len == limbs0.len(),
            limbs@ == limbs0,
            first <= len,
            found ==> first < len && limbs0[first as int]@.len() > 0,
            first_from(limb_views(limbs0), 0) == first_from(limb_views(limbs0), first as nat),
        decreases len - first + (if found { 0int } else { 1int }),
    {
        if limbs[first].len() > 0 {
            found = true;
        } else {
            assert(limb_views(limbs0)[first as int].len() == 0);
            first = first + 1;
        }
    }
    if !found {
        first = 0;
    } else {
        assert(limb_views(limbs0)[first as int].len() > 0);
    }
    // The last offset that holds a limb.
    let mut top: usize = len;
    let mut last: usize = 0;
    let mut found_last = false;
    while top > 0 && !found_last
        invariant
            len == limbs0.len(),
            limbs@ == limbs0,
            top <= len,
            found_last ==> last < len && limbs0[last as int]@.len() > 0 && last_before(limb_views(limbs0), len as nat) == last,
            !found_last ==> last == 0 && last_before(limb_views(limbs0), len as nat) == last_before(limb_views(limbs0), top as nat),
        decreases top + (if found_last { 0int } else { 1int }),
    {
        if limbs[top - 1].len() > 0 {
            assert(limb_views(limbs0)[top - 1].len() > 0);
            last = top - 1;
            found_last = true;
        } else {
            assert(limb_views(limbs0)[top - 1].len() == 0);
            top = top - 1;
        }
    }
    if cut_off < last {
        last = cut_off;
    }
    let ghost lv = limb_views(limbs0);
    assert(lv.len() == len);
    assert(first == first_from(lv, 0));
    assert(last == visit_range(lv, cut_off as nat).1);
    let mut carry: Vec<Vec<B>> = Vec::new();
    let mut c: usize = 0;
    while c <= len
        invariant
            c <= len + 1,
            len == limbs0.len(),
            len < usize::MAX,
            carry@.len() == c,
            forall|q: int| 0 <= q < c ==> (#[trigger] carry@[q])@ == Seq::<B>::empty(),
        decreases len + 1 - c,
    {
        carry.push(Vec::new());
        c = c + 1;
    }
    let mut dst: Vec<Vec<B>> = Vec::new();
    let mut d: usize = 0;
    while d < sd
        invariant
            d <= sd,
            dst@.len() == d,
            forall|q: int| 0 <= q < d ==> (#[trigger] dst@[q])@ == Seq::<B>::empty(),
        decreases sd - d,
    {
        dst.push(Vec::new());
        d = d + 1;
    }
    proof {
        assert forall|g: LimbAdd<B>| #[trigger] limb_add_implements::<B, FL2>(add_limbs, g) implies ({
            let st = reduce_limbs(lv, sd as nat, first as nat, first as nat, g);
            st.limbs == limb_views(limbs@) && st.carry == col_views(carry@) && st.dst == col_views(dst@)
        }) by {
            let st = reduce_limbs(lv, sd as nat, first as nat, first as nat, g);
            assert(st.carry =~= col_views(carry@));
            assert(st.dst =~= col_views(dst@));
        }
    }
    let mut k: usize = first;
    while k <= last
        invariant
            len == limbs0.len(),
            lv == limb_views(limbs0),
            limbs@.len() == len,
            carry@.len() == len + 1,
            dst@.len() == sd,
            first <= k,
            last < len,
            k <= last + 1 || k == first,
            lv.len() == len,
            p == (MhParams { mh: mh as nat, sd: sd as nat, cut: cut_off as nat, nu: nu as nat, nu_bool: nu_bool as nat, zero }),
            p.mh == a@.len() / (split_depth as nat),
            sd == split_depth,
            first == visit_range(lv, cut_off as nat).0,
            last == visit_range(lv, cut_off as nat).1,
            forall|o: MulOps<B>| #[trigger] mul_implements::<B, FA, FP, FL>(ops, o) ==> lv == limb_products(a@, b@, p, o, sd as nat, 0),
            forall|o: MulOps<B>| #[trigger] mul_implements::<B, FA, FP, FL>(ops, o) ==> mh_plan_ok(a@, b@, p, o),
            limb_add_total::<B, FL2>(add_limbs),
            forall|q: int| k <= q < len ==> #[trigger] limbs@[q] == limbs0[q],
            forall|g: LimbAdd<B>| #[trigger] limb_add_implements::<B, FL2>(add_limbs, g) ==> ({
                let st = reduce_limbs(lv, sd as nat, first as nat, k as nat, g);
                st.limbs == limb_views(limbs@) && st.carry == col_views(carry@) && st.dst == col_views(dst@)
            }),
        decreases last + 1 - k,
    {
        if k >= sd || limbs[k].len() == 0 {
            // Unreachable where the closures compute functions: the plan is then valid.
            proof {
                assert forall|o: MulOps<B>, g: LimbAdd<B>|
                    #![trigger mul_implements::<B, FA, FP, FL>(ops, o), limb_add_implements::<B, FL2>(add_limbs, g)]
                    mul_implements::<B, FA, FP, FL>(ops, o) && limb_add_implements::<B, FL2>(add_limbs, g) implies (zero, col_views(
                        dst@,
                    )) == mh_mul_spec(a@, b@, p, o, g) by {
                    assert(mh_plan_ok(a@, b@, p, o));
                    assert(k <= last);
                    assert(lv[k as int].len() >= 1);
                    assert(limbs@[k as int] == limbs0[k as int]);
                    assert(lv[k as int].len() == limbs0[k as int]@.len());
                }
            }
            return (zero, dst);
        }
        let ghost old_limbs = limbs@;
        let ghost old_carry = carry@;
        let ghost old_dst = dst@;
        let mut st: Vec<Vec<B>> = Vec::new();
        std::mem::swap(&mut st, &mut limbs[k]);
        let mut cin: Vec<B> = Vec::new();
        std::mem::swap(&mut cin, &mut carry[k]);
        let ghost st0 = col_views(st@);
        let ghost cin0 = cin@;
        assert(st@ == old_limbs[k as int]@);
        assert(cin@ == old_carry[k as int]@);
        assert(limbs@.len() == old_limbs.len() && limbs@[k as int]@ == Seq::<Vec<B>>::empty());
        assert(forall|q: int| 0 <= q < limbs@.len() && q != k ==> limbs@[q] == old_limbs[q]);
        assert(carry@.len() == old_carry.len() && carry@[k as int]@ == Seq::<B>::empty());
        assert(forall|q: int| 0 <= q < carry@.len() && q != k ==> carry@[q] == old_carry[q]);
        assert(col_views(limbs@[k as int]@) =~= Seq::<Seq<B>>::empty());
        if st.len() > 1 {
            let (rest, _left, mut couts) = tree_reduce_exec(st, cin, add_limbs);
            let ghost couts0 = couts@;
            let lastv = copy_vec(&rest[rest.len() - 1]);
            let ghost rest0 = col_views(rest@);
            carry[k + 1].append(&mut couts);
            dst[k] = lastv;
            proof {
                assert forall|g: LimbAdd<B>| #[trigger] limb_add_implements::<B, FL2>(add_limbs, g) implies ({
                    let st = reduce_limbs(lv, sd as nat, first as nat, (k + 1) as nat, g);
                    st.limbs == limb_views(limbs@) && st.carry == col_views(carry@) && st.dst == col_views(dst@)
                }) by {
                    let prev = reduce_limbs(lv, sd as nat, first as nat, k as nat, g);
                    assert(prev.limbs[k as int] == col_views(old_limbs[k as int]@));
                    assert(st0 == prev.limbs[k as int]);
                    assert(cin0 == prev.carry[k as int]);
                    assert(prev.carry[k + 1] == old_carry[k + 1]@);
                    let t = tree_reduce(st0, cin0, g);
                    assert(rest0 == t.0);
                    assert(t.0.last() == lastv@);
                    assert(limb_views(limbs@) =~= prev.limbs.update(k as int, Seq::empty()));
                    let cr = prev.carry.update(k as int, Seq::empty());
                    assert(col_views(carry@) =~= cr.update(k + 1, cr[k + 1] + couts0));
                    assert(col_views(dst@) =~= prev.dst.update(k as int, t.0.last()));
                }
            }
        } else {
            let lastv = copy_vec(&st[st.len() - 1]);
            dst[k] = lastv;
            proof {
                assert forall|g: LimbAdd<B>| #[trigger] limb_add_implements::<B, FL2>(add_limbs, g) implies ({
                    let st = reduce_limbs(lv, sd as nat, first as nat, (k + 1) as nat, g);
                    st.limbs == limb_views(limbs@) && st.carry == col_views(carry@) && st.dst == col_views(dst@)
                }) by {
                    let prev = reduce_limbs(lv, sd as nat, first as nat, k as nat, g);
                    assert(prev.limbs[k as int] == col_views(old_limbs[k as int]@));
                    assert(st0 == prev.limbs[k as int]);
                    assert(st0.last() == lastv@);
                    assert(limb_views(limbs@) =~= prev.limbs.update(k as int, Seq::empty()));
                    assert(col_views(carry@) =~= prev.carry.update(k as int, Seq::empty()));
                    assert(col_views(dst@) =~= prev.dst.update(k as int, st0.last()));
                }
            }
        }
        k = k + 1;
    }
    let mut v = flat_exec(&carry);
    let oor = flat_limbs_exec(&limbs);
    let mut flags = chunk_flags_exec(&oor, nu, ops);
    let ghost fl = flags@;
    let ghost fc = v@;
    v.append(&mut flags);
    let ghost all = v@;
    let flag = if v.len() == 0 {
        zero
    } else {
        while v.len() > 1
            invariant
                v@.len() >= 1,
                nu_bool >= 2,
                mul_total::<B, FA, FP, FL>(ops),
                forall|o: MulOps<B>| #[trigger] mul_implements::<B, FA, FP, FL>(ops, o) ==> merge_flags(
                    v@,
                    nu_bool as nat,
                    o,
                ) == merge_flags(all, nu_bool as nat, o),
            decreases v@.len(),
        {
            let next = chunk_flags_exec(&v, nu_bool, ops);
            proof {
                lemma_chunk_count_shorter(v@.len(), nu_bool as nat);
                assert forall|o: MulOps<B>| #[trigger] mul_implements::<B, FA, FP, FL>(ops, o) implies merge_flags(
                    next@,
                    nu_bool as nat,
                    o,
                ) == merge_flags(all, nu_bool as nat, o) by {
                    assert(merge_flags(v@, nu_bool as nat, o) == merge_flags(next@, nu_bool as nat, o));
                }
            }
            v = next;
        }
        v[0]
    };
    proof {
        assert forall|o: MulOps<B>, g: LimbAdd<B>|
            #![trigger mul_implements::<B, FA, FP, FL>(ops, o), limb_add_implements::<B, FL2>(add_limbs, g)]
            mul_implements::<B, FA, FP, FL>(ops, o) && limb_add_implements::<B, FL2>(add_limbs, g) implies (flag, col_views(
                dst@,
            )) == mh_mul_spec(a@, b@, p, o, g) by {
            assert(lv == limb_products(a@, b@, p, o, sd as nat, 0));
            assert(all =~= fc + fl);
        }
    }
    (flag, dst)
}

} // verus!
