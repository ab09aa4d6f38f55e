//! The Hillis-Steele adder: raw block sums, block and group propagation states,
//! the scan of the group carries, the final carry resolution and the carry
//! propagation into the sums. The block operations of the circuit builder are
//! handed in as closures, so the same plan runs on any block type.
use vstd::prelude::*;
use crate::hillis_steele::{ceil_log2, hillis_steele_scan, hs_stage, lemma_ceil_log2, lemma_ceil_log2_unique};
use crate::aes::computes2;
use vstd::arithmetic::power2::{pow2, lemma_pow2_unfold, lemma_pow2_pos};

verus! {

/// The lookup tables of the adder. `ExtractPropGroup3Padding` is looked up with
/// the padding flavour and `ReduceCarryPadWrapping` with the wrapping flavour;
/// the others plainly.
#[derive(Clone, Copy, Debug, PartialEq, Eq)]
pub enum AddLut {
    ExtractPropGroup0,
    ExtractPropGroup1,
    ExtractPropGroup2,
    ExtractPropGroup3Padding,
    SolvePropGroupFinal0,
    SolvePropGroupFinal1,
    SolvePropGroupFinal2,
    ReduceCarryPadWrapping,
    SolveProp,
    SolvePropCarry,
    MsgOnly,
    CarryIsSome,
}

/// The block operations of the adder, as the circuit builder provides them.
pub struct AddOps<FA, FT, FP, FI, FL, FL2> {
    /// Sum of two blocks.
    pub add: FA,
    /// Sum of two blocks that may reach the padding bit.
    pub temper_add: FT,
    /// Packs a block (high part) with another (low part).
    pub pack: FP,
    /// Wrapping addition of the plaintext 1.
    pub inc: FI,
    /// One-output lookup.
    pub lut: FL,
    /// The two outputs (message, carry) of the `ManyCarryMsg` lookup.
    pub lut2: FL2,
}

/// What the block operations compute, as functions.
#[verifier::reject_recursive_types(B)]
pub struct BlockOps<B> {
    pub add: spec_fn(B, B) -> B,
    pub temper_add: spec_fn(B, B) -> B,
    pub pack: spec_fn(B, B) -> B,
    pub inc: spec_fn(B) -> B,
    pub lut: spec_fn(B, AddLut) -> B,
    pub lut2: spec_fn(B) -> (B, B),
}

/// Every operation may be called on every input.
pub open spec fn ops_total<
    B,
    FA: Fn(B, B) -> B,
    FT: Fn(B, B) -> B,
    FP: Fn(B, B) -> B,
    FI: Fn(B) -> B,
    FL: Fn(B, AddLut) -> B,
    FL2: Fn(B) -> (B, B),
>(ops: &AddOps<FA, FT, FP, FI, FL, FL2>) -> bool {
    &&& forall|a: B, b: B| call_requires(ops.add, (a, b))
    &&& forall|a: B, b: B| call_requires(ops.temper_add, (a, b))
    &&& forall|a: B, b: B| call_requires(ops.pack, (a, b))
    &&& forall|a: B| call_requires(ops.inc, (a,))
    &&& forall|a: B, l: AddLut| call_requires(ops.lut, (a, l))
    &&& forall|a: B| call_requires(ops.lut2, (a,))
}

/// The operations compute the functions of `o`.
pub open spec fn implements<
    B,
    FA: Fn(B, B) -> B,
    FT: Fn(B, B) -> B,
    FP: Fn(B, B) -> B,
    FI: Fn(B) -> B,
    FL: Fn(B, AddLut) -> B,
    FL2: Fn(B) -> (B, B),
>(ops: &AddOps<FA, FT, FP, FI, FL, FL2>, o: BlockOps<B>) -> bool {
    &&& forall|a: B, b: B, r: B| #[trigger] call_ensures(ops.add, (a, b), r) ==> r == (o.add)(a, b)
    &&& forall|a: B, b: B, r: B| #[trigger] call_ensures(ops.temper_add, (a, b), r) ==> r == (o.temper_add)(a, b)
    &&& forall|a: B, b: B, r: B| #[trigger] call_ensures(ops.pack, (a, b), r) ==> r == (o.pack)(a, b)
    &&& forall|a: B, r: B| #[trigger] call_ensures(ops.inc, (a,), r) ==> r == (o.inc)(a)
    &&& forall|a: B, l: AddLut, r: B| #[trigger] call_ensures(ops.lut, (a, l), r) ==> r == (o.lut)(a, l)
    &&& forall|a: B, r: (B, B)| #[trigger] call_ensures(ops.lut2, (a,), r) ==> r == (o.lut2)(a)
}

// ---------------------------------------------------------------- the plan, stage by stage

/// Number of blocks the adder computes on: the number of blocks rounded up to a
/// multiple of 4, then to a power of two.
pub open spec fn compute_size(n: nat) -> nat {
    pow2(ceil_log2(4 * ((n + 3) / 4) as nat))
}

/// The raw sums of the blocks, the longer operand passing through.
pub open spec fn raw_sums<B>(l: Seq<B>, r: Seq<B>, o: BlockOps<B>) -> Seq<B> {
    Seq::new(
        if l.len() < r.len() { r.len() } else { l.len() },
        |i: int|
            if i < l.len() && i < r.len() {
                (o.add)(l[i], r[i])
            } else if l.len() < r.len() {
                r[i]
            } else {
                l[i]
            },
    )
}

/// The raw sums with the carry in added to the first one, padded with `zero` up
/// to `size` blocks.
pub open spec fn padded_sums<B>(raw: Seq<B>, cin: Option<B>, size: nat, zero: B, o: BlockOps<B>) -> Seq<B> {
    Seq::new(
        size,
        |i: int|
            if i < raw.len() {
                if i == 0 && cin is Some {
                    (o.add)(raw[0], cin->0)
                } else {
                    raw[i]
                }
            } else {
                zero
            },
    )
}

/// The table extracting the propagation state of position `j` of a group.
pub open spec fn extract_lut(j: int) -> AddLut {
    if j == 0 {
        AddLut::ExtractPropGroup0
    } else if j == 1 {
        AddLut::ExtractPropGroup1
    } else {
        AddLut::ExtractPropGroup2
    }
}

/// The table resolving position `j` of a group.
pub open spec fn final_lut(j: int) -> AddLut {
    if j == 0 {
        AddLut::SolvePropGroupFinal0
    } else if j == 1 {
        AddLut::SolvePropGroupFinal1
    } else {
        AddLut::SolvePropGroupFinal2
    }
}

/// The propagation state of block `i`. Block 0 gives its carry, read by the
/// `ManyCarryMsg` lookup; the first group shifts the other tables by one.
pub open spec fn block_state<B>(s: Seq<B>, o: BlockOps<B>, i: int) -> B {
    let j = i % 4;
    if i < 4 {
        if j == 0 {
            (o.lut2)(s[0]).1
        } else {
            (o.lut)(s[i], extract_lut(j - 1))
        }
    } else if j < 3 {
        (o.lut)(s[i], extract_lut(j))
    } else {
        (o.lut)(s[i], AddLut::ExtractPropGroup3Padding)
    }
}

/// The group state at block `i`: the block states of its group up to `i`
/// summed, the last position reduced to the state of the whole group.
pub open spec fn group_state<B>(bs: Seq<B>, o: BlockOps<B>, i: nat) -> B
    decreases i,
{
    let j = i % 4;
    if j == 0 || i == 0 {
        bs[i as int]
    } else if j < 3 {
        (o.add)(group_state(bs, o, (i - 1) as nat), bs[i as int])
    } else {
        let t = (o.temper_add)(group_state(bs, o, (i - 1) as nat), bs[i as int]);
        if i < 4 {
            (o.lut)(t, AddLut::SolvePropGroupFinal2)
        } else {
            (o.inc)((o.lut)(t, AddLut::ReduceCarryPadWrapping))
        }
    }
}

/// The combination of a resolved carry (lower) with a group state (upper).
pub open spec fn solve_carry<B>(o: BlockOps<B>) -> spec_fn(B, B) -> B {
    |l: B, u: B| (o.lut)((o.pack)(u, l), AddLut::SolvePropCarry)
}

/// The combination of two group states (lower, upper).
pub open spec fn solve_prop<B>(o: BlockOps<B>) -> spec_fn(B, B) -> B {
    |l: B, u: B| (o.lut)((o.pack)(u, l), AddLut::SolveProp)
}

/// The group carries: the state of each group, scanned.
pub open spec fn group_carries<B>(gs: Seq<B>, o: BlockOps<B>) -> Seq<B> {
    let tops = Seq::new(gs.len() / 4, |g: int| gs[4 * g + 3]);
    hs_stage(tops, solve_carry(o), solve_prop(o), ceil_log2(tops.len()))
}

/// The carry out of block `i`, resolved from the group states and the carry
/// into its group.
pub open spec fn resolved_carry<B>(gs: Seq<B>, gc: Seq<B>, o: BlockOps<B>, i: int) -> B {
    let g = i / 4;
    let j = i % 4;
    if j == 3 {
        gc[g]
    } else if g == 0 {
        if j == 0 {
            gs[i]
        } else {
            (o.lut)(gs[i], final_lut(j - 1))
        }
    } else {
        (o.lut)((o.add)(gs[i], gc[g - 1]), final_lut(j))
    }
}

/// Block `i` of the sum before cleaning: the message of block 0, and each other
/// raw sum with the carry out of the block below added.
pub open spec fn result_block<B>(s: Seq<B>, car: Seq<B>, o: BlockOps<B>, i: int) -> B {
    if i == 0 {
        (o.lut2)(s[0]).0
    } else {
        (o.add)(s[i], car[i - 1])
    }
}

/// The sum blocks (`n` of them, cleaned when asked) and the carry out that the
/// adder computes on the padded sums `s`.
pub open spec fn resolve_spec<B>(s: Seq<B>, n: nat, clean: bool, o: BlockOps<B>) -> (Seq<B>, B) {
    let bs = Seq::new(s.len(), |i: int| block_state(s, o, i));
    let gs = Seq::new(s.len(), |i: int| group_state(bs, o, i as nat));
    let gc = group_carries(gs, o);
    let car = Seq::new(s.len(), |i: int| resolved_carry(gs, gc, o, i));
    let res = Seq::new(s.len(), |i: int| result_block(s, car, o, i));
    (
        Seq::new(n, |i: int| if clean { (o.lut)(res[i], AddLut::MsgOnly) } else { res[i] }),
        (o.lut)(res[n - 1], AddLut::CarryIsSome),
    )
}

/// What the Hillis-Steele adder computes on the blocks `l` and `r`.
pub open spec fn add_hs_spec<B>(l: Seq<B>, r: Seq<B>, cin: Option<B>, clean: bool, zero: B, o: BlockOps<B>) -> (Seq<B>, B) {
    let raw = raw_sums(l, r, o);
    resolve_spec(padded_sums(raw, cin, compute_size(raw.len()), zero, o), raw.len(), clean, o)
}

proof fn lemma_compute_size_covers(n: nat)
    ensures
        compute_size(n) >= n,
{
    let m = (4 * ((n + 3) / 4)) as nat;
    lemma_ceil_log2(m);
    assert(m >= n);
}

proof fn lemma_hs_stage_prefix<E>(x1: Seq<E>, x2: Seq<E>, f: spec_fn(E, E) -> E, g: spec_fn(E, E) -> E, k: nat, m: int)
    requires
        x1.len() == x2.len(),
        m < x1.len(),
        forall|q: int| 0 <= q <= m ==> #[trigger] x1[q] == x2[q],
    ensures
        hs_stage(x1, f, g, k).len() == x1.len(),
        hs_stage(x2, f, g, k).len() == x2.len(),
        forall|q: int| 0 <= q <= m ==> #[trigger] hs_stage(x1, f, g, k)[q] == hs_stage(x2, f, g, k)[q],
    decreases k,
{
    if k > 0 {
        lemma_hs_stage_prefix(x1, x2, f, g, (k - 1) as nat, m);
        lemma_pow2_pos((k - 1) as nat);
    }
}

proof fn lemma_group_state_prefix<B>(b1: Seq<B>, b2: Seq<B>, o: BlockOps<B>, k: nat)
    requires
        forall|q: int| 0 <= q <= k ==> #[trigger] b1[q] == b2[q],
    ensures
        group_state(b1, o, k) == group_state(b2, o, k),
    decreases k,
{
    if k > 0 {
        lemma_group_state_prefix(b1, b2, o, (k - 1) as nat);
    }
}

/// The carry resolved for block `i - 1` depends only on the blocks below `i`.
proof fn lemma_resolved_carry_prefix<B>(s1: Seq<B>, s2: Seq<B>, o: BlockOps<B>, i: int)
    requires
        s1.len() == s2.len(),
        1 <= i < s1.len(),
        forall|q: int| 0 <= q < i ==> #[trigger] s1[q] == s2[q],
    ensures
        ({
            let bs1 = Seq::new(s1.len(), |k: int| block_state(s1, o, k));
            let gs1 = Seq::new(s1.len(), |k: int| group_state(bs1, o, k as nat));
            let bs2 = Seq::new(s2.len(), |k: int| block_state(s2, o, k));
            let gs2 = Seq::new(s2.len(), |k: int| group_state(bs2, o, k as nat));
            resolved_carry(gs1, group_carries(gs1, o), o, i - 1) == resolved_carry(gs2, group_carries(gs2, o), o, i - 1)
        }),
{
    let bs1 = Seq::new(s1.len(), |k: int| block_state(s1, o, k));
    let gs1 = Seq::new(s1.len(), |k: int| group_state(bs1, o, k as nat));
    let bs2 = Seq::new(s2.len(), |k: int| block_state(s2, o, k));
    let gs2 = Seq::new(s2.len(), |k: int| group_state(bs2, o, k as nat));
    assert forall|q: int| 0 <= q < i implies #[trigger] bs1[q] == bs2[q] by {
        assert(s1[0] == s2[0]);
        assert(s1[q] == s2[q]);
    }
    assert forall|q: int| 0 <= q < i implies #[trigger] gs1[q] == gs2[q] by {
        lemma_group_state_prefix(bs1, bs2, o, q as nat);
    }
    let t1 = Seq::new(gs1.len() / 4, |g: int| gs1[4 * g + 3]);
    let t2 = Seq::new(gs2.len() / 4, |g: int| gs2[4 * g + 3]);
    let m = (i - 4) / 4;
    if i >= 4 {
        assert forall|q: int| 0 <= q <= m implies #[trigger] t1[q] == t2[q] by {
            assert(4 * q + 3 < i);
            assert(gs1[4 * q + 3] == gs2[4 * q + 3]);
        }
        assert(m < t1.len());
        lemma_hs_stage_prefix(t1, t2, solve_carry(o), solve_prop(o), ceil_log2(t1.len()), m);
    }
    let gc1 = group_carries(gs1, o);
    let gc2 = group_carries(gs2, o);
    let k = i - 1;
    let g = k / 4;
    assert(gs1[k] == gs2[k]);
    if k % 4 == 3 {
        assert(g <= m);
        assert(gc1[g] == gc2[g]);
    } else if g > 0 {
        assert(g - 1 <= m);
        assert(gc1[g - 1] == gc2[g - 1]);
    }
}

/// Block `i` of the sum (above block 0) is the raw sum of the operands' block `i`
/// with a carry that depends only on the blocks below `i`: two additions whose
/// operands agree below block `i` add their own block `i` to one and the same
/// carry, whatever the block operations compute.
pub proof fn lemma_sum_block_takes_carry_from_below<B>(
    l1: Seq<B>,
    r1: Seq<B>,
    l2: Seq<B>,
    r2: Seq<B>,
    cin: Option<B>,
    clean: bool,
    zero: B,
    o: BlockOps<B>,
    i: int,
)
    requires
        l1.len() == r1.len() == l2.len() == r2.len(),
        1 <= i < l1.len(),
        forall|q: int| 0 <= q < i ==> #[trigger] l1[q] == l2[q],
        forall|q: int| 0 <= q < i ==> #[trigger] r1[q] == r2[q],
    ensures
        exists|c: B|
            #![trigger (o.add)((o.add)(l1[i], r1[i]), c)]
            {
                let x1 = (o.add)((o.add)(l1[i], r1[i]), c);
                let x2 = (o.add)((o.add)(l2[i], r2[i]), c);
                &&& add_hs_spec(l1, r1, cin, clean, zero, o).0[i] == if clean { (o.lut)(x1, AddLut::MsgOnly) } else { x1 }
                &&& add_hs_spec(l2, r2, cin, clean, zero, o).0[i] == if clean { (o.lut)(x2, AddLut::MsgOnly) } else { x2 }
            },
{
    let n = l1.len();
    let raw1 = raw_sums(l1, r1, o);
    let raw2 = raw_sums(l2, r2, o);
    let size = compute_size(n);
    lemma_compute_size_covers(n);
    let s1 = padded_sums(raw1, cin, size, zero, o);
    let s2 = padded_sums(raw2, cin, size, zero, o);
    assert forall|q: int| 0 <= q < i implies #[trigger] s1[q] == s2[q] by {
        assert(l1[q] == l2[q] && r1[q] == r2[q]);
    }
    lemma_resolved_carry_prefix(s1, s2, o, i);
    let bs1 = Seq::new(s1.len(), |k: int| block_state(s1, o, k));
    let gs1 = Seq::new(s1.len(), |k: int| group_state(bs1, o, k as nat));
    let c = resolved_carry(gs1, group_carries(gs1, o), o, i - 1);
    let x1 = (o.add)((o.add)(l1[i], r1[i]), c);
    assert(s1[i] == (o.add)(l1[i], r1[i]));
    assert(s2[i] == (o.add)(l2[i], r2[i]));
}

/// Block 0 of the sum depends only on block 0 of the operands and the carry in:
/// it has no carry to take from below.
pub proof fn lemma_sum_block_zero_is_local<B>(
    l1: Seq<B>,
    r1: Seq<B>,
    l2: Seq<B>,
    r2: Seq<B>,
    cin: Option<B>,
    clean: bool,
    zero: B,
    o: BlockOps<B>,
)
    requires
        l1.len() == r1.len() == l2.len() == r2.len(),
        l1.len() >= 1,
        l1[0] == l2[0],
        r1[0] == r2[0],
    ensures
        add_hs_spec(l1, r1, cin, clean, zero, o).0[0] == add_hs_spec(l2, r2, cin, clean, zero, o).0[0],
{
    let n = l1.len();
    lemma_compute_size_covers(n);
}

// ---------------------------------------------------------------- the executable plan

/// The number of blocks the adder computes on.
fn compute_size_exec(n: usize) -> (r: usize)
    requires
        1 <= n <= usize::MAX / 8,
    ensures
        r as nat == compute_size(n as nat),
        r >= 4,
        r % 4 == 0,
        n <= r,
{
    let m = (n + 3) / 4 * 4;
    let mut p: usize = 1;
    let ghost mut k: nat = 0;
    proof {
        lemma_pow2_pos(0);
        assert(pow2(0) == 1) by {
            vstd::arithmetic::power2::lemma2_to64();
        }
    }
    while p < m
        invariant
            4 <= m <= usize::MAX / 2,
            p as nat == pow2(k),
            1 <= p,
            k == 0 || pow2((k - 1) as nat) < m,
            p >= 2 ==> p % 2 == 0,
            p >= 4 ==> p % 4 == 0,
        decreases 2 * m - p,
    {
        proof {
            lemma_pow2_unfold(k + 1);
        }
        p = p * 2;
        proof {
            k = k + 1;
        }
    }
    proof {
        lemma_ceil_log2_unique(m as nat, k);
        assert(4 * ((n + 3) / 4) as nat == m);
    }
    p
}

/// The block states of the padded sums `s`.
fn block_states<
    B: Copy,
    FA: Fn(B, B) -> B,
    FT: Fn(B, B) -> B,
    FP: Fn(B, B) -> B,
    FI: Fn(B) -> B,
    FL: Fn(B, AddLut) -> B,
    FL2: Fn(B) -> (B, B),
>(s: &Vec<B>, ops: &AddOps<FA, FT, FP, FI, FL, FL2>) -> (r: Vec<B>)
    requires
        ops_total::<B, FA, FT, FP, FI, FL, FL2>(ops),
        s@.len() >= 1,
    ensures
        r@.len() == s@.len(),
        forall|o: BlockOps<B>| #[trigger] implements::<B, FA, FT, FP, FI, FL, FL2>(ops, o) ==> forall|i: int|
            0 <= i < s@.len() ==> r@[i] == #[trigger] block_state(s@, o, i),
{
    let n = s.len();
    let mut out: Vec<B> = Vec::new();
    let mut i: usize = 0;
    while i < n
        invariant
            n == s@.len(),
            n >= 1,
            i <= n,
            out@.len() == i,
            ops_total::<B, FA, FT, FP, FI, FL, FL2>(ops),
            forall|o: BlockOps<B>| #[trigger] implements::<B, FA, FT, FP, FI, FL, FL2>(ops, o) ==> forall|k: int|
                0 <= k < i ==> out@[k] == #[trigger] block_state(s@, o, k),
        decreases n - i,
    {
        let j = i % 4;
        let v = if i < 4 {
            if j == 0 {
                let (_m, c) = (ops.lut2)(s[0]);
                c
            } else if j == 1 {
                (ops.lut)(s[i], AddLut::ExtractPropGroup0)
            } else if j == 2 {
                (ops.lut)(s[i], AddLut::ExtractPropGroup1)
            } else {
                (ops.lut)(s[i], AddLut::ExtractPropGroup2)
            }
        } else if j == 0 {
            (ops.lut)(s[i], AddLut::ExtractPropGroup0)
        } else if j == 1 {
            (ops.lut)(s[i], AddLut::ExtractPropGroup1)
        } else if j == 2 {
            (ops.lut)(s[i], AddLut::ExtractPropGroup2)
        } else {
            (ops.lut)(s[i], AddLut::ExtractPropGroup3Padding)
        };
        out.push(v);
        i = i + 1;
    }
    out
}

/// The group states of the block states `bs`.
fn group_states<
    B: Copy,
    FA: Fn(B, B) -> B,
    FT: Fn(B, B) -> B,
    FP: Fn(B, B) -> B,
    FI: Fn(B) -> B,
    FL: Fn(B, AddLut) -> B,
    FL2: Fn(B) -> (B, B),
>(bs: &Vec<B>, ops: &AddOps<FA, FT, FP, FI, FL, FL2>) -> (r: Vec<B>)
    requires
        ops_total::<B, FA, FT, FP, FI, FL, FL2>(ops),
    ensures
        r@.len() == bs@.len(),
        forall|o: BlockOps<B>| #[trigger] implements::<B, FA, FT, FP, FI, FL, FL2>(ops, o) ==> forall|i: int|
            0 <= i < bs@.len() ==> r@[i] == #[trigger] group_state(bs@, o, i as nat),
{
    let n = bs.len();
    let mut out: Vec<B> = Vec::new();
    let mut i: usize = 0;
    while i < n
        invariant
            n == bs@.len(),
            i <= n,
            out@.len() == i,
            ops_total::<B, FA, FT, FP, FI, FL, FL2>(ops),
            forall|o: BlockOps<B>| #[trigger] implements::<B, FA, FT, FP, FI, FL, FL2>(ops, o) ==> forall|k: int|
                0 <= k < i ==> out@[k] == #[trigger] group_state(bs@, o, k as nat),
        decreases n - i,
    {
        let j = i % 4;
        let v = if j == 0 {
            bs[i]
        } else if j < 3 {
            (ops.add)(out[i - 1], bs[i])
        } else {
            let t = (ops.temper_add)(out[i - 1], bs[i]);
            if i < 4 {
                (ops.lut)(t, AddLut::SolvePropGroupFinal2)
            } else {
                let u = (ops.lut)(t, AddLut::ReduceCarryPadWrapping);
                (ops.inc)(u)
            }
        };
        proof {
            assert forall|o: BlockOps<B>| #[trigger] implements::<B, FA, FT, FP, FI, FL, FL2>(ops, o) implies v
                == group_state(bs@, o, i as nat) by {
                if j != 0 {
                    assert(out@[i - 1] == group_state(bs@, o, (i - 1) as nat));
                }
            }
        }
        out.push(v);
        i = i + 1;
    }
    out
}

/// The carries into the groups: the state of each group, scanned.
fn scan_groups<
    B: Copy,
    FA: Fn(B, B) -> B,
    FT: Fn(B, B) -> B,
    FP: Fn(B, B) -> B,
    FI: Fn(B) -> B,
    FL: Fn(B, AddLut) -> B,
    FL2: Fn(B) -> (B, B),
>(gs: &Vec<B>, ops: &AddOps<FA, FT, FP, FI, FL, FL2>) -> (r: Vec<B>)
    requires
        ops_total::<B, FA, FT, FP, FI, FL, FL2>(ops),
    ensures
        r@.len() == gs@.len() / 4,
        forall|o: BlockOps<B>| #[trigger] implements::<B, FA, FT, FP, FI, FL, FL2>(ops, o) ==> r@ == group_carries(gs@, o),
{
    let len = gs.len();
    let ng = len / 4;
    let mut tops: Vec<B> = Vec::new();
    let mut g: usize = 0;
    while g < ng
        invariant
            len == gs@.len(),
            ng == gs@.len() / 4,
            g <= ng,
            tops@.len() == g,
            forall|k: int| 0 <= k < g ==> tops@[k] == gs@[4 * k + 3],
        decreases ng - g,
    {
        assert(4 * g + 3 < gs@.len()) by (nonlinear_arith)
            requires
                g < ng,
                ng == gs@.len() / 4,
        ;
        tops.push(gs[4 * g + 3]);
        g = g + 1;
    }
    let first = |l: B, u: B| -> (v: B)
        requires
            ops_total::<B, FA, FT, FP, FI, FL, FL2>(ops),
        ensures
            forall|o: BlockOps<B>| #[trigger] implements::<B, FA, FT, FP, FI, FL, FL2>(ops, o) ==> v == (solve_carry(o))(l, u),
        {
            let p = (ops.pack)(u, l);
            (ops.lut)(p, AddLut::SolvePropCarry)
        };
    let rest = |l: B, u: B| -> (v: B)
        requires
            ops_total::<B, FA, FT, FP, FI, FL, FL2>(ops),
        ensures
            forall|o: BlockOps<B>| #[trigger] implements::<B, FA, FT, FP, FI, FL, FL2>(ops, o) ==> v == (solve_prop(o))(l, u),
        {
            let p = (ops.pack)(u, l);
            (ops.lut)(p, AddLut::SolveProp)
        };
    let r = hillis_steele_scan(tops.as_slice(), &first, &rest);
    proof {
        assert(tops@ =~= Seq::new(gs@.len() / 4, |k: int| gs@[4 * k + 3]));
        assert forall|o: BlockOps<B>| #[trigger] implements::<B, FA, FT, FP, FI, FL, FL2>(ops, o) implies r@ == group_carries(gs@, o) by {
            assert(computes2(first, solve_carry(o)));
            assert(computes2(rest, solve_prop(o)));
        }
    }
    r
}

/// The carry out of every block.
fn resolve_carries<
    B: Copy,
    FA: Fn(B, B) -> B,
    FT: Fn(B, B) -> B,
    FP: Fn(B, B) -> B,
    FI: Fn(B) -> B,
    FL: Fn(B, AddLut) -> B,
    FL2: Fn(B) -> (B, B),
>(gs: &Vec<B>, gc: &Vec<B>, ops: &AddOps<FA, FT, FP, FI, FL, FL2>) -> (r: Vec<B>)
    requires
        ops_total::<B, FA, FT, FP, FI, FL, FL2>(ops),
        gs@.len() % 4 == 0,
        gc@.len() == gs@.len() / 4,
    ensures
        r@.len() == gs@.len(),
        forall|o: BlockOps<B>| #[trigger] implements::<B, FA, FT, FP, FI, FL, FL2>(ops, o) ==> forall|i: int|
            0 <= i < gs@.len() ==> r@[i] == #[trigger] resolved_carry(gs@, gc@, o, i),
{
    let n = gs.len();
    let mut out: Vec<B> = Vec::new();
    let mut i: usize = 0;
    while i < n
        invariant
            n == gs@.len(),
            n % 4 == 0,
            gc@.len() == n / 4,
            i <= n,
            out@.len() == i,
            ops_total::<B, FA, FT, FP, FI, FL, FL2>(ops),
            forall|o: BlockOps<B>| #[trigger] implements::<B, FA, FT, FP, FI, FL, FL2>(ops, o) ==> forall|k: int|
                0 <= k < i ==> out@[k] == #[trigger] resolved_carry(gs@, gc@, o, k),
        decreases n - i,
    {
        let g = i / 4;
        let j = i % 4;
        let v = if j == 3 {
            gc[g]
        } else if g == 0 {
            if j == 0 {
                gs[i]
            } else if j == 1 {
                (ops.lut)(gs[i], AddLut::SolvePropGroupFinal0)
            } else {
                (ops.lut)(gs[i], AddLut::SolvePropGroupFinal1)
            }
        } else {
            let a = (ops.add)(gs[i], gc[g - 1]);
            if j == 0 {
                (ops.lut)(a, AddLut::SolvePropGroupFinal0)
            } else if j == 1 {
                (ops.lut)(a, AddLut::SolvePropGroupFinal1)
            } else {
                (ops.lut)(a, AddLut::SolvePropGroupFinal2)
            }
        };
        out.push(v);
        i = i + 1;
    }
    out
}

/// Resolves the sum of the padded raw sums `sums` (a power of two blocks, at least
/// four): the first `n` blocks of the sum, cleaned when `clean` is set, and the carry
/// out of block `n - 1`.
pub fn hillis_steele_resolve<
    B: Copy,
    FA: Fn(B, B) -> B,
    FT: Fn(B, B) -> B,
    FP: Fn(B, B) -> B,
    FI: Fn(B) -> B,
    FL: Fn(B, AddLut) -> B,
    FL2: Fn(B) -> (B, B),
>(
    sums: &Vec<B>,
    n: usize,
    clean: bool,
    ops: &AddOps<FA, FT, FP, FI, FL, FL2>,
) -> (r: (Vec<B>, B))
    requires
        ops_total::<B, FA, FT, FP, FI, FL, FL2>(ops),
        1 <= n <= sums@.len(),
        sums@.len() % 4 == 0,
    ensures
        r.0@.len() == n,
        forall|o: BlockOps<B>| #[trigger] implements::<B, FA, FT, FP, FI, FL, FL2>(ops, o) ==> (r.0@, r.1) == resolve_spec(
            sums@,
            n as nat,
            clean,
            o,
        ),
{
    let bs = block_states(sums, ops);
    let gs = group_states(&bs, ops);
    let gc = scan_groups(&gs, ops);
    let car = resolve_carries(&gs, &gc, ops);
    let size = sums.len();
    let mut res: Vec<B> = Vec::new();
    let (m0, _c0) = (ops.lut2)(sums[0]);
    res.push(m0);
    let mut i: usize = 1;
    while i < size
        invariant
            size == sums@.len(),
            car@.len() == size,
            1 <= i <= size,
            res@.len() == i,
            ops_total::<B, FA, FT, FP, FI, FL, FL2>(ops),
            forall|o: BlockOps<B>| #[trigger] implements::<B, FA, FT, FP, FI, FL, FL2>(ops, o) ==> forall|k: int|
                0 <= k < i ==> res@[k] == #[trigger] result_block(sums@, car@, o, k),
        decreases size - i,
    {
        let v = (ops.add)(sums[i], car[i - 1]);
        res.push(v);
        i = i + 1;
    }
    let carry_out = (ops.lut)(res[n - 1], AddLut::CarryIsSome);
    let mut out: Vec<B> = Vec::new();
    let mut k: usize = 0;
    while k < n
        invariant
            n <= size,
            res@.len() == size,
            k <= n,
            out@.len() == k,
            ops_total::<B, FA, FT, FP, FI, FL, FL2>(ops),
            forall|q: int| 0 <= q < k ==> #[trigger] out@[q] == (if clean { out@[q] } else { res@[q] }),
            forall|o: BlockOps<B>| #[trigger] implements::<B, FA, FT, FP, FI, FL, FL2>(ops, o) ==> forall|q: int|
                0 <= q < k ==> #[trigger] out@[q] == (if clean { (o.lut)(res@[q], AddLut::MsgOnly) } else { res@[q] }),
        decreases n - k,
    {
        let v = if clean {
            (ops.lut)(res[k], AddLut::MsgOnly)
        } else {
            res[k]
        };
        out.push(v);
        k = k + 1;
    }
    proof {
        assert forall|o: BlockOps<B>| #[trigger] implements::<B, FA, FT, FP, FI, FL, FL2>(ops, o) implies (out@, carry_out)
            == resolve_spec(sums@, n as nat, clean, o) by {
            let sp = sums@;
            let bsq = Seq::new(sp.len(), |i: int| block_state(sp, o, i));
            assert(bs@ =~= bsq);
            let gsq = Seq::new(sp.len(), |i: int| group_state(bsq, o, i as nat));
            assert(gs@ =~= gsq);
            let gcq = group_carries(gsq, o);
            assert(gc@ == gcq);
            let carq = Seq::new(sp.len(), |i: int| resolved_carry(gsq, gcq, o, i));
            assert(car@ =~= carq);
            let resq = Seq::new(sp.len(), |i: int| result_block(sp, carq, o, i));
            assert(res@ =~= resq);
            assert(out@ =~= Seq::new(n as nat, |i: int| if clean { (o.lut)(resq[i], AddLut::MsgOnly) } else { resq[i] }));
        }
    }
    (out, carry_out)
}

/// Completes an addition from its raw block sums `raw`: adds the carry in `cin` to
/// the first, pads with `zero` up to a power of two of at least four blocks, and
/// resolves. Returns as many blocks as `raw`, cleaned when `clean` is set, and the
/// carry out. The ciphertext-plaintext adder enters here with the sums of its
/// blocks with the plaintext blocks.
pub fn hillis_steele_add_sums<
    B: Copy,
    FA: Fn(B, B) -> B,
    FT: Fn(B, B) -> B,
    FP: Fn(B, B) -> B,
    FI: Fn(B) -> B,
    FL: Fn(B, AddLut) -> B,
    FL2: Fn(B) -> (B, B),
>(
    raw: &Vec<B>,
    cin: Option<B>,
    clean: bool,
    zero: B,
    ops: &AddOps<FA, FT, FP, FI, FL, FL2>,
) -> (r: (Vec<B>, B))
    requires
        ops_total::<B, FA, FT, FP, FI, FL, FL2>(ops),
        1 <= raw@.len() <= usize::MAX / 8,
    ensures
        r.0@.len() == raw@.len(),
        forall|o: BlockOps<B>| #[trigger] implements::<B, FA, FT, FP, FI, FL, FL2>(ops, o) ==> (r.0@, r.1) == resolve_spec(
            padded_sums(raw@, cin, compute_size(raw@.len()), zero, o),
            raw@.len(),
            clean,
            o,
        ),
{
    let n = raw.len();
    let size = compute_size_exec(n);
    let mut sums: Vec<B> = Vec::new();
    let mut i: usize = 0;
    while i < size
        invariant
            n == raw@.len(),
            1 <= n <= size,
            i <= size,
            sums@.len() == i,
            ops_total::<B, FA, FT, FP, FI, FL, FL2>(ops),
            forall|k: int| 0 <= k < i ==> #[trigger] sums@[k] == (if k < n {
                if k == 0 && cin is Some { sums@[0] } else { raw@[k] }
            } else {
                zero
            }),
            cin is Some && 0 < i ==> call_ensures(ops.add, (raw@[0], cin->0), sums@[0]),
        decreases size - i,
    {
        let v = if i < n {
            if i == 0 {
                match cin {
                    Some(c) => (ops.add)(raw[0], c),
                    None => raw[0],
                }
            } else {
                raw[i]
            }
        } else {
            zero
        };
        sums.push(v);
        i = i + 1;
    }
    let r = hillis_steele_resolve(&sums, n, clean, ops);
    proof {
        assert forall|o: BlockOps<B>| #[trigger] implements::<B, FA, FT, FP, FI, FL, FL2>(ops, o) implies sums@
            == padded_sums(raw@, cin, compute_size(raw@.len()), zero, o) by {
            assert(sums@ =~= padded_sums(raw@, cin, compute_size(raw@.len()), zero, o));
        }
    }
    r
}

/// Adds the blocks `lhs` and `rhs` (and the carry in `cin`) with the Hillis-Steele
/// adder: the raw sums, the longer operand passing through, then
/// [`hillis_steele_add_sums`]. Returns as many blocks as the longer operand, cleaned
/// when `clean` is set, and the carry out.
pub fn add_hillis_steele_plan<
    B: Copy,
    FA: Fn(B, B) -> B,
    FT: Fn(B, B) -> B,
    FP: Fn(B, B) -> B,
    FI: Fn(B) -> B,
    FL: Fn(B, AddLut) -> B,
    FL2: Fn(B) -> (B, B),
>(
    lhs: &[B],
    rhs: &[B],
    cin: Option<B>,
    clean: bool,
    zero: B,
    ops: &AddOps<FA, FT, FP, FI, FL, FL2>,
) -> (r: (Vec<B>, B))
    requires
        ops_total::<B, FA, FT, FP, FI, FL, FL2>(ops),
        1 <= lhs@.len() || 1 <= rhs@.len(),
        lhs@.len() <= usize::MAX / 8,
        rhs@.len() <= usize::MAX / 8,
    ensures
        r.0@.len() == if lhs@.len() < rhs@.len() { rhs@.len() } else { lhs@.len() },
        forall|o: BlockOps<B>| #[trigger] implements::<B, FA, FT, FP, FI, FL, FL2>(ops, o) ==> (r.0@, r.1) == add_hs_spec(
            lhs@,
            rhs@,
            cin,
            clean,
            zero,
            o,
        ),
{
    let raw = crate::kinds::vector_zip_with(lhs, rhs, &ops.add, &crate::kinds::ExtensionBehavior::Passthrough);
    let r = hillis_steele_add_sums(&raw, cin, clean, zero, ops);
    proof {
        assert forall|o: BlockOps<B>| #[trigger] implements::<B, FA, FT, FP, FI, FL, FL2>(ops, o) implies (r.0@, r.1) == add_hs_spec(
            lhs@, rhs@, cin, clean, zero, o) by {
            let rq = raw_sums(lhs@, rhs@, o);
            assert(raw@ =~= rq) by {
                assert forall|k: int| 0 <= k < rq.len() implies raw@[k] == rq[k] by {
                    if k < lhs@.len() && k < rhs@.len() {
                        assert(call_ensures(ops.add, (lhs@[k], rhs@[k]), raw@[k]));
                    }
                }
            }
        }
    }
    r
}

} // verus!
