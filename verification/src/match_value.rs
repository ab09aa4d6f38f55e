//! Mapping an encrypted integer through a clear table: the candidates of each
//! high value, computed by lookups on the packed low part, then a mux tree on
//! the high bits. The block operations of the circuit builder are handed in as
//! closures.
use vstd::prelude::*;
use crate::aes::{aes_sbox_fn, dense_table_spec, is_aes_sbox, is_xtime, xtime_fn};

verus! {

/// The dedicated circuits that replace the general construction.
#[derive(Clone, Copy, Debug, PartialEq, Eq)]
pub enum MatchBypass {
    /// The table is the AES S-box.
    Sbox,
    /// The table is xtime.
    Xtime,
}

/// The dedicated circuit for a table over `in_size` bits giving `out_size` bits, if
/// there is one: 8-bit tables that are the full S-box or the full xtime.
pub fn match_value_bypass(table: &[(u128, u128)], in_size: u16, out_size: u16) -> (r: Option<MatchBypass>)
    ensures
        r == (if in_size == 8 && out_size == 8 {
            if dense_table_spec(table@, aes_sbox_fn()) {
                Some(MatchBypass::Sbox)
            } else if dense_table_spec(table@, xtime_fn()) {
                Some(MatchBypass::Xtime)
            } else {
                None
            }
        } else {
            None
        }),
{
    if in_size == 8 && out_size == 8 {
        if is_aes_sbox(table) {
            Some(MatchBypass::Sbox)
        } else if is_xtime(table) {
            Some(MatchBypass::Xtime)
        } else {
            None
        }
    } else {
        None
    }
}

/// `2^k` for the small exponents of the construction.
pub open spec fn p2(k: nat) -> nat {
    vstd::arithmetic::power2::pow2(k)
}

/// A table the construction accepts: not empty, keys below `2^in_size`, values
/// below `2^out_size` (any value when `out_size` is 128), no key twice.
pub open spec fn valid_match_table(table: Seq<(u128, u128)>, in_size: nat, out_size: nat) -> bool {
    &&& table.len() > 0
    &&& forall|i: int| 0 <= i < table.len() ==> (#[trigger] table[i]).0 < p2(in_size)
    &&& forall|i: int| 0 <= i < table.len() ==> out_size >= 128 || (#[trigger] table[i]).1 < p2(out_size)
    &&& forall|i: int, j: int| 0 <= i < j < table.len() ==> (#[trigger] table[i]).0 != (#[trigger] table[j]).0
}

/// The value of the first `t` entries of `table` at key `x`, the later entry
/// winning.
pub open spec fn lookup_upto(table: Seq<(u128, u128)>, t: nat, x: int) -> Option<u128>
    decreases t,
{
    if t == 0 {
        None
    } else if table[t - 1].0 == x {
        Some(table[t - 1].1)
    } else {
        lookup_upto(table, (t - 1) as nat, x)
    }
}

/// The value of `table` at key `x`.
pub open spec fn lookup_of(table: Seq<(u128, u128)>, x: int) -> Option<u128> {
    lookup_upto(table, table.len(), x)
}

/// Output digit `j` of the candidate for input `x`: digit `j` of the table value
/// for the first `out_blocks` digits, then the match flag (1 when `x` is a key, 0
/// otherwise).
pub open spec fn match_digit(table: Seq<(u128, u128)>, out_blocks: nat, x: int, j: nat) -> u8 {
    match lookup_of(table, x) {
        Some(v) => if j < out_blocks {
            ((v >> ((2 * j) as u128)) & 3) as u8
        } else {
            1
        },
        None => 0,
    }
}

/// The lookup table, over the packed low part `p`, of output digit `j` for the high
/// value `h`.
pub open spec fn candidate_table(table: Seq<(u128, u128)>, out_blocks: nat, low_bits: nat, h: nat, j: nat) -> Seq<u8> {
    Seq::new(
        16,
        |p: int|
            if p < p2(low_bits) {
                match_digit(table, out_blocks, h * p2(low_bits) + p, j)
            } else {
                0
            },
    )
}

/// What the block operations of the construction compute.
#[verifier::reject_recursive_types(B)]
pub struct MatchOps<B> {
    /// Packs a block (high) with another (low).
    pub pack: spec_fn(B, B) -> B,
    /// Looks a block up in a 16-entry table.
    pub lut: spec_fn(B, Seq<u8>) -> B,
    /// `mux(cond, pos, if0, if1)`: `if0` when message bit `pos` of `cond` is clear,
    /// `if1` when it is set.
    pub mux: spec_fn(B, nat, B, B) -> B,
}

/// The closures compute the functions of `o`.
pub open spec fn match_implements<
    B,
    FP: Fn(B, B) -> B,
    FL: Fn(B, Vec<u8>) -> B,
    FM: Fn(B, usize, B, B) -> B,
>(pack: FP, lut: FL, mux: FM, o: MatchOps<B>) -> bool {
    &&& forall|a: B, b: B, r: B| #[trigger] call_ensures(pack, (a, b), r) ==> r == (o.pack)(a, b)
    &&& forall|a: B, t: Vec<u8>, r: B| #[trigger] call_ensures(lut, (a, t), r) ==> r == (o.lut)(a, t@)
    &&& forall|c: B, p: usize, a: B, b: B, r: B| #[trigger] call_ensures(mux, (c, p, a, b), r) ==> r == (o.mux)(c, p as nat, a, b)
}

/// One round of the mux tree: each pair of candidates reduced to one, on message
/// bit `pos` of `cond`.
pub open spec fn mux_round<B>(col: Seq<B>, cond: B, pos: nat, o: MatchOps<B>) -> Seq<B> {
    Seq::new(col.len() / 2, |k: int| (o.mux)(cond, pos, col[2 * k], col[2 * k + 1]))
}

/// A column after `b` rounds of the mux tree: high bit `i` is message bit `i % 2`
/// of block `2 + i / 2`.
pub open spec fn mux_rounds<B>(col: Seq<B>, src: Seq<B>, b: nat, o: MatchOps<B>) -> Seq<B>
    decreases b,
{
    if b == 0 {
        col
    } else {
        let i = (b - 1) as nat;
        mux_round(mux_rounds(col, src, i, o), src[(2 + i / 2) as int], i % 2, o)
    }
}

/// The packed low part of the input: block 0 alone, or blocks 1 and 0 packed.
pub open spec fn low_part<B>(src: Seq<B>, o: MatchOps<B>) -> B {
    if src.len() == 1 {
        src[0]
    } else {
        (o.pack)(src[1], src[0])
    }
}

/// The column of output digit `j` after the mux tree.
pub open spec fn match_column<B>(src: Seq<B>, table: Seq<(u128, u128)>, out_blocks: nat, j: nat, o: MatchOps<B>) -> Seq<B> {
    let nb = src.len();
    let low_bits = 2 * (if nb < 2 { nb } else { 2 });
    let high_bits = if nb < 2 { 0 } else { 2 * (nb - 2) };
    let cands = Seq::new(
        p2(high_bits as nat),
        |h: int| (o.lut)(low_part(src, o), candidate_table(table, out_blocks, low_bits as nat, h as nat, j)),
    );
    mux_rounds(cands, src, high_bits as nat, o)
}

/// Number of output blocks of a result of `out_size` bits.
pub open spec fn out_block_count(out_size: nat) -> nat {
    (out_size + 1) / 2
}

/// The output blocks and the flag blocks of the construction.
pub open spec fn match_value_spec<B>(src: Seq<B>, table: Seq<(u128, u128)>, out_size: nat, o: MatchOps<B>) -> (Seq<B>, Seq<B>) {
    let ob = out_block_count(out_size);
    (
        Seq::new(ob, |j: int| match_column(src, table, ob, j as nat, o)[0]),
        match_column(src, table, ob, ob, o),
    )
}

/// The dense view of `table` over the `size` values of the packed input.
fn dense_lookup(table: &[(u128, u128)], size: usize) -> (r: Vec<Option<u128>>)
    requires
        forall|i: int| 0 <= i < table@.len() ==> (#[trigger] table@[i]).0 < size,
    ensures
        r@.len() == size,
        forall|x: int| 0 <= x < size ==> #[trigger] r@[x] == lookup_of(table@, x),
{
    let mut lookup: Vec<Option<u128>> = Vec::new();
    let mut x: usize = 0;
    while x < size
        invariant
            x <= size,
            lookup@.len() == x,
            forall|y: int| 0 <= y < x ==> #[trigger] lookup@[y] == None::<u128>,
        decreases size - x,
    {
        lookup.push(None);
        x = x + 1;
    }
    let mut t: usize = 0;
    while t < table.len()
        invariant
            t <= table@.len(),
            lookup@.len() == size,
            forall|i: int| 0 <= i < table@.len() ==> (#[trigger] table@[i]).0 < size,
            forall|y: int| 0 <= y < size ==> #[trigger] lookup@[y] == lookup_upto(table@, t as nat, y),
        decreases table.len() - t,
    {
        let (k, v) = table[t];
        lookup.set(k as usize, Some(v));
        t = t + 1;
    }
    lookup
}

/// Output digit `j` of the candidate for input `x`, read from the dense view.
fn digit_of(lookup: &Vec<Option<u128>>, table: Ghost<Seq<(u128, u128)>>, out_blocks: usize, x: usize, j: usize) -> (d: u8)
    requires
        x < lookup@.len(),
        lookup@[x as int] == lookup_of(table@, x as int),
        out_blocks <= 64,
    ensures
        d == match_digit(table@, out_blocks as nat, x as int, j as nat),
{
    match lookup[x] {
        Some(v) => if j < out_blocks {
            ((v >> ((2 * j) as u128)) & 3) as u8
        } else {
            1
        },
        None => 0,
    }
}

/// Maps the blocks `src` of an `in_size`-bit integer through `table`: for each
/// possible high value, a lookup of the packed low part in a table derived from
/// `table` gives the candidate digits, and a mux tree on the high bits selects the
/// candidate of the actual high value. Returns the output blocks (`out_size` bits)
/// and the flag blocks (1 when the input is a key of `table`).
pub fn match_value_plan<
    B: Copy,
    FP: Fn(B, B) -> B,
    FL: Fn(B, Vec<u8>) -> B,
    FM: Fn(B, usize, B, B) -> B,
>(
    src: &[B],
    table: &[(u128, u128)],
    in_size: u16,
    out_size: u16,
    pack: &FP,
    lut: &FL,
    mux: &FM,
) -> (r: (Vec<B>, Vec<B>))
    requires
        1 <= in_size <= 8,
        src@.len() == (in_size + 1) / 2,
        out_size <= 128,
        valid_match_table(table@, in_size as nat, out_size as nat),
        forall|a: B, b: B| call_requires(*pack, (a, b)),
        forall|a: B, t: Vec<u8>| call_requires(*lut, (a, t)),
        forall|c: B, p: usize, a: B, b: B| call_requires(*mux, (c, p, a, b)),
    ensures
        r.0@.len() == out_block_count(out_size as nat),
        r.1@.len() == 1,
        forall|o: MatchOps<B>| #[trigger] match_implements(*pack, *lut, *mux, o) ==> (r.0@, r.1@)
            == match_value_spec(src@, table@, out_size as nat, o),
{
    proof {
        vstd::arithmetic::power2::lemma2_to64();
    }
    let nb = src.len();
    let size: usize = if nb == 1 { 4 } else if nb == 2 { 16 } else if nb == 3 { 64 } else { 256 };
    proof {
        assert(p2(in_size as nat) <= size);
        assert forall|i: int| 0 <= i < table@.len() implies (#[trigger] table@[i]).0 < size by {
            assert(table@[i].0 < p2(in_size as nat));
        }
    }
    let lookup = dense_lookup(table, size);
    let low = if nb == 1 { src[0] } else { pack(src[1], src[0]) };
    let low_bits: usize = if nb < 2 { 2 * nb } else { 4 };
    let high_bits: usize = if nb < 2 { 0 } else { 2 * (nb - 2) };
    let lowsz: usize = if nb < 2 { 4 } else { 16 };
    let highsz: usize = if nb <= 2 { 1 } else if nb == 3 { 4 } else { 16 };
    let ob: usize = ((out_size as usize) + 1) / 2;
    proof {
        assert(lowsz == p2(low_bits as nat));
        assert(highsz == p2(high_bits as nat));
        assert(highsz * lowsz == size);
    }
    let ghost tb = table@;
    let ghost ls = low;
    // The candidates, column by column.
    let mut columns: Vec<Vec<B>> = Vec::new();
    let mut j: usize = 0;
    while j <= ob
        invariant
            j <= ob + 1,
            ob <= 64,
            columns@.len() == j,
            lookup@.len() == size,
            highsz * lowsz == size,
            lowsz == p2(low_bits as nat),
            lowsz <= 16,
            highsz == p2(high_bits as nat),
            low_bits == 2 * (if nb < 2 { nb } else { 2 }),
            high_bits == (if nb < 2 { 0 } else { 2 * (nb - 2) }),
            nb == src@.len(),
            1 <= nb <= 4,
            tb == table@,
            nb == 1 ==> low == src@[0],
            nb >= 2 ==> call_ensures(*pack, (src@[1], src@[0]), low),
            forall|q: int| 0 <= q < j ==> (#[trigger] columns@[q])@.len() == highsz,
            forall|x: int| 0 <= x < size ==> #[trigger] lookup@[x] == lookup_of(table@, x),
            forall|a: B, t: Vec<u8>| call_requires(*lut, (a, t)),
            forall|o: MatchOps<B>| #[trigger] match_implements(*pack, *lut, *mux, o) && (nb >= 2 ==> low == (o.pack)(src@[1], src@[0])) ==> forall|q: int|
                0 <= q < j ==> (#[trigger] columns@[q])@ == Seq::new(
                    p2(high_bits as nat),
                    |h: int| (o.lut)(low_part(src@, o), candidate_table(table@, ob as nat, low_bits as nat, h as nat, q as nat)),
                ),
        decreases ob + 1 - j,
    {
        let mut col: Vec<B> = Vec::new();
        let mut h: usize = 0;
        while h < highsz
            invariant
                h <= highsz,
                ob <= 64,
                j <= ob,
                col@.len() == h,
                lookup@.len() == size,
                highsz * lowsz == size,
                lowsz == p2(low_bits as nat),
                lowsz <= 16,
                forall|x: int| 0 <= x < size ==> #[trigger] lookup@[x] == lookup_of(table@, x),
                forall|a: B, t: Vec<u8>| call_requires(*lut, (a, t)),
                forall|o: MatchOps<B>| #[trigger] match_implements(*pack, *lut, *mux, o) ==> forall|k: int|
                    0 <= k < h ==> #[trigger] col@[k] == (o.lut)(low, candidate_table(table@, ob as nat, low_bits as nat, k as nat, j as nat)),
            decreases highsz - h,
        {
            let mut entries: Vec<u8> = Vec::new();
            let mut p: usize = 0;
            while p < 16
                invariant
                    p <= 16,
                    h < highsz,
                    ob <= 64,
                    entries@.len() == p,
                    lookup@.len() == size,
                    highsz * lowsz == size,
                    lowsz == p2(low_bits as nat),
                    lowsz <= 16,
                    forall|x: int| 0 <= x < size ==> #[trigger] lookup@[x] == lookup_of(table@, x),
                    forall|q: int| 0 <= q < p ==> #[trigger] entries@[q] == candidate_table(table@, ob as nat, low_bits as nat, h as nat, j as nat)[q],
                decreases 16 - p,
            {
                let e = if p < lowsz {
                    assert(h * lowsz + p < size) by (nonlinear_arith)
                        requires
                            h < highsz,
                            p < lowsz,
                            highsz * lowsz == size,
                    ;
                    digit_of(&lookup, Ghost(table@), ob, h * lowsz + p, j)
                } else {
                    0
                };
                entries.push(e);
                p = p + 1;
            }
            proof {
                assert(entries@ =~= candidate_table(table@, ob as nat, low_bits as nat, h as nat, j as nat));
            }
            let c = lut(low, entries);
            col.push(c);
            h = h + 1;
        }
        proof {
            assert forall|o: MatchOps<B>| #[trigger] match_implements(*pack, *lut, *mux, o) && (nb >= 2 ==> low == (o.pack)(src@[1], src@[0])) implies col@ == Seq::new(
                p2(high_bits as nat),
                |h: int| (o.lut)(low_part(src@, o), candidate_table(table@, ob as nat, low_bits as nat, h as nat, j as nat)),
            ) by {
                assert(low == low_part(src@, o));
                assert(col@ =~= Seq::new(
                    p2(high_bits as nat),
                    |h: int| (o.lut)(low_part(src@, o), candidate_table(table@, ob as nat, low_bits as nat, h as nat, j as nat)),
                ));
            }
        }
        columns.push(col);
        j = j + 1;
    }
    // The mux tree.
    let mut b: usize = 0;
    let mut cur: usize = highsz;
    while b < high_bits
        invariant
            b <= high_bits,
            cur as nat == p2((high_bits - b) as nat),
            nb == 1 ==> low == src@[0],
            nb >= 2 ==> call_ensures(*pack, (src@[1], src@[0]), low),
            high_bits <= 4,
            forall|q: int| 0 <= q <= ob ==> (#[trigger] columns@[q])@.len() == cur,
            high_bits == (if nb < 2 { 0 } else { 2 * (nb - 2) }),
            nb == src@.len(),
            1 <= nb <= 4,
            columns@.len() == ob + 1,
            forall|a: B, t: Vec<u8>| call_requires(*lut, (a, t)),
            forall|c: B, p: usize, a: B, b: B| call_requires(*mux, (c, p, a, b)),
            forall|o: MatchOps<B>| #[trigger] match_implements(*pack, *lut, *mux, o) && (nb >= 2 ==> low == (o.pack)(src@[1], src@[0])) ==> forall|q: int|
                0 <= q <= ob ==> (#[trigger] columns@[q])@ == mux_rounds(
                    Seq::new(
                        p2(high_bits as nat),
                        |h: int| (o.lut)(low_part(src@, o), candidate_table(table@, ob as nat, low_bits as nat, h as nat, q as nat)),
                    ),
                    src@,
                    b as nat,
                    o,
                ),
        decreases high_bits - b,
    {
        let cond = src[2 + b / 2];
        let pos = b % 2;
        proof {
            vstd::arithmetic::power2::lemma_pow2_unfold((high_bits - b) as nat);
        }
        let mut next: Vec<Vec<B>> = Vec::new();
        let mut q: usize = 0;
        while q < columns.len()
            invariant
                q <= columns@.len(),
                forall|t: int| 0 <= t <= ob ==> (#[trigger] columns@[t])@.len() == cur,
                forall|t: int| 0 <= t < q ==> (#[trigger] next@[t])@.len() == cur / 2,
                next@.len() == q,
                columns@.len() == ob + 1,
                forall|c: B, p: usize, a: B, b: B| call_requires(*mux, (c, p, a, b)),
                forall|o: MatchOps<B>| #[trigger] match_implements(*pack, *lut, *mux, o) ==> forall|t: int|
                    0 <= t < q ==> (#[trigger] next@[t])@ == mux_round(columns@[t]@, cond, pos as nat, o),
            decreases columns.len() - q,
        {
            let column = &columns[q];
            let mut out: Vec<B> = Vec::new();
            let mut k: usize = 0;
            let clen = column.len();
            let half = clen / 2;
            while k < half
                invariant
                    k <= half,
                    clen == column@.len(),
                    half == column@.len() / 2,
                    out@.len() == k,
                    forall|c: B, p: usize, a: B, b: B| call_requires(*mux, (c, p, a, b)),
                    forall|o: MatchOps<B>| #[trigger] match_implements(*pack, *lut, *mux, o) ==> forall|t: int|
                        0 <= t < k ==> #[trigger] out@[t] == (o.mux)(cond, pos as nat, column@[2 * t], column@[2 * t + 1]),
                decreases half - k,
            {
                assert(2 * k + 1 < column@.len());
                let v = mux(cond, pos, column[2 * k], column[2 * k + 1]);
                out.push(v);
                k = k + 1;
            }
            proof {
                assert forall|o: MatchOps<B>| #[trigger] match_implements(*pack, *lut, *mux, o) implies out@
                    == mux_round(columns@[q as int]@, cond, pos as nat, o) by {
                    assert(out@ =~= mux_round(columns@[q as int]@, cond, pos as nat, o));
                }
            }
            next.push(out);
            q = q + 1;
        }
        proof {
            assert(src@[(2 + (b as nat) / 2) as int] == cond);
        }
        columns = next;
        cur = cur / 2;
        b = b + 1;
    }
    // The output digits and the flag.
    proof {
        vstd::arithmetic::power2::lemma2_to64();
        assert(cur == 1);
        assert(columns@[ob as int]@.len() == 1);
    }
    let mut outs: Vec<B> = Vec::new();
    let mut j2: usize = 0;
    while j2 < ob
        invariant
            j2 <= ob,
            columns@.len() == ob + 1,
            outs@.len() == j2,
            forall|q: int| 0 <= q < ob ==> (#[trigger] columns@[q])@.len() >= 1,
            forall|t: int| 0 <= t < j2 ==> #[trigger] outs@[t] == columns@[t]@[0],
        decreases ob - j2,
    {
        outs.push(columns[j2][0]);
        j2 = j2 + 1;
    }
    let flag = columns.pop().unwrap();
    (outs, flag)
}

/// The operations on clear digits: packing is `4 * high + low`, a lookup reads its
/// table, and the mux selects on the message bit.
pub open spec fn clear_match_ops() -> MatchOps<int> {
    MatchOps {
        pack: |h: int, l: int| 4 * h + l,
        lut: |x: int, t: Seq<u8>| t[x] as int,
        mux: |c: int, pos: nat, a: int, b: int| if (c / (p2(pos) as int)) % 2 == 1 { b } else { a },
    }
}

/// The value of clear base-4 digits, least significant first (at most four).
pub open spec fn digits_value4(src: Seq<int>) -> int {
    let d = |i: int| if i < src.len() { src[i] } else { 0 };
    d(0) + 4 * d(1) + 16 * d(2) + 64 * d(3)
}

proof fn lemma_mux_tree_selects(cands: Seq<int>, src: Seq<int>)
    requires
        3 <= src.len() <= 4,
        forall|i: int| 0 <= i < src.len() ==> 0 <= #[trigger] src[i] < 4,
        cands.len() == p2((2 * (src.len() - 2)) as nat),
    ensures
        mux_rounds(cands, src, (2 * (src.len() - 2)) as nat, clear_match_ops())[0]
            == cands[if src.len() == 3 { src[2] } else { src[2] + 4 * src[3] }],
{
    vstd::arithmetic::power2::lemma2_to64();
    reveal_with_fuel(mux_rounds, 5);
    let o = clear_match_ops();
    let s2 = src[2];
    assert(s2 == 0 || s2 == 1 || s2 == 2 || s2 == 3);
    if src.len() == 3 {
        let r1 = mux_rounds(cands, src, 1, o);
        assert(r1 == mux_round(cands, src[2], 0, o));
        let r2 = mux_rounds(cands, src, 2, o);
        assert(r2 == mux_round(r1, src[2], 1, o));
        assert(r2[0] == cands[s2]);
    } else {
        let s3 = src[3];
        assert(s3 == 0 || s3 == 1 || s3 == 2 || s3 == 3);
        let r1 = mux_rounds(cands, src, 1, o);
        assert(r1 == mux_round(cands, src[2], 0, o));
        let r2 = mux_rounds(cands, src, 2, o);
        assert(r2 == mux_round(r1, src[2], 1, o));
        let r3 = mux_rounds(cands, src, 3, o);
        assert(r3 == mux_round(r2, src[3], 0, o));
        let r4 = mux_rounds(cands, src, 4, o);
        assert(r4 == mux_round(r3, src[3], 1, o));
        assert(forall|k: int| 0 <= k < 4 ==> #[trigger] r2[k] == cands[4 * k + s2]);
        assert(r4[0] == r2[s3]);
    }
}

/// On clear digits, the construction is a table lookup: output digit `j` is digit
/// `j` of the value that `table` gives the input (0 when the input is no key), and
/// the flag is 1 exactly when the input is a key.
pub proof fn lemma_match_value_clear(src: Seq<int>, table: Seq<(u128, u128)>, in_size: nat, out_size: nat)
    requires
        1 <= in_size <= 8,
        src.len() == (in_size + 1) / 2,
        forall|i: int| 0 <= i < src.len() ==> 0 <= #[trigger] src[i] < 4,
        out_size <= 128,
    ensures
        ({
            let ob = out_block_count(out_size);
            let (out, flag) = match_value_spec(src, table, out_size, clear_match_ops());
            &&& out.len() == ob
            &&& forall|j: int| 0 <= j < ob ==> #[trigger] out[j] == match_digit(table, ob, digits_value4(src), j as nat) as int
            &&& flag.len() == 1
            &&& flag[0] == match_digit(table, ob, digits_value4(src), ob) as int
        }),
{
    vstd::arithmetic::power2::lemma2_to64();
    let o = clear_match_ops();
    let ob = out_block_count(out_size);
    let nb = src.len();
    let low_bits = 2 * (if nb < 2 { nb } else { 2 });
    let high_bits = if nb < 2 { 0 } else { 2 * (nb - 2) };
    let low = low_part(src, o);
    assert(0 <= low < p2(low_bits as nat));
    let hv: int = if nb <= 2 { 0 } else if nb == 3 { src[2] } else { src[2] + 4 * src[3] };
    if nb == 1 {
        assert(p2(low_bits as nat) == 4);
        assert(low == src[0]);
    } else {
        assert(p2(low_bits as nat) == 16);
        assert(low == 4 * src[1] + src[0]);
    }
    assert(hv * p2(low_bits as nat) + low == digits_value4(src));
    assert forall|j: nat| j <= ob implies (#[trigger] match_column(src, table, ob, j, o))[0]
        == match_digit(table, ob, digits_value4(src), j) as int && match_column(src, table, ob, j, o).len() == 1 by {
        let cands = Seq::new(
            p2(high_bits as nat),
            |h: int| (o.lut)(low, candidate_table(table, ob, low_bits as nat, h as nat, j)),
        );
        if nb >= 3 {
            lemma_mux_tree_selects(cands, src);
            reveal_with_fuel(mux_rounds, 5);
        }
        assert(cands[hv] == match_digit(table, ob, hv * p2(low_bits as nat) + low, j) as int);
    }
    let (out, flag) = match_value_spec(src, table, out_size, o);
    assert forall|j: int| 0 <= j < ob implies #[trigger] out[j] == match_digit(table, ob, digits_value4(src), j as nat) as int by {
        assert(out[j] == match_column(src, table, ob, j as nat, o)[0]);
    }
}

} // verus!
