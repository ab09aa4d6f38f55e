//! The Kogge-Stone prefix tree of the carry-propagating adder: how a range of
//! positions is split, how two partial carries are combined, and the memoised
//! tree that computes the prefix of any range.
use vstd::prelude::*;
use crate::aes::computes2;

verus! {

/// The largest power of two that is at most `n` (1 for `n` below 2).
pub open spec fn floor_pow2(n: nat) -> nat
    decreases n,
{
    if n < 2 {
        1
    } else {
        2 * floor_pow2(n / 2)
    }
}

/// `floor_pow2(n)` is a power of two no larger than `n`, and more than half of it.
pub proof fn lemma_floor_pow2(n: nat)
    requires
        n >= 1,
    ensures
        1 <= floor_pow2(n) <= n < 2 * floor_pow2(n),
    decreases n,
{
    if n >= 2 {
        lemma_floor_pow2(n / 2);
    }
}

/// Where the range `[start, end]` is split: the upper part starts here.
///
/// With `pow` the largest power of two in the length of the range, a range of
/// length `pow` is cut in halves, and a longer one after its first `pow`
/// positions.
pub open spec fn split_point(start: int, end: int) -> int {
    let range = (end - start + 1) as nat;
    let pow = floor_pow2(range);
    if pow == range {
        start + pow / 2
    } else {
        start + pow
    }
}

/// Both parts of a split range are non-empty.
pub proof fn lemma_split_point(start: int, end: int)
    requires
        start < end,
    ensures
        start < split_point(start, end) <= end,
{
    lemma_floor_pow2((end - start + 1) as nat);
}

/// The prefix that the tree computes for `[start, end]`, combining the parts of
/// each split with `g`.
pub open spec fn kogge_value<E>(xs: Seq<E>, g: spec_fn(E, E) -> E, start: int, end: int) -> E
    decreases end - start,
{
    if end <= start {
        xs[start]
    } else {
        let mid = split_point(start, end);
        proof {
            lemma_split_point(start, end);
        }
        g(kogge_value(xs, g, start, mid - 1), kogge_value(xs, g, mid, end))
    }
}

/// The elements `xs[start..=end]` combined with `g` from left to right.
pub open spec fn fold_range<E>(xs: Seq<E>, g: spec_fn(E, E) -> E, start: int, end: int) -> E
    decreases end - start,
{
    if end <= start {
        xs[start]
    } else {
        g(fold_range(xs, g, start, end - 1), xs[end])
    }
}

/// `g` is associative.
pub open spec fn associative<E>(g: spec_fn(E, E) -> E) -> bool {
    forall|a: E, b: E, c: E| #[trigger] g(g(a, b), c) == g(a, g(b, c))
}

proof fn lemma_fold_split<E>(xs: Seq<E>, g: spec_fn(E, E) -> E, start: int, mid: int, end: int)
    requires
        associative(g),
        start < mid <= end,
    ensures
        fold_range(xs, g, start, end) == g(fold_range(xs, g, start, mid - 1), fold_range(xs, g, mid, end)),
    decreases end - mid,
{
    if mid < end {
        lemma_fold_split(xs, g, start, mid, end - 1);
        let a = fold_range(xs, g, start, mid - 1);
        let b = fold_range(xs, g, mid, end - 1);
        assert(g(g(a, b), xs[end]) == g(a, g(b, xs[end])));
    }
}

/// For an associative combination, the prefix tree computes the same value as
/// combining the elements of the range one after the other.
pub proof fn lemma_kogge_prefix_is_fold<E>(xs: Seq<E>, g: spec_fn(E, E) -> E, start: int, end: int)
    requires
        associative(g),
        start <= end,
    ensures
        kogge_value(xs, g, start, end) == fold_range(xs, g, start, end),
    decreases end - start,
{
    if start < end {
        let mid = split_point(start, end);
        lemma_split_point(start, end);
        lemma_kogge_prefix_is_fold(xs, g, start, mid - 1);
        lemma_kogge_prefix_is_fold(xs, g, mid, end);
        lemma_fold_split(xs, g, start, mid, end);
    }
}

/// The largest power of two that is at most `n`.
fn largest_pow2_le(n: usize) -> (p: usize)
    requires
        n >= 1,
    ensures
        p == floor_pow2(n as nat),
    decreases n,
{
    if n < 2 {
        1
    } else {
        let h = largest_pow2_le(n / 2);
        proof {
            lemma_floor_pow2((n / 2) as nat);
        }
        2 * h
    }
}

/// A Kogge-Stone prefix tree over `inputs`: the prefix of a range is the
/// combination of the prefixes of the two parts of its split, each computed
/// once and kept.
pub struct KoggeTree<E, F> {
    combine: F,
    cache: Vec<Vec<Option<E>>>,
    inputs: Ghost<Seq<E>>,
}

impl<E: Copy, F: Fn(E, E) -> E> KoggeTree<E, F> {
    /// The elements the tree was built on.
    pub closed spec fn inputs(&self) -> Seq<E> {
        self.inputs@
    }

    /// The combination the tree was built with.
    pub closed spec fn combination(&self) -> F {
        self.combine
    }

    /// What the tree holds for the range `[start, end]`, if it has computed it.
    pub closed spec fn entry(&self, start: int, end: int) -> Option<E> {
        self.cache@[start]@[end]
    }

    /// The cache is square over the inputs, holds each input on its diagonal,
    /// and holds for every other range it has computed the prefix of that range.
    pub closed spec fn wf(&self) -> bool {
        let n = self.inputs@.len();
        &&& self.cache@.len() == n
        &&& forall|a: E, b: E| call_requires(self.combine, (a, b))
        &&& forall|s: int| 0 <= s < n ==> (#[trigger] self.cache@[s])@.len() == n
        &&& forall|s: int| 0 <= s < n ==> #[trigger] self.entry(s, s) == Some(self.inputs@[s])
        &&& forall|s: int, e: int|
            0 <= s < n && 0 <= e < n && (#[trigger] self.entry(s, e)) is Some ==> s <= e
                && forall|g: spec_fn(E, E) -> E|
                computes2(self.combine, g) ==> self.entry(s, e)->0 == #[trigger] kogge_value(
                    self.inputs@,
                    g,
                    s,
                    e,
                )
    }

    /// A tree over `inputs` that combines with `combine`.
    pub fn new(inputs: Vec<E>, combine: F) -> (t: Self)
        requires
            forall|a: E, b: E| call_requires(combine, (a, b)),
        ensures
            t.wf(),
            t.inputs() == inputs@,
            t.combination() == combine,
    {
        let n = inputs.len();
        let mut cache: Vec<Vec<Option<E>>> = Vec::new();
        let mut s: usize = 0;
        while s < n
            invariant
                s <= n,
                n == inputs@.len(),
                cache@.len() == s,
                forall|i: int| 0 <= i < s ==> (#[trigger] cache@[i])@.len() == n,
                forall|i: int, j: int|
                    0 <= i < s && 0 <= j < n ==> (#[trigger] cache@[i]@[j]) == (if i == j {
                        Some(inputs@[i])
                    } else {
                        None
                    }),
            decreases n - s,
        {
            let mut row: Vec<Option<E>> = Vec::new();
            let mut e: usize = 0;
            while e < n
                invariant
                    e <= n,
                    s < n,
                    n == inputs@.len(),
                    row@.len() == e,
                    forall|j: int| 0 <= j < e ==> #[trigger] row@[j] == (if s == j {
                        Some(inputs@[s as int])
                    } else {
                        None
                    }),
                decreases n - e,
            {
                if e == s {
                    row.push(Some(inputs[s]));
                } else {
                    row.push(None);
                }
                e = e + 1;
            }
            cache.push(row);
            s = s + 1;
        }
        KoggeTree { combine, cache, inputs: Ghost(inputs@) }
    }

    /// Splits the range `[start, end]` into its two parts: the lower one is
    /// `[start, mid - 1]` and the upper one `[mid, end]`.
    pub fn get_subindex(start: usize, end: usize) -> (r: ((usize, usize), (usize, usize)))
        requires
            start < end,
            end - start < usize::MAX,
        ensures
            r.0.0 == start,
            r.1.1 == end,
            r.1.0 == split_point(start as int, end as int),
            r.0.1 + 1 == r.1.0,
            start < r.1.0 <= end,
    {
        let range = end - start + 1;
        let pow = largest_pow2_le(range);
        proof {
            lemma_split_point(start as int, end as int);
            lemma_floor_pow2(range as nat);
        }
        let mid = if pow == range {
            start + pow / 2
        } else {
            start + pow
        };
        ((start, mid - 1), (mid, end))
    }

    /// Computes and keeps the prefix of `[start, end]`, and of the ranges it is
    /// made of, where not done yet.
    pub fn insert_subtree(&mut self, start: usize, end: usize)
        requires
            old(self).wf(),
            start <= end < old(self).inputs().len(),
        ensures
            final(self).wf(),
            final(self).inputs() == old(self).inputs(),
            final(self).combination() == old(self).combination(),
            final(self).entry(start as int, end as int) is Some,
            forall|s: int, e: int|
                0 <= s < old(self).inputs().len() && 0 <= e < old(self).inputs().len() && (
                #[trigger] old(self).entry(s, e)) is Some ==> final(self).entry(s, e) == old(
                    self,
                ).entry(s, e),
        decreases end - start,
    {
        if self.cache[start][end].is_some() {
            return;
        }
        proof {
            if start == end {
                assert(self.entry(start as int, start as int) == Some(self.inputs@[start as int]));
            }
        }
        let n = self.cache.len();
        let ((ls, le), (ms, me)) = Self::get_subindex(start, end);
        self.insert_subtree(ls, le);
        self.insert_subtree(ms, me);
        let lsb = self.cache[ls][le].unwrap();
        let msb = self.cache[ms][me].unwrap();
        let v = (self.combine)(lsb, msb);
        let ghost mid_self = *self;
        let mut row: Vec<Option<E>> = Vec::new();
        let mut j: usize = 0;
        while j < n
            invariant
                j <= n,
                start < n,
                n == self.cache@.len(),
                self.cache@[start as int]@.len() == n,
                row@.len() == j,
                forall|k: int| 0 <= k < j ==> #[trigger] row@[k] == self.cache@[start as int]@[k],
            decreases n - j,
        {
            row.push(self.cache[start][j]);
            j = j + 1;
        }
        row.set(end, Some(v));
        self.cache.set(start, row);
        proof {
            let xs = self.inputs@;
            assert forall|g: spec_fn(E, E) -> E| computes2(self.combine, g) implies v
                == #[trigger] kogge_value(xs, g, start as int, end as int) by {
                assert(call_ensures(self.combine, (lsb, msb), v));
                assert(mid_self.entry(ls as int, le as int) == Some(lsb));
                assert(mid_self.entry(ms as int, me as int) == Some(msb));
                assert(lsb == kogge_value(xs, g, ls as int, le as int));
                assert(msb == kogge_value(xs, g, ms as int, me as int));
                assert(v == g(lsb, msb));
            }
            assert forall|s: int| 0 <= s < n implies (#[trigger] self.cache@[s])@.len() == n by {
                if s != start {
                    assert(self.cache@[s] == mid_self.cache@[s]);
                }
            }
            assert forall|s: int| 0 <= s < n implies #[trigger] self.entry(s, s) == Some(
                self.inputs@[s],
            ) by {
                assert(mid_self.entry(s, s) == Some(self.inputs@[s]));
            }
            assert forall|s: int, e: int|
                0 <= s < n && 0 <= e < n && (#[trigger] self.entry(s, e)) is Some implies s <= e
                && forall|g: spec_fn(E, E) -> E|
                computes2(self.combine, g) ==> self.entry(s, e)->0 == #[trigger] kogge_value(
                    self.inputs@,
                    g,
                    s,
                    e,
                ) by {
                if s == start && e == end {
                } else {
                    assert(self.entry(s, e) == mid_self.entry(s, e));
                }
            }
            assert forall|s: int, e: int|
                0 <= s < n && 0 <= e < n && (#[trigger] old(self).entry(s, e)) is Some implies self.entry(
                    s,
                    e,
                ) == old(self).entry(s, e) by {
                assert(mid_self.entry(s, e) == old(self).entry(s, e));
            }
        }
    }

    /// The prefix of `[start, end]`: the combination, split by split, of the
    /// inputs of the range.
    pub fn get_prefix(&mut self, start: usize, end: usize) -> (r: E)
        requires
            old(self).wf(),
            start <= end < old(self).inputs().len(),
        ensures
            final(self).wf(),
            final(self).inputs() == old(self).inputs(),
            final(self).combination() == old(self).combination(),
            forall|g: spec_fn(E, E) -> E|
                computes2(old(self).combination(), g) ==> r == #[trigger] kogge_value(
                    old(self).inputs(),
                    g,
                    start as int,
                    end as int,
                ),
    {
        self.insert_subtree(start, end);
        self.cache[start][end].unwrap()
    }
}

/// How two partial carries of the prefix tree are combined.
///
/// A partial carry covering `cpos` generate/propagate positions is kept raw
/// while it fits in the data bits of a block, and in a reduced form (one
/// position) otherwise.
#[derive(Clone, Copy, Debug, PartialEq, Eq)]
pub struct KoggeStep {
    /// The lower part enters in its reduced form.
    pub lsb_fresh: bool,
    /// The upper part enters in its reduced form.
    pub msb_fresh: bool,
    /// Number of positions of the combined value.
    pub cpos: usize,
    /// Factor by which the upper part is multiplied before the addition.
    pub msb_shift: u8,
    /// The combined value fills the whole block and reaches the padding bit.
    pub spills: bool,
}

/// The combination of a lower part of `l` positions and an upper part of `m`
/// positions in blocks of `width` data bits.
pub open spec fn kogge_step_spec(l: usize, m: usize, width: usize) -> KoggeStep {
    let (lsb_fresh, msb_fresh, cpos, shift) = if l + m > width {
        if m + 1 > width {
            (true, true, 2int, 2int)
        } else {
            (true, false, m + 1, 2int)
        }
    } else {
        (false, false, l + m, vstd::arithmetic::power2::pow2(l as nat) as int)
    };
    KoggeStep {
        lsb_fresh,
        msb_fresh,
        cpos: cpos as usize,
        msb_shift: shift as u8,
        spills: cpos == width,
    }
}

/// Decides how to combine a lower part of `lsb_cpos` positions with an upper
/// part of `msb_cpos` positions, in blocks of `total_width` data bits.
pub fn kogge_step(lsb_cpos: usize, msb_cpos: usize, total_width: usize) -> (s: KoggeStep)
    requires
        lsb_cpos + msb_cpos <= usize::MAX,
        lsb_cpos + msb_cpos <= total_width ==> lsb_cpos < 8,
    ensures
        s == kogge_step_spec(lsb_cpos, msb_cpos, total_width),
{
    let cpos_trial = lsb_cpos + msb_cpos;
    let (lsb_fresh, msb_fresh, cpos, msb_shift) = if cpos_trial > total_width {
        if msb_cpos >= total_width {
            (true, true, 2usize, 2u8)
        } else {
            (true, false, msb_cpos + 1, 2u8)
        }
    } else {
        let sh = lsb_cpos as u8;
        proof {
            vstd::bits::lemma_u8_pow2_no_overflow(sh as nat);
            vstd::bits::lemma_u8_shl_is_mul(1, sh);
        }
        (false, false, cpos_trial, 1u8 << sh)
    };
    KoggeStep { lsb_fresh, msb_fresh, cpos, msb_shift, spills: cpos == total_width }
}

/// For blocks of two to four data bits, combining parts that each fit in a
/// block gives a value of 2, 3 or `width` positions, never more than `width`:
/// one of the reductions of the tree applies to it.
pub proof fn lemma_kogge_step_reducible(l: usize, m: usize, width: usize)
    requires
        2 <= width <= 4,
        1 <= l <= width,
        1 <= m <= width,
    ensures
        ({
            let c = kogge_step_spec(l, m, width).cpos;
            &&& 2 <= c <= width
            &&& c == 2 || c == 3 || c == width
        }),
{
}

/// The lookup that reduces a combined value of `cpos` positions.
#[derive(Clone, Copy, Debug, PartialEq, Eq)]
pub enum KoggeReduction {
    /// Two positions.
    Carry2,
    /// Three positions.
    Carry3,
    /// The whole block, read back through the padding bit.
    CarryPad,
}

/// Chooses the reduction of a combined value of `cpos` positions, which must be
/// 2, 3 or `total_width`.
pub fn kogge_reduction(cpos: usize, total_width: usize) -> (r: KoggeReduction)
    requires
        cpos == 2 || cpos == 3 || cpos == total_width,
    ensures
        r == (if cpos == 2 {
            KoggeReduction::Carry2
        } else if cpos == 3 {
            KoggeReduction::Carry3
        } else {
            KoggeReduction::CarryPad
        }),
{
    if cpos == 2 {
        KoggeReduction::Carry2
    } else if cpos == 3 {
        KoggeReduction::Carry3
    } else {
        KoggeReduction::CarryPad
    }
}

/// The carry chain of a chunk: its carry in, then the partial carries of its
/// positions.
pub open spec fn carry_chain<E>(cin: E, pgs: Seq<E>) -> Seq<E> {
    seq![cin] + pgs
}

/// The carries of a chunk: for each position `i`, the prefix of the chain up to
/// it (the carry into position `i`), and the prefix of the whole chain (the carry
/// out of the chunk), each computed by a prefix tree over the chain.
pub fn kogge_propagate_carry<E: Copy, F: Fn(E, E) -> E + Copy>(pgs: &[E], cin: E, combine: F) -> (r: (
    Vec<E>,
    E,
))
    requires
        forall|a: E, b: E| call_requires(combine, (a, b)),
        pgs@.len() < usize::MAX,
    ensures
        r.0@.len() == pgs@.len(),
        forall|g: spec_fn(E, E) -> E|
            #[trigger] computes2(combine, g) ==> (forall|i: int|
                0 <= i < pgs@.len() ==> r.0@[i] == #[trigger] kogge_value(
                    carry_chain(cin, pgs@),
                    g,
                    0,
                    i,
                )) && r.1 == kogge_value(carry_chain(cin, pgs@), g, 0, pgs@.len() as int),
{
    let n = pgs.len();
    let mut chain: Vec<E> = Vec::new();
    chain.push(cin);
    let mut k: usize = 0;
    while k < n
        invariant
            n == pgs@.len(),
            k <= n,
            chain@ == carry_chain(cin, pgs@.take(k as int)),
        decreases n - k,
    {
        proof {
            assert(carry_chain(cin, pgs@.take(k + 1)) =~= carry_chain(cin, pgs@.take(k as int)).push(
                pgs@[k as int],
            ));
        }
        chain.push(pgs[k]);
        k = k + 1;
    }
    proof {
        assert(pgs@.take(n as int) =~= pgs@);
    }
    let ghost xs = chain@;
    let mut tree = KoggeTree::new(chain, combine);
    let mut out: Vec<E> = Vec::new();
    let mut i: usize = 0;
    while i < n
        invariant
            n == pgs@.len(),
            n < usize::MAX,
            i <= n,
            xs == carry_chain(cin, pgs@),
            xs.len() == n + 1,
            tree.wf(),
            tree.inputs() == xs,
            tree.combination() == combine,
            out@.len() == i,
            forall|g: spec_fn(E, E) -> E|
                #[trigger] computes2(combine, g) ==> forall|j: int|
                    0 <= j < i ==> out@[j] == #[trigger] kogge_value(xs, g, 0, j),
        decreases n - i,
    {
        let c = tree.get_prefix(0, i);
        out.push(c);
        i = i + 1;
    }
    let cout = tree.get_prefix(0, n);
    (out, cout)
}

/// Prefixes of the chain restarted at position `pos` from the prefix up to it are
/// the prefixes of the whole chain.
proof fn lemma_restart_fold<E>(full: Seq<E>, g: spec_fn(E, E) -> E, pos: int, chain: Seq<E>, j: int)
    requires
        0 <= pos,
        0 <= j < chain.len(),
        pos + chain.len() <= full.len(),
        chain[0] == fold_range(full, g, 0, pos),
        forall|t: int| 0 < t < chain.len() ==> chain[t] == full[pos + t],
    ensures
        fold_range(chain, g, 0, j) == fold_range(full, g, 0, pos + j),
    decreases j,
{
    if j > 0 {
        lemma_restart_fold(full, g, pos, chain, j - 1);
    }
}

/// End of chunk `k` of `n` positions cut into chunks of `w`.
pub open spec fn chunk_end(n: nat, w: nat, k: nat) -> nat {
    if (k + 1) * w < n { (k + 1) * w } else { n }
}

/// The carry into chunk `k` when `pgs` is resolved by chunks of `w` positions: the
/// carry in for the first chunk, and for each next one the carry out of the
/// prefix tree of the chunk before.
pub open spec fn chunk_carry_in<E>(pgs: Seq<E>, cin: E, w: nat, g: spec_fn(E, E) -> E, k: nat) -> E
    decreases k,
{
    if k == 0 {
        cin
    } else {
        let lo = ((k - 1) * w) as int;
        let hi = chunk_end(pgs.len(), w, (k - 1) as nat) as int;
        kogge_value(carry_chain(chunk_carry_in(pgs, cin, w, g, (k - 1) as nat), pgs.subrange(lo, hi)), g, 0, hi - lo)
    }
}

/// The carry into position `i` when `pgs` is resolved by chunks of `w`
/// positions: the prefix, in the tree of its chunk, up to `i`.
pub open spec fn chunked_carry_at<E>(pgs: Seq<E>, cin: E, w: nat, g: spec_fn(E, E) -> E, i: int) -> E {
    let k = (i / w as int) as nat;
    let lo = (k * w) as int;
    let hi = chunk_end(pgs.len(), w, k) as int;
    kogge_value(carry_chain(chunk_carry_in(pgs, cin, w, g, k), pgs.subrange(lo, hi)), g, 0, i - lo)
}

/// Number of chunks of `w` positions in `n`.
pub open spec fn chunk_count(n: nat, w: nat) -> nat {
    ((n + w - 1) / (w as int)) as nat
}

/// The carries of the positions of `pgs`, resolved by chunks of `par_w` positions:
/// each chunk goes through its own prefix tree, and its carry out is the carry in
/// of the next chunk. Returns the carry into each position and the final carry out.
pub fn kogge_chunked_carries<E: Copy, F: Fn(E, E) -> E + Copy>(
    pgs: &[E],
    cin: E,
    par_w: usize,
    combine: F,
) -> (r: (Vec<E>, E))
    requires
        par_w >= 1,
        forall|a: E, b: E| call_requires(combine, (a, b)),
        pgs@.len() < usize::MAX,
    ensures
        r.0@.len() == pgs@.len(),
        forall|g: spec_fn(E, E) -> E|
            #[trigger] computes2(combine, g) && associative(g) ==> (forall|i: int|
                0 <= i < pgs@.len() ==> r.0@[i] == #[trigger] fold_range(
                    carry_chain(cin, pgs@),
                    g,
                    0,
                    i,
                )) && r.1 == fold_range(carry_chain(cin, pgs@), g, 0, pgs@.len() as int),
        forall|g: spec_fn(E, E) -> E|
            #[trigger] computes2(combine, g) ==> (forall|i: int|
                0 <= i < pgs@.len() ==> r.0@[i] == #[trigger] chunked_carry_at(
                    pgs@,
                    cin,
                    par_w as nat,
                    g,
                    i,
                )) && r.1 == chunk_carry_in(pgs@, cin, par_w as nat, g, chunk_count(pgs@.len(), par_w as nat)),
{
    let n = pgs.len();
    let ghost full = carry_chain(cin, pgs@);
    let ghost mut nk: nat = 0;
    let mut result: Vec<E> = Vec::new();
    let mut carry = cin;
    let mut pos: usize = 0;
    while pos < n
        invariant
            n == pgs@.len(),
            n < usize::MAX,
            par_w >= 1,
            pos <= n,
            full == carry_chain(cin, pgs@),
            forall|a: E, b: E| call_requires(combine, (a, b)),
            result@.len() == pos,
            forall|g: spec_fn(E, E) -> E|
                #[trigger] computes2(combine, g) && associative(g) ==> carry == fold_range(
                    full,
                    g,
                    0,
                    pos as int,
                ) && forall|j: int|
                    0 <= j < pos ==> result@[j] == #[trigger] fold_range(full, g, 0, j),
            pos as nat == chunk_end(n as nat, par_w as nat, (nk - 1) as nat) || (nk == 0 && pos == 0),
            pos < n ==> pos == nk * par_w,
            nk > 0 ==> (nk - 1) * par_w < n,
            pos == n ==> n <= nk * par_w,
            forall|g: spec_fn(E, E) -> E|
                #[trigger] computes2(combine, g) ==> carry == chunk_carry_in(pgs@, cin, par_w as nat, g, nk)
                    && forall|j: int|
                    0 <= j < pos ==> result@[j] == #[trigger] chunked_carry_at(pgs@, cin, par_w as nat, g, j),
        decreases n - pos,
    {
        let end = if par_w < n - pos {
            pos + par_w
        } else {
            n
        };
        let mut chunk: Vec<E> = Vec::new();
        let mut k: usize = pos;
        while k < end
            invariant
                pos <= k <= end <= n,
                n == pgs@.len(),
                chunk@ == pgs@.subrange(pos as int, k as int),
            decreases end - k,
        {
            proof {
                assert(pgs@.subrange(pos as int, k + 1) =~= pgs@.subrange(pos as int, k as int).push(
                    pgs@[k as int],
                ));
            }
            chunk.push(pgs[k]);
            k = k + 1;
        }
        let (carries, cout) = kogge_propagate_carry(chunk.as_slice(), carry, combine);
        let ghost old_result = result@;
        let ghost old_carry = carry;
        let mut t: usize = 0;
        while t < carries.len()
            invariant
                t <= carries@.len(),
                carries@.len() == end - pos,
                result@.len() == pos + t,
                forall|j: int| 0 <= j < pos ==> result@[j] == old_result[j],
                forall|j: int| 0 <= j < t ==> result@[pos + j] == carries@[j],
            decreases carries.len() - t,
        {
            result.push(carries[t]);
            t = t + 1;
        }
        proof {
            let chain = carry_chain(old_carry, chunk@);
            assert forall|g: spec_fn(E, E) -> E|
                #[trigger] computes2(combine, g) && associative(g) implies cout == fold_range(
                    full,
                    g,
                    0,
                    end as int,
                ) && forall|j: int|
                    0 <= j < end ==> result@[j] == #[trigger] fold_range(full, g, 0, j) by {
                assert(chain[0] == fold_range(full, g, 0, pos as int));
                assert forall|q: int| 0 < q < chain.len() implies chain[q] == full[pos + q] by {
                    assert(chain[q] == chunk@[q - 1]);
                    assert(full[pos + q] == pgs@[pos + q - 1]);
                }
                lemma_kogge_prefix_is_fold(chain, g, 0, (end - pos) as int);
                lemma_restart_fold(full, g, pos as int, chain, (end - pos) as int);
                assert forall|j: int| 0 <= j < end implies result@[j] == #[trigger] fold_range(
                    full,
                    g,
                    0,
                    j,
                ) by {
                    if j >= pos {
                        let q = j - pos;
                        assert(result@[j] == carries@[q]);
                        lemma_kogge_prefix_is_fold(chain, g, 0, q);
                        lemma_restart_fold(full, g, pos as int, chain, q);
                    } else {
                        assert(result@[j] == old_result[j]);
                    }
                }
            }
        }
        proof {
            let w = par_w as nat;
            assert(pos == nk * w);
            assert((nk + 1) * w == nk * w + w) by (nonlinear_arith);
            assert(end == chunk_end(n as nat, w, nk));
            assert forall|g: spec_fn(E, E) -> E| #[trigger] computes2(combine, g) implies cout
                == chunk_carry_in(pgs@, cin, w, g, nk + 1) && forall|j: int|
                0 <= j < end ==> result@[j] == #[trigger] chunked_carry_at(pgs@, cin, w, g, j) by {
                assert((nk + 1 - 1) as nat == nk);
                assert forall|j: int| 0 <= j < end implies result@[j] == #[trigger] chunked_carry_at(
                    pgs@,
                    cin,
                    w,
                    g,
                    j,
                ) by {
                    if j >= pos {
                        let q = j - pos;
                        assert(j / (w as int) == nk) by (nonlinear_arith)
                            requires
                                j >= nk * w,
                                j < end,
                                end <= nk * w + w,
                                w >= 1,
                        ;
                        assert(result@[j] == carries@[q]);
                    } else {
                        assert(result@[j] == old_result[j]);
                    }
                }
            }
            assert(nk * w + w == (nk + 1) * w) by (nonlinear_arith);
        }
        carry = cout;
        pos = end;
        proof {
            nk = nk + 1;
        }
    }
    proof {
        let w = par_w as nat;
        if n > 0 {
            assert(nk > 0);
            assert(((n + w - 1) / (w as int)) as nat == nk) by (nonlinear_arith)
                requires
                    (nk - 1) * w < n,
                    n <= nk * w,
                    w >= 1,
                    nk >= 1,
            ;
        } else {
            assert(nk == 0);
            assert(((n + w - 1) / (w as int)) == 0) by (nonlinear_arith)
                requires
                    n == 0,
                    w >= 1,
            ;
        }
    }
    (result, carry)
}

} // verus!
