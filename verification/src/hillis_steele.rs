//! The Hillis-Steele resolution of group carries: a prefix scan in stages of
//! doubling stride.
use vstd::prelude::*;
use vstd::arithmetic::power2::{pow2, lemma_pow2_unfold, lemma_pow2_pos};
use crate::aes::computes2;
use crate::kogge::{associative, fold_range};

verus! {

/// Number of stages of doubling stride that reach across `n` elements: the
/// smallest `k` with `2^k >= n`.
pub open spec fn ceil_log2(n: nat) -> nat
    decreases n,
{
    if n <= 1 {
        0
    } else {
        1 + ceil_log2(((n + 1) / 2) as nat)
    }
}

/// `2^ceil_log2(n)` reaches `n`, and one stage fewer does not.
pub proof fn lemma_ceil_log2(n: nat)
    ensures
        pow2(ceil_log2(n)) >= n,
        n > 1 ==> ceil_log2(n) >= 1 && pow2((ceil_log2(n) - 1) as nat) < n,
    decreases n,
{
    lemma_pow2_pos(0);
    if n > 1 {
        let h = ((n + 1) / 2) as nat;
        lemma_ceil_log2(h);
        lemma_pow2_unfold(ceil_log2(n));
        if h > 1 {
            lemma_pow2_unfold(ceil_log2(h));
        } else {
            assert(pow2(0) == 1) by {
                vstd::arithmetic::power2::lemma2_to64();
            }
        }
    }
}

/// The elements after `k` stages of the scan over `xs`. At the stage of stride
/// `s`, an element at `i >= s` is combined with the element `s` positions lower:
/// with `first` when that one is among the first `s` (already resolved), with
/// `rest` otherwise. `first` and `rest` take the lower element, then the upper
/// one.
pub open spec fn hs_stage<E>(
    xs: Seq<E>,
    first: spec_fn(E, E) -> E,
    rest: spec_fn(E, E) -> E,
    k: nat,
) -> Seq<E>
    decreases k,
{
    if k == 0 {
        xs
    } else {
        let prev = hs_stage(xs, first, rest, (k - 1) as nat);
        let s = pow2((k - 1) as nat) as int;
        Seq::new(
            xs.len(),
            |i: int|
                if i < s {
                    prev[i]
                } else if i < 2 * s {
                    first(prev[i - s], prev[i])
                } else {
                    rest(prev[i - s], prev[i])
                },
        )
    }
}

proof fn lemma_fold_split_at<E>(xs: Seq<E>, g: spec_fn(E, E) -> E, start: int, mid: int, end: int)
    requires
        associative(g),
        start < mid <= end,
    ensures
        fold_range(xs, g, start, end) == g(fold_range(xs, g, start, mid - 1), fold_range(xs, g, mid, end)),
    decreases end - mid,
{
    if mid < end {
        lemma_fold_split_at(xs, g, start, mid, end - 1);
        let a = fold_range(xs, g, start, mid - 1);
        let b = fold_range(xs, g, mid, end - 1);
        assert(g(g(a, b), xs[end]) == g(a, g(b, xs[end])));
    }
}

/// After `k` stages with one associative combination, each element holds the
/// combination of the `2^k` elements ending at it (of all of them, near the
/// start).
pub proof fn lemma_hs_stage_window<E>(xs: Seq<E>, g: spec_fn(E, E) -> E, k: nat, i: int)
    requires
        associative(g),
        0 <= i < xs.len(),
    ensures
        hs_stage(xs, g, g, k)[i] == fold_range(
            xs,
            g,
            if i - pow2(k) + 1 < 0 { 0 } else { i - pow2(k) + 1 },
            i,
        ),
    decreases k,
{
    lemma_pow2_pos(k);
    if k > 0 {
        let s = pow2((k - 1) as nat) as int;
        let prev = hs_stage(xs, g, g, (k - 1) as nat);
        lemma_pow2_unfold(k);
        lemma_pow2_pos((k - 1) as nat);
        lemma_hs_stage_window(xs, g, (k - 1) as nat, i);
        assert(hs_stage(xs, g, g, k)[i] == (if i < s {
            prev[i]
        } else {
            g(prev[i - s], prev[i])
        }));
        if i >= s {
            lemma_hs_stage_window(xs, g, (k - 1) as nat, i - s);
            let lo = if i - 2 * s + 1 < 0 { 0 } else { i - 2 * s + 1 };
            lemma_fold_split_at(xs, g, lo, i - s + 1, i);
        }
    } else {
        assert(pow2(0) == 1) by {
            vstd::arithmetic::power2::lemma2_to64();
        }
    }
}

/// With one associative combination, the scan computes the prefixes: after
/// `ceil_log2(n)` stages the element at `i` combines all the elements up to `i`.
pub proof fn lemma_hillis_steele_is_prefix<E>(xs: Seq<E>, g: spec_fn(E, E) -> E, i: int)
    requires
        associative(g),
        0 <= i < xs.len(),
    ensures
        hs_stage(xs, g, g, ceil_log2(xs.len()))[i] == fold_range(xs, g, 0, i),
{
    lemma_ceil_log2(xs.len());
    lemma_hs_stage_window(xs, g, ceil_log2(xs.len()), i);
}

/// One stage of stride `stride` over `cur`.
fn hs_step<E: Copy, F1: Fn(E, E) -> E, F2: Fn(E, E) -> E>(
    cur: &Vec<E>,
    stride: usize,
    first: &F1,
    rest: &F2,
) -> (r: Vec<E>)
    requires
        stride >= 1,
        forall|a: E, b: E| call_requires(*first, (a, b)),
        forall|a: E, b: E| call_requires(*rest, (a, b)),
    ensures
        r@.len() == cur@.len(),
        forall|i: int| 0 <= i < stride && i < cur@.len() ==> #[trigger] r@[i] == cur@[i],
        forall|i: int|
            stride <= i < cur@.len() && i < 2 * stride ==> call_ensures(
                *first,
                (cur@[i - stride], cur@[i]),
                #[trigger] r@[i],
            ),
        forall|i: int|
            2 * stride <= i < cur@.len() ==> call_ensures(
                *rest,
                (cur@[i - stride], cur@[i]),
                #[trigger] r@[i],
            ),
{
    let n = cur.len();
    let mut out: Vec<E> = Vec::new();
    let mut i: usize = 0;
    while i < n
        invariant
            n == cur@.len(),
            stride >= 1,
            i <= n,
            out@.len() == i,
            forall|a: E, b: E| call_requires(*first, (a, b)),
            forall|a: E, b: E| call_requires(*rest, (a, b)),
            forall|j: int| 0 <= j < stride && j < i ==> #[trigger] out@[j] == cur@[j],
            forall|j: int|
                stride <= j < i && j < 2 * stride ==> call_ensures(
                    *first,
                    (cur@[j - stride], cur@[j]),
                    #[trigger] out@[j],
                ),
            forall|j: int|
                2 * stride <= j < i ==> call_ensures(
                    *rest,
                    (cur@[j - stride], cur@[j]),
                    #[trigger] out@[j],
                ),
        decreases n - i,
    {
        if i < stride {
            out.push(cur[i]);
        } else if i - stride < stride {
            let v = first(cur[i - stride], cur[i]);
            out.push(v);
        } else {
            let v = rest(cur[i - stride], cur[i]);
            out.push(v);
        }
        i = i + 1;
    }
    out
}

/// Resolves the group carries `xs` by a Hillis-Steele scan: stages of stride 1,
/// 2, 4, ... until the stride reaches the number of elements. At each stage an
/// element combines with the one a stride lower, with `first` where that one is
/// already resolved and `rest` otherwise.
pub fn hillis_steele_scan<E: Copy, F1: Fn(E, E) -> E, F2: Fn(E, E) -> E>(
    xs: &[E],
    first: &F1,
    rest: &F2,
) -> (r: Vec<E>)
    requires
        forall|a: E, b: E| call_requires(*first, (a, b)),
        forall|a: E, b: E| call_requires(*rest, (a, b)),
    ensures
        r@.len() == xs@.len(),
        forall|g1: spec_fn(E, E) -> E, g2: spec_fn(E, E) -> E|
            computes2(*first, g1) && computes2(*rest, g2) ==> r@ == #[trigger] hs_stage(
                xs@,
                g1,
                g2,
                ceil_log2(xs@.len()),
            ),
{
    let n = xs.len();
    let mut cur: Vec<E> = Vec::new();
    let mut k0: usize = 0;
    while k0 < n
        invariant
            n == xs@.len(),
            k0 <= n,
            cur@ == xs@.take(k0 as int),
        decreases n - k0,
    {
        cur.push(xs[k0]);
        k0 = k0 + 1;
    }
    proof {
        assert(xs@.take(n as int) =~= xs@);
        lemma_pow2_pos(0);
        assert(pow2(0) == 1) by {
            vstd::arithmetic::power2::lemma2_to64();
        }
    }
    let mut stride: usize = 1;
    let ghost mut k: nat = 0;
    let mut more = 1 < n;
    while more
        invariant
            n == xs@.len(),
            cur@.len() == n,
            forall|a: E, b: E| call_requires(*first, (a, b)),
            forall|a: E, b: E| call_requires(*rest, (a, b)),
            stride >= 1,
            more ==> stride as nat == pow2(k) && stride < n,
            !more ==> pow2(k) >= n,
            k == 0 || pow2((k - 1) as nat) < n,
            forall|g1: spec_fn(E, E) -> E, g2: spec_fn(E, E) -> E|
                computes2(*first, g1) && computes2(*rest, g2) ==> cur@ == #[trigger] hs_stage(
                    xs@,
                    g1,
                    g2,
                    k,
                ),
        decreases (if more { n - stride + 1 } else { 0 }),
    {
        let next = hs_step(&cur, stride, first, rest);
        proof {
            lemma_pow2_unfold(k + 1);
            assert forall|g1: spec_fn(E, E) -> E, g2: spec_fn(E, E) -> E|
                computes2(*first, g1) && computes2(*rest, g2) implies next@ == #[trigger] hs_stage(
                    xs@,
                    g1,
                    g2,
                    k + 1,
                ) by {
                let prev = hs_stage(xs@, g1, g2, k);
                assert(cur@ == prev);
                assert(next@ =~= hs_stage(xs@, g1, g2, k + 1));
            }
        }
        cur = next;
        proof {
            k = k + 1;
        }
        if stride < n - stride {
            stride = stride * 2;
        } else {
            more = false;
        }
    }
    proof {
        lemma_ceil_log2(n as nat);
        lemma_ceil_log2_unique(n as nat, k);
    }
    cur
}

/// The number of stages is the only `k` whose `2^k` reaches `n` while `2^(k-1)`
/// does not.
pub proof fn lemma_ceil_log2_unique(n: nat, k: nat)
    requires
        pow2(k) >= n,
        k == 0 || pow2((k - 1) as nat) < n,
    ensures
        k == ceil_log2(n),
{
    lemma_ceil_log2(n);
    let c = ceil_log2(n);
    if k < c {
        if k < c - 1 {
            vstd::arithmetic::power2::lemma_pow2_strictly_increases(k, (c - 1) as nat);
        }
    } else if k > c {
        if c < k - 1 {
            vstd::arithmetic::power2::lemma_pow2_strictly_increases(c, (k - 1) as nat);
        }
    }
}

} // verus!
