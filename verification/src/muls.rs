//! The carry ordering of the scalar multiplier's column reductions.
use vstd::prelude::*;

verus! {

/// Order in which the carries coming out of a column enter the reduction of the next one.
#[derive(Debug, Clone, Copy, PartialEq, Eq)]
pub enum CarryOrder {
    Late,
    Interleaved,
}

/// The first `i` terms of each list, alternately: `a[0], b[0], a[1], b[1], ...`, a
/// list that runs out being skipped.
pub open spec fn interleave_upto<T>(a: Seq<T>, b: Seq<T>, i: nat) -> Seq<T>
    decreases i,
{
    if i == 0 {
        Seq::empty()
    } else {
        let k = (i - 1) as int;
        let prev = interleave_upto(a, b, (i - 1) as nat);
        let with_a = if k < a.len() { prev.push(a[k]) } else { prev };
        if k < b.len() { with_a.push(b[k]) } else { with_a }
    }
}

/// All the terms of both lists, alternately, then the rest of the longer one.
pub open spec fn interleave<T>(a: Seq<T>, b: Seq<T>) -> Seq<T> {
    interleave_upto(a, b, if a.len() < b.len() { b.len() } else { a.len() })
}

/// The terms of a column reduction in the order that `order` gives: the partial
/// products then the carries in, or the two alternately.
pub open spec fn ordered_terms<T>(partial_product: Seq<T>, carry_in: Seq<T>, order: CarryOrder) -> Seq<T> {
    match order {
        CarryOrder::Late => partial_product + carry_in,
        CarryOrder::Interleaved => interleave(partial_product, carry_in),
    }
}

proof fn lemma_interleave_upto_terms<T>(a: Seq<T>, b: Seq<T>, i: nat)
    ensures
        interleave_upto(a, b, i).to_multiset() == a.take(if i < a.len() { i as int } else { a.len() as int }).to_multiset().add(
            b.take(if i < b.len() { i as int } else { b.len() as int }).to_multiset(),
        ),
    decreases i,
{
    broadcast use vstd::seq_lib::group_to_multiset_ensures;
    broadcast use vstd::multiset::group_multiset_axioms;

    if i == 0 {
        assert(a.take(0) =~= Seq::<T>::empty());
        assert(b.take(0) =~= Seq::<T>::empty());
        assert(interleave_upto(a, b, 0).to_multiset() =~= vstd::multiset::Multiset::<T>::empty());
        assert(a.take(0).to_multiset().add(b.take(0).to_multiset()) =~= vstd::multiset::Multiset::<T>::empty());
    } else {
        let k = (i - 1) as int;
        lemma_interleave_upto_terms(a, b, (i - 1) as nat);
        if k < a.len() {
            assert(a.take(k + 1) =~= a.take(k).push(a[k]));
        }
        if k < b.len() {
            assert(b.take(k + 1) =~= b.take(k).push(b[k]));
        }
        let ma = a.take(if i < a.len() { i as int } else { a.len() as int }).to_multiset();
        let mb = b.take(if i < b.len() { i as int } else { b.len() as int }).to_multiset();
        assert(interleave_upto(a, b, i).to_multiset() =~= ma.add(mb));
    }
}

/// Ordering the terms of a column only reorders them: whatever the carry order, the
/// stage holds each partial product and each carry in once.
pub proof fn lemma_ordered_terms_keeps_terms<T>(partial_product: Seq<T>, carry_in: Seq<T>, order: CarryOrder)
    ensures
        ordered_terms(partial_product, carry_in, order).to_multiset() == partial_product.to_multiset().add(
            carry_in.to_multiset(),
        ),
{
    vstd::seq_lib::lemma_multiset_commutative(partial_product, carry_in);
    let n = if partial_product.len() < carry_in.len() { carry_in.len() } else { partial_product.len() };
    lemma_interleave_upto_terms(partial_product, carry_in, n);
    assert(partial_product.take(partial_product.len() as int) =~= partial_product);
    assert(carry_in.take(carry_in.len() as int) =~= carry_in);
}

/// Lays out the terms of a column reduction according to `carry_order`: with
/// `Interleaved`, the n-th carry comes right after the n-th partial product, as it
/// is ready at the depth of the n-th extraction of the previous column.
pub fn order_terms<T: Copy>(partial_product: Vec<T>, carry_in: Vec<T>, carry_order: CarryOrder) -> (r: Vec<T>)
    ensures
        r@ == ordered_terms(partial_product@, carry_in@, carry_order),
{
    match carry_order {
        CarryOrder::Late => {
            let mut stage = partial_product;
            let mut rest = carry_in;
            stage.append(&mut rest);
            stage
        },
        CarryOrder::Interleaved => {
            let na = partial_product.len();
            let nb = carry_in.len();
            let n = if na < nb { nb } else { na };
            let mut stage: Vec<T> = Vec::new();
            let mut i: usize = 0;
            while i < n
                invariant
                    i <= n,
                    na == partial_product@.len(),
                    nb == carry_in@.len(),
                    n == (if na < nb { nb } else { na }),
                    stage@ == interleave_upto(partial_product@, carry_in@, i as nat),
                decreases n - i,
            {
                if i < na {
                    stage.push(partial_product[i]);
                }
                if i < nb {
                    stage.push(carry_in[i]);
                }
                i = i + 1;
            }
            stage
        },
    }
}

/// Carry ordering used by the scalar multiplier for an integer of `int_size` bits.
pub fn carry_order(int_size: u16) -> (order: CarryOrder)
    ensures
        order == (if int_size < 40 { CarryOrder::Late } else { CarryOrder::Interleaved }),
{
    if int_size < 40 {
        CarryOrder::Late
    } else {
        CarryOrder::Interleaved
    }
}

} // verus!
