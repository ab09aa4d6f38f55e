use zhc::kogge::{kogge_reduction, kogge_step, KoggeReduction, KoggeStep, KoggeTree};

#[test]
fn subindex_splits_at_powers_of_two() {
    type T = KoggeTree<u64, fn(u64, u64) -> u64>;
    assert_eq!(T::get_subindex(0, 1), ((0, 0), (1, 1)));
    assert_eq!(T::get_subindex(0, 7), ((0, 3), (4, 7)));
    assert_eq!(T::get_subindex(0, 5), ((0, 3), (4, 5)));
    assert_eq!(T::get_subindex(2, 4), ((2, 3), (4, 4)));
    assert_eq!(T::get_subindex(3, 12), ((3, 10), (11, 12)));
}

#[test]
fn prefix_of_an_associative_combination_is_the_fold() {
    let inputs: Vec<u64> = vec![3, 1, 4, 1, 5, 9, 2, 6, 5, 3, 5];
    let mut tree = KoggeTree::new(inputs.clone(), |a: u64, b: u64| a.wrapping_add(b));
    for start in 0..inputs.len() {
        for end in start..inputs.len() {
            let expected: u64 = inputs[start..=end].iter().sum();
            assert_eq!(tree.get_prefix(start, end), expected);
        }
    }
}

#[test]
fn prefix_follows_the_split_tree() {
    // A combination that records its shape: (lowest position, highest position, depth).
    let inputs: Vec<(usize, usize, u32)> = (0..6).map(|i| (i, i, 0)).collect();
    let mut tree = KoggeTree::new(inputs, |a: (usize, usize, u32), b: (usize, usize, u32)| {
        (a.0, b.1, 1 + if a.2 > b.2 { a.2 } else { b.2 })
    });
    assert_eq!(tree.get_prefix(0, 5), (0, 5, 3));
    assert_eq!(tree.get_prefix(0, 3), (0, 3, 2));
    assert_eq!(tree.get_prefix(4, 4), (4, 4, 0));
    assert_eq!(tree.get_prefix(1, 2), (1, 2, 1));
}

#[test]
fn step_keeps_raw_values_while_they_fit() {
    assert_eq!(
        kogge_step(1, 1, 4),
        KoggeStep { lsb_fresh: false, msb_fresh: false, cpos: 2, msb_shift: 2, spills: false }
    );
    assert_eq!(
        kogge_step(2, 2, 4),
        KoggeStep { lsb_fresh: false, msb_fresh: false, cpos: 4, msb_shift: 4, spills: true }
    );
    assert_eq!(
        kogge_step(3, 2, 4),
        KoggeStep { lsb_fresh: true, msb_fresh: false, cpos: 3, msb_shift: 2, spills: false }
    );
    assert_eq!(
        kogge_step(2, 4, 4),
        KoggeStep { lsb_fresh: true, msb_fresh: true, cpos: 2, msb_shift: 2, spills: false }
    );
}

#[test]
fn reductions_by_width() {
    assert_eq!(kogge_reduction(2, 4), KoggeReduction::Carry2);
    assert_eq!(kogge_reduction(3, 4), KoggeReduction::Carry3);
    assert_eq!(kogge_reduction(4, 4), KoggeReduction::CarryPad);
    assert_eq!(kogge_reduction(2, 2), KoggeReduction::Carry2);
}

/// The carry operator on generate (2) / propagate (1) / none (0) states: the
/// upper part decides unless it propagates.
fn carry_op(lo: u8, hi: u8) -> u8 {
    if hi == 1 {
        lo
    } else {
        hi
    }
}

fn sequential_carries(cin: u8, pgs: &[u8]) -> (Vec<u8>, u8) {
    let mut out = Vec::new();
    let mut c = cin;
    for &p in pgs {
        out.push(c);
        c = carry_op(c, p);
    }
    (out, c)
}

#[test]
fn chunk_carries_are_prefixes_of_the_chain() {
    let pgs = [1u8, 2, 1, 0, 1, 1, 2];
    let (carries, cout) = zhc::kogge::kogge_propagate_carry(&pgs, 0, carry_op);
    assert_eq!((carries, cout), sequential_carries(0, &pgs));
    let (carries, cout) = zhc::kogge::kogge_propagate_carry(&pgs, 2, carry_op);
    assert_eq!((carries, cout), sequential_carries(2, &pgs));
}

#[test]
fn chunking_does_not_change_the_carries() {
    let pgs = [1u8, 1, 2, 0, 1, 2, 1, 1, 1, 0, 2, 1, 1];
    for par_w in [1usize, 2, 3, 4, 5, 7, 12, 13, 100] {
        for cin in [0u8, 2] {
            let got = zhc::kogge::kogge_chunked_carries(&pgs, cin, par_w, carry_op);
            assert_eq!(got, sequential_carries(cin, &pgs), "par_w {par_w} cin {cin}");
        }
    }
    let empty: [u8; 0] = [];
    assert_eq!(zhc::kogge::kogge_chunked_carries(&empty, 2, 3, carry_op), (vec![], 2));
}

#[test]
fn chunks_of_one_chain_sequentially_for_any_operator() {
    // Not associative: the chunks still chain their carry outs.
    let op = |lo: u64, hi: u64| lo.wrapping_mul(2).wrapping_add(hi).wrapping_add(1);
    let pgs = [3u64, 0, 7, 1, 4];
    let (carries, cout) = zhc::kogge::kogge_chunked_carries(&pgs, 5, 1, op);
    let mut c = 5u64;
    let mut expected = Vec::new();
    for &p in &pgs {
        expected.push(c);
        c = op(c, p);
    }
    assert_eq!(carries, expected);
    assert_eq!(cout, c);
    // One chunk covering everything is the prefix tree of the whole chain.
    assert_eq!(
        zhc::kogge::kogge_chunked_carries(&pgs, 5, 8, op),
        zhc::kogge::kogge_propagate_carry(&pgs, 5, op)
    );
}
