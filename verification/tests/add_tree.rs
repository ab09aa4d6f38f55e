use zhc::add_tree::{
    default_digit_shape, digit_shape, neg5, shape, shifted, weight, weighted_len, Mode, Spec,
};

#[test]
fn shape_text_roundtrip() {
    for text in ["[4,2r,2,2]", "[[3,3,2],3,1,2,2,1]", "[[2c,2p,2r,2r],[2r,2r,2r],1r]"] {
        assert_eq!(Spec::parse(text).to_text(), text);
    }
    for bits in (2..=126u16).step_by(2) {
        let n = usize::from(bits / 2);
        assert_eq!(shape(bits).blocks(), n);
        if let Some(d) = digit_shape(bits) {
            assert_eq!(d.blocks(), n);
        }
    }
}

#[test]
fn parse_reads_sizes_and_modes() {
    let s = Spec::parse("[12,3r,[2p,1c]]");
    assert_eq!(
        s,
        Spec::Node(vec![
            Spec::Leaf { size: 12, mode: Mode::Fold },
            Spec::Leaf { size: 3, mode: Mode::Ripple },
            Spec::Node(vec![
                Spec::Leaf { size: 2, mode: Mode::Prev },
                Spec::Leaf { size: 1, mode: Mode::Chain },
            ]),
        ])
    );
    assert_eq!(s.blocks(), 18);
    assert_eq!(s.to_text(), "[12,3r,[2p,1c]]");
}

#[test]
fn default_shape_groups_by_four() {
    let s = Spec::default_shape(10, false);
    assert_eq!(s.to_text(), "[4,4,2]");
    assert_eq!(s.blocks(), 10);
    let r = Spec::default_shape(18, true);
    assert_eq!(r.to_text(), "[[4r,4r,4r,4r],2r]");
    assert_eq!(r.blocks(), 18);
    assert_eq!(Spec::default_shape(3, false).to_text(), "3");
}

#[test]
fn default_digit_shape_pairs() {
    let s = default_digit_shape(5);
    assert_eq!(s.to_text(), "[2r,2r,1r]");
    assert_eq!(s.blocks(), 5);
    assert_eq!(default_digit_shape(1).to_text(), "1r");
}

#[test]
fn nest_keeps_single_unit() {
    let leaf = Spec::Leaf { size: 7, mode: Mode::Prev };
    assert_eq!(Spec::nest(vec![leaf.clone()]), leaf);
    let many: Vec<Spec> = (0..5).map(|_| Spec::Leaf { size: 1, mode: Mode::Fold }).collect();
    assert_eq!(Spec::nest(many).to_text(), "[[1,1,1,1],1]");
}

#[test]
fn table_sizes_use_their_texts() {
    assert_eq!(shape(20).to_text(), "[4,2r,2,2]");
    assert_eq!(shape(36).to_text(), "[[[1,4,4,3],2r,2],2]");
    assert_eq!(shape(16).to_text(), "[4,4]");
    assert_eq!(digit_shape(14).unwrap().to_text(), "[2p,2p,1r,1r,1r]");
    assert_eq!(digit_shape(64), Some(default_digit_shape(32)));
    assert_eq!(digit_shape(4), Some(default_digit_shape(2)));
    assert_eq!(digit_shape(16), None);
    assert_eq!(digit_shape(36), None);
    assert_eq!(digit_shape(128), Some(default_digit_shape(64)));
}

#[test]
fn neg5_negates_modulo_32() {
    assert_eq!(neg5(0), 0);
    assert_eq!(neg5(1), 31);
    assert_eq!(neg5(16), 16);
    assert_eq!(neg5(32), 0);
}

#[test]
fn shifted_negates_the_upper_half() {
    // True value (3 + 2) = 5 is below 16: read directly.
    assert_eq!(shifted::<2>(3, |x| x + 1), 6);
    // True value (20 + 0) mod 32 = 20: negated entry of f(4).
    assert_eq!(shifted::<0>(20, |x| x + 1), 27);
    // Wraps past 32.
    assert_eq!(shifted::<5>(30, |x| x * 2), 6);
}

#[test]
fn weights_are_powers_of_two() {
    assert_eq!(weight(true, 0), 1);
    assert_eq!(weight(true, 1), 1);
    assert_eq!(weight(true, 2), 2);
    assert_eq!(weight(true, 4), 8);
    assert_eq!(weight(false, 0), 1);
    assert_eq!(weight(false, 3), 8);
    assert_eq!(weighted_len(true), 5);
    assert_eq!(weighted_len(false), 4);
}

#[test]
fn sizes_without_a_table_entry_use_the_defaults() {
    assert_eq!(shape(10), Spec::default_shape(5, false));
    assert_eq!(shape(40), Spec::default_shape(20, false));
    for bits in [2u16, 6, 8, 10, 12, 16, 20, 24, 26, 28, 34, 36] {
        assert_eq!(digit_shape(bits), None, "{bits}");
    }
    assert_eq!(digit_shape(128), Some(default_digit_shape(64)));
    assert_eq!(digit_shape(127), Some(default_digit_shape(63)));
}

fn nodes_two_to_four(s: &Spec) -> bool {
    match s {
        Spec::Leaf { .. } => true,
        Spec::Node(cs) => (2..=4).contains(&cs.len()) && cs.iter().all(nodes_two_to_four),
    }
}

#[test]
fn default_shapes_nest_by_two_to_four() {
    for n in 1..200usize {
        assert!(nodes_two_to_four(&Spec::default_shape(n, false)), "{n}");
        assert!(nodes_two_to_four(&Spec::default_shape(n, true)), "{n}");
        assert!(nodes_two_to_four(&default_digit_shape(n)), "{n}");
        assert_eq!(default_digit_shape(n).blocks(), n);
    }
}
