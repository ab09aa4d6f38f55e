use zhc::filters::{Filters, ALL_BITS, DEFAULT_REPS};

fn strings(v: &[&str]) -> Vec<String> {
    v.iter().map(|s| s.to_string()).collect()
}

fn names() -> Vec<String> {
    strings(&["Add", "AddSimd", "Sub", "Mul", "OvfMul", "CmpEq", "Sum { n: 3 }"])
}

#[test]
fn no_arguments_select_everything() {
    let (f, rest) = Filters::parse(&[], &names());
    assert_eq!(f.iops, vec![0, 1, 2, 3, 4, 5, 6]);
    assert_eq!(f.bits, ALL_BITS.to_vec());
    assert_eq!(f.reps, DEFAULT_REPS);
    assert!(rest.is_empty());
}

#[test]
fn patterns_match_lowercased_names() {
    let (f, rest) = Filters::parse(&strings(&["-i", "ADD, mul", "table"]), &names());
    assert_eq!(f.iops, vec![0, 1, 3, 4]);
    assert_eq!(rest, strings(&["table"]));
    let (f, _) = Filters::parse(&strings(&["--iops=sum"]), &names());
    assert_eq!(f.iops, vec![6]);
    let (f, _) = Filters::parse(&strings(&["--iops", "zzz"]), &names());
    assert!(f.iops.is_empty());
}

#[test]
fn bits_keep_known_sizes_in_order() {
    let (f, _) = Filters::parse(&strings(&["-b", "64, 8,x,7"]), &names());
    assert_eq!(f.bits, vec![8, 64]);
    let (f, _) = Filters::parse(&strings(&["--bits=128", "--bits", "+16"]), &names());
    assert_eq!(f.bits, vec![16, 128]);
    // Nothing that parses: all sizes.
    let (f, _) = Filters::parse(&strings(&["-b", "abc"]), &names());
    assert_eq!(f.bits, ALL_BITS.to_vec());
}

#[test]
fn reps_take_the_last_value() {
    let (f, _) = Filters::parse(&strings(&["-r", "5", "--reps=7"]), &names());
    assert_eq!(f.reps, 7);
    let (f, _) = Filters::parse(&strings(&["--reps", "0"]), &names());
    assert_eq!(f.reps, 1);
    let (f, _) = Filters::parse(&strings(&["--reps", "many"]), &names());
    assert_eq!(f.reps, DEFAULT_REPS);
    // A flag at the end without its value changes nothing.
    let (f, rest) = Filters::parse(&strings(&["diff", "-r"]), &names());
    assert_eq!(f.reps, DEFAULT_REPS);
    assert_eq!(rest, strings(&["diff"]));
}

#[test]
fn an_empty_pattern_selects_everything() {
    let (f, _) = Filters::parse(&strings(&["-i", "cmp,"]), &names());
    assert_eq!(f.iops, vec![0, 1, 2, 3, 4, 5, 6]);
}

#[test]
fn numbers_read_as_unsigned_decimals() {
    let (f, _) = Filters::parse(&strings(&["--reps", "+12"]), &names());
    assert_eq!(f.reps, 12);
    let (f, _) = Filters::parse(&strings(&["--reps", "-1"]), &names());
    assert_eq!(f.reps, 3);
    let (f, _) = Filters::parse(&strings(&["--reps", "+"]), &names());
    assert_eq!(f.reps, 3);
    let (f, _) = Filters::parse(&strings(&["--reps", "99999999999999999999999"]), &names());
    assert_eq!(f.reps, 3);
    let (f, _) = Filters::parse(&strings(&["-b", "0064,65536,16x"]), &names());
    assert_eq!(f.bits, vec![64]);
}

#[test]
fn unicode_white_space_is_trimmed() {
    let (f, _) = Filters::parse(&strings(&["-b", "\u{3000}64\u{a0},\t8\u{2028}"]), &names());
    assert_eq!(f.bits, vec![8, 64]);
}
