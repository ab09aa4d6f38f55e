//! The command-line filters of the benchmark runner: which operations, which
//! integer sizes and how many repetitions to run.
use vstd::prelude::*;
use vstd::string::StrSliceExecFns;

verus! {

/// Repetitions when none are given, or when the given count does not parse.
pub const DEFAULT_REPS: usize = 3;

/// The integer sizes that the runner knows.
pub const ALL_BITS: [u16; 5] = [8, 16, 32, 64, 128];

// ---------------------------------------------------------------- std string functions

/// A character with the Unicode `White_Space` property, the list that
/// `char::is_whitespace` documents: the controls from tab to carriage return,
/// space, next line, no-break space, ogham space mark, the spaces from en quad to
/// hair space, the line and paragraph separators, narrow no-break space, medium
/// mathematical space and ideographic space.
pub open spec fn is_white_space(c: char) -> bool {
    let v = c as int;
    ||| 0x9 <= v <= 0xd
    ||| v == 0x20
    ||| v == 0x85
    ||| v == 0xa0
    ||| v == 0x1680
    ||| 0x2000 <= v <= 0x200a
    ||| v == 0x2028
    ||| v == 0x2029
    ||| v == 0x202f
    ||| v == 0x205f
    ||| v == 0x3000
}

/// The text without its leading white space.
pub open spec fn trim_start_spec(s: Seq<char>) -> Seq<char>
    decreases s.len(),
{
    if s.len() > 0 && is_white_space(s[0]) {
        trim_start_spec(s.drop_first())
    } else {
        s
    }
}

/// The text without its trailing white space.
pub open spec fn trim_end_spec(s: Seq<char>) -> Seq<char>
    decreases s.len(),
{
    if s.len() > 0 && is_white_space(s.last()) {
        trim_end_spec(s.drop_last())
    } else {
        s
    }
}

/// What `str::trim` gives: the text without its leading and trailing white space.
pub open spec fn trimmed(s: Seq<char>) -> Seq<char> {
    trim_end_spec(trim_start_spec(s))
}

/// What `str::to_lowercase` gives: the text in lower case.
pub uninterp spec fn lowercased(s: Seq<char>) -> Seq<char>;

/// Calls `str::trim`, which std documents as removing the leading and trailing
/// characters that have the Unicode `White_Space` property ([`trimmed`]).
#[verifier::external_body]
fn trim_str(s: &str) -> (r: &str)
    ensures
        r@ == trimmed(s@),
{
    s.trim()
}

/// Calls `str::to_lowercase`. Its result is stated through the name
/// [`lowercased`] only: the Unicode case mapping that std implements is not
/// restated here.
#[verifier::external_body]
fn lowercase_str(s: &str) -> (r: String)
    ensures
        r@ == lowercased(s@),
{
    s.to_lowercase()
}

/// A decimal digit.
pub open spec fn is_digit(c: char) -> bool {
    '0' as int <= c as int <= '9' as int
}

/// The value of a sequence of decimal digits.
pub open spec fn digits_value(s: Seq<char>) -> nat
    decreases s.len(),
{
    if s.len() == 0 {
        0
    } else {
        digits_value(s.drop_last()) * 10 + (s.last() as int - '0' as int) as nat
    }
}

/// The text without its leading `+`, if it has one.
pub open spec fn without_plus(s: Seq<char>) -> Seq<char> {
    if s.len() > 0 && s[0] == '+' {
        s.drop_first()
    } else {
        s
    }
}

/// Every character is a decimal digit.
pub open spec fn all_digits(d: Seq<char>) -> bool {
    forall|i: int| 0 <= i < d.len() ==> is_digit(#[trigger] d[i])
}

/// The value of an unsigned decimal integer of at most `max`, as `FromStr` for
/// the unsigned integer types reads it: an optional `+`, then one or more
/// decimal digits and nothing else.
pub open spec fn parse_unsigned(s: Seq<char>, max: nat) -> Option<nat> {
    let d = without_plus(s);
    if d.len() > 0 && all_digits(d) && digits_value(d) <= max {
        Some(digits_value(d))
    } else {
        None
    }
}

/// A sequence of decimal digits is worth at least any of its prefixes.
proof fn lemma_digits_value_prefix(s: Seq<char>, k: int)
    requires
        0 <= k <= s.len(),
        forall|i: int| 0 <= i < s.len() ==> is_digit(#[trigger] s[i]),
    ensures
        digits_value(s.take(k)) <= digits_value(s),
    decreases s.len(),
{
    if k < s.len() {
        assert(s.drop_last().take(k) =~= s.take(k));
        lemma_digits_value_prefix(s.drop_last(), k);
    } else {
        assert(s.take(k) =~= s);
    }
}

/// Reads an unsigned decimal integer of at most `max`: an optional `+`, then one
/// or more decimal digits and nothing else.
fn parse_unsigned_exec(s: &str, max: usize) -> (r: Option<usize>)
    ensures
        r matches Some(v) ==> parse_unsigned(s@, max as nat) == Some(v as nat),
        r is None ==> parse_unsigned(s@, max as nat) is None,
{
    let n = s.unicode_len();
    let start: usize = if n > 0 && s.get_char(0) == '+' {
        1
    } else {
        0
    };
    let ghost d = without_plus(s@);
    assert(d =~= s@.skip(start as int));
    if start == n {
        return None;
    }
    let mut acc: usize = 0;
    let mut i: usize = start;
    while i < n
        invariant
            n == s@.len(),
            start <= i <= n,
            d =~= s@.skip(start as int),
            d == without_plus(s@),
            acc <= max,
            forall|k: int| 0 <= k < i - start ==> is_digit(#[trigger] d[k]),
            acc == digits_value(d.take(i - start)),
        decreases n - i,
    {
        let c = s.get_char(i);
        assert(d[i - start] == c);
        if !('0' <= c && c <= '9') {
            proof {
                assert(!is_digit(c));
                assert(!is_digit(d[i - start]));
                assert(!all_digits(d));
            }
            return None;
        }
        let digit: usize = (c as u32 - '0' as u32) as usize;
        assert(d.take(i - start + 1).drop_last() =~= d.take(i - start));
        assert(digits_value(d.take(i - start + 1)) == acc * 10 + digit);
        if digit > max || acc > (max - digit) / 10 {
            proof {
                if digit <= max {
                    assert(acc * 10 + digit > max) by (nonlinear_arith)
                        requires
                            acc > (max - digit) / 10,
                            digit <= max,
                    ;
                }
                if all_digits(d) {
                    lemma_digits_value_prefix(d, i - start + 1);
                    assert(digits_value(d) > max);
                }
            }
            return None;
        }
        acc = acc * 10 + digit;
        i = i + 1;
    }
    assert(d.take(n - start) =~= d);
    Some(acc)
}

/// Reads a `u16` as `str::parse::<u16>` does: an optional `+` and decimal digits,
/// for a value that fits.
fn parse_u16(s: &str) -> (r: Option<u16>)
    ensures
        r matches Some(v) ==> parse_unsigned(s@, u16::MAX as nat) == Some(v as nat),
        r is None ==> parse_unsigned(s@, u16::MAX as nat) is None,
{
    match parse_unsigned_exec(s, 65535) {
        Some(v) => Some(v as u16),
        None => None,
    }
}

/// Reads a `usize` as `str::parse::<usize>` does; the same rules as
/// [`parse_u16`], for values up to `usize::MAX`.
fn parse_usize(s: &str) -> (r: Option<usize>)
    ensures
        r matches Some(v) ==> parse_unsigned(s@, usize::MAX as nat) == Some(v as nat),
        r is None ==> parse_unsigned(s@, usize::MAX as nat) is None,
{
    parse_unsigned_exec(s, usize::MAX)
}

// ---------------------------------------------------------------- the specification

/// The pieces of `s` between its commas (one piece when it has none).
pub open spec fn split_commas(s: Seq<char>) -> Seq<Seq<char>>
    decreases s.len(),
{
    if s.len() == 0 {
        seq![Seq::empty()]
    } else {
        let init = split_commas(s.drop_last());
        if s.last() == ',' {
            init.push(Seq::empty())
        } else {
            init.update(init.len() - 1, init.last().push(s.last()))
        }
    }
}

/// The operation name patterns of a list of pieces: trimmed, in lower case.
pub open spec fn piece_patterns(ps: Seq<Seq<char>>) -> Seq<Seq<char>> {
    ps.map_values(|p: Seq<char>| lowercased(trimmed(p)))
}

/// The sizes of a list of pieces: those that parse once trimmed, in order.
pub open spec fn piece_bits(ps: Seq<Seq<char>>) -> Seq<u16>
    decreases ps.len(),
{
    if ps.len() == 0 {
        Seq::empty()
    } else {
        let r = piece_bits(ps.drop_last());
        match parse_unsigned(trimmed(ps.last()), u16::MAX as nat) {
            Some(v) => r.push(v as u16),
            None => r,
        }
    }
}

/// The repetition count a value gives, the default where it does not parse.
pub open spec fn reps_of(v: Seq<char>) -> nat {
    match parse_unsigned(trimmed(v), usize::MAX as nat) {
        Some(n) => n,
        None => DEFAULT_REPS as nat,
    }
}

/// What a scan of the arguments has gathered so far.
pub struct ArgScan {
    pub patterns: Seq<Seq<char>>,
    pub bits: Seq<u16>,
    pub reps: nat,
    pub remaining: Seq<Seq<char>>,
}

/// `p` begins `s`.
pub open spec fn starts_with(s: Seq<char>, p: Seq<char>) -> bool {
    p.len() <= s.len() && s.take(p.len() as int) == p
}

pub open spec fn flag_i() -> Seq<char> {
    seq!['-', 'i']
}

pub open spec fn flag_iops() -> Seq<char> {
    seq!['-', '-', 'i', 'o', 'p', 's']
}

pub open spec fn flag_b() -> Seq<char> {
    seq!['-', 'b']
}

pub open spec fn flag_bits() -> Seq<char> {
    seq!['-', '-', 'b', 'i', 't', 's']
}

pub open spec fn flag_r() -> Seq<char> {
    seq!['-', 'r']
}

pub open spec fn flag_reps() -> Seq<char> {
    seq!['-', '-', 'r', 'e', 'p', 's']
}

/// A long flag followed by `=`.
pub open spec fn with_eq(f: Seq<char>) -> Seq<char> {
    f.push('=')
}

/// The scan of the arguments from position `i` on, starting from `acc`: `-i`,
/// `--iops` and `-b`, `--bits` take the next argument as a comma-separated list,
/// `-r`, `--reps` take it as a count (the last count wins), the `--flag=value`
/// forms take the value in place, and every other argument is kept.
pub open spec fn scan(args: Seq<Seq<char>>, i: int, acc: ArgScan) -> ArgScan
    decreases args.len() - i,
{
    if i < 0 || i >= args.len() {
        acc
    } else {
        let a = args[i];
        let has_next = i + 1 < args.len();
        if a == flag_i() || a == flag_iops() {
            if has_next {
                scan(
                    args,
                    i + 2,
                    ArgScan {
                        patterns: acc.patterns + piece_patterns(split_commas(args[i + 1])),
                        ..acc
                    },
                )
            } else {
                scan(args, i + 1, acc)
            }
        } else if starts_with(a, with_eq(flag_iops())) {
            scan(
                args,
                i + 1,
                ArgScan { patterns: acc.patterns + piece_patterns(split_commas(a.skip(7))), ..acc },
            )
        } else if a == flag_b() || a == flag_bits() {
            if has_next {
                scan(
                    args,
                    i + 2,
                    ArgScan { bits: acc.bits + piece_bits(split_commas(args[i + 1])), ..acc },
                )
            } else {
                scan(args, i + 1, acc)
            }
        } else if starts_with(a, with_eq(flag_bits())) {
            scan(
                args,
                i + 1,
                ArgScan { bits: acc.bits + piece_bits(split_commas(a.skip(7))), ..acc },
            )
        } else if a == flag_r() || a == flag_reps() {
            if has_next {
                scan(args, i + 2, ArgScan { reps: reps_of(args[i + 1]), ..acc })
            } else {
                scan(args, i + 1, acc)
            }
        } else if starts_with(a, with_eq(flag_reps())) {
            scan(args, i + 1, ArgScan { reps: reps_of(a.skip(7)), ..acc })
        } else {
            scan(args, i + 1, ArgScan { remaining: acc.remaining.push(a), ..acc })
        }
    }
}

/// What the scan starts from.
pub open spec fn scan_start() -> ArgScan {
    ArgScan {
        patterns: Seq::empty(),
        bits: Seq::empty(),
        reps: DEFAULT_REPS as nat,
        remaining: Seq::empty(),
    }
}

/// `needle` occurs in `hay`.
pub open spec fn occurs_in(hay: Seq<char>, needle: Seq<char>) -> bool {
    exists|i: int| 0 <= i <= hay.len() - needle.len() && #[trigger] hay.subrange(i, i + needle.len()) == needle
}

/// The operation named `name` is selected by `patterns`: there are none, or its
/// name in lower case holds one of them.
pub open spec fn name_selected(name: Seq<char>, patterns: Seq<Seq<char>>) -> bool {
    patterns.len() == 0 || exists|j: int|
        0 <= j < patterns.len() && occurs_in(lowercased(name), #[trigger] patterns[j])
}

/// The positions, in order, of the names that `patterns` selects.
pub open spec fn selected_positions(names: Seq<Seq<char>>, patterns: Seq<Seq<char>>) -> Seq<usize>
    decreases names.len(),
{
    if names.len() == 0 {
        Seq::empty()
    } else {
        let r = selected_positions(names.drop_last(), patterns);
        if name_selected(names.last(), patterns) {
            r.push((names.len() - 1) as usize)
        } else {
            r
        }
    }
}

/// The sizes of `known` that occur in `bits`, in the order of `known`.
pub open spec fn kept_bits(known: Seq<u16>, bits: Seq<u16>) -> Seq<u16>
    decreases known.len(),
{
    if known.len() == 0 {
        Seq::empty()
    } else {
        let r = kept_bits(known.drop_last(), bits);
        if bits.contains(known.last()) {
            r.push(known.last())
        } else {
            r
        }
    }
}

/// The known sizes that `bits` selects, in their order: all of them when `bits`
/// is empty.
pub open spec fn selected_bits(known: Seq<u16>, bits: Seq<u16>) -> Seq<u16> {
    if bits.len() == 0 {
        known
    } else {
        kept_bits(known, bits)
    }
}

/// The text of each argument.
pub open spec fn texts(args: Seq<String>) -> Seq<Seq<char>> {
    args.map_values(|s: String| s@)
}

/// The text of each piece.
pub open spec fn piece_texts(v: Seq<&str>) -> Seq<Seq<char>> {
    v.map_values(|p: &str| p@)
}

// ---------------------------------------------------------------- the scan

/// Whether `s` is the text `lit`.
fn is_text(s: &str, lit: &[char]) -> (b: bool)
    ensures
        b == (s@ == lit@),
{
    let n = s.unicode_len();
    if n != lit.len() {
        return false;
    }
    let mut i: usize = 0;
    while i < n
        invariant
            n == s@.len(),
            n == lit@.len(),
            i <= n,
            forall|j: int| 0 <= j < i ==> s@[j] == lit@[j],
        decreases n - i,
    {
        if s.get_char(i) != lit[i] {
            return false;
        }
        i = i + 1;
    }
    proof {
        assert(s@ =~= lit@);
    }
    true
}

/// Whether `s` begins with `lit`.
fn has_prefix(s: &str, lit: &[char]) -> (b: bool)
    ensures
        b == starts_with(s@, lit@),
{
    let n = s.unicode_len();
    let m = lit.len();
    if m > n {
        return false;
    }
    let mut i: usize = 0;
    while i < m
        invariant
            n == s@.len(),
            m == lit@.len(),
            m <= n,
            i <= m,
            forall|j: int| 0 <= j < i ==> s@[j] == lit@[j],
        decreases m - i,
    {
        if s.get_char(i) != lit[i] {
            proof {
                assert(s@.take(m as int)[i as int] != lit@[i as int]);
            }
            return false;
        }
        i = i + 1;
    }
    proof {
        assert(s@.take(m as int) =~= lit@);
    }
    true
}

/// The pieces of `s` between its commas.
fn split_pieces(s: &str) -> (r: Vec<&str>)
    ensures
        piece_texts(r@) == split_commas(s@),
{
    let n = s.unicode_len();
    let mut out: Vec<&str> = Vec::new();
    let mut start: usize = 0;
    let mut i: usize = 0;
    proof {
        assert(s@.take(0) =~= Seq::<char>::empty());
        assert(piece_texts(out@) =~= Seq::<Seq<char>>::empty());
        assert(s@.subrange(0, 0) =~= Seq::<char>::empty());
    }
    while i < n
        invariant
            n == s@.len(),
            start <= i <= n,
            split_commas(s@.take(i as int)) == piece_texts(out@).push(s@.subrange(start as int, i as int)),
        decreases n - i,
    {
        proof {
            assert(s@.take(i + 1).drop_last() =~= s@.take(i as int));
        }
        if s.get_char(i) == ',' {
            let piece = s.substring_char(start, i);
            proof {
                assert(piece_texts(out@.push(piece)) =~= piece_texts(out@).push(piece@));
                assert(s@.subrange(i + 1, i + 1) =~= Seq::<char>::empty());
            }
            out.push(piece);
            start = i + 1;
        } else {
            proof {
                assert(s@.subrange(start as int, i + 1) =~= s@.subrange(start as int, i as int).push(s@[i as int]));
            }
        }
        i = i + 1;
    }
    let last = s.substring_char(start, n);
    proof {
        assert(s@.take(n as int) =~= s@);
        assert(piece_texts(out@.push(last)) =~= piece_texts(out@).push(last@));
    }
    out.push(last);
    out
}

/// Appends the patterns of the comma-separated `value` to `patterns`.
fn add_patterns(patterns: &mut Vec<String>, value: &str)
    ensures
        texts(final(patterns)@) == texts(old(patterns)@) + piece_patterns(split_commas(value@)),
{
    let pieces = split_pieces(value);
    let ghost ps = piece_texts(pieces@);
    let mut k: usize = 0;
    while k < pieces.len()
        invariant
            k <= pieces@.len(),
            ps == piece_texts(pieces@),
            ps.len() == pieces@.len(),
            texts(patterns@) == texts(old(patterns)@) + piece_patterns(ps.take(k as int)),
        decreases pieces.len() - k,
    {
        let p = lowercase_str(trim_str(pieces[k]));
        proof {
            assert(ps[k as int] == pieces@[k as int]@);
            assert(piece_patterns(ps.take(k + 1)) =~= piece_patterns(ps.take(k as int)).push(
                lowercased(trimmed(ps[k as int])),
            ));
            assert(texts(patterns@.push(p)) =~= texts(patterns@).push(p@));
        }
        patterns.push(p);
        k = k + 1;
    }
    proof {
        assert(ps.take(pieces@.len() as int) =~= ps);
    }
}

/// Appends the sizes of the comma-separated `value` to `bits`.
fn add_bits(bits: &mut Vec<u16>, value: &str)
    ensures
        final(bits)@ == old(bits)@ + piece_bits(split_commas(value@)),
{
    let pieces = split_pieces(value);
    let ghost ps = piece_texts(pieces@);
    let mut k: usize = 0;
    while k < pieces.len()
        invariant
            k <= pieces@.len(),
            ps == piece_texts(pieces@),
            ps.len() == pieces@.len(),
            bits@ == old(bits)@ + piece_bits(ps.take(k as int)),
        decreases pieces.len() - k,
    {
        let v = parse_u16(trim_str(pieces[k]));
        proof {
            assert(ps[k as int] == pieces@[k as int]@);
            assert(ps.take(k + 1).drop_last() =~= ps.take(k as int));
        }
        match v {
            Some(b) => {
                bits.push(b);
            },
            None => {},
        }
        k = k + 1;
    }
    proof {
        assert(ps.take(pieces@.len() as int) =~= ps);
    }
}

/// The repetition count that `value` gives.
fn reps_value(value: &str) -> (r: usize)
    ensures
        r as nat == reps_of(value@),
{
    match parse_usize(trim_str(value)) {
        Some(n) => n,
        None => DEFAULT_REPS,
    }
}

/// Whether `needle` occurs in `hay`.
fn occurs(hay: &str, needle: &str) -> (b: bool)
    ensures
        b == occurs_in(hay@, needle@),
{
    let h = hay.unicode_len();
    let m = needle.unicode_len();
    if m == 0 {
        proof {
            assert(hay@.subrange(0int, 0int + needle@.len()) =~= needle@);
        }
        return true;
    }
    if m > h {
        proof {
            assert forall|i: int| 0 <= i <= hay@.len() - needle@.len() implies #[trigger] hay@.subrange(
                i,
                i + needle@.len(),
            ) != needle@ by {}
        }
        return false;
    }
    let mut i: usize = 0;
    while i <= h - m
        invariant
            h == hay@.len(),
            m == needle@.len(),
            1 <= m <= h,
            i <= h - m + 1,
            forall|k: int| 0 <= k < i ==> #[trigger] hay@.subrange(k, k + m) != needle@,
        decreases h - m + 1 - i,
    {
        let mut j: usize = 0;
        let mut same = true;
        while j < m
            invariant
                h == hay@.len(),
                m == needle@.len(),
                i + m <= h,
                j <= m,
                same ==> forall|t: int| 0 <= t < j ==> hay@[i + t] == needle@[t],
                !same ==> hay@.subrange(i as int, i + m) != needle@,
            decreases m - j,
        {
            if hay.get_char(i + j) != needle.get_char(j) {
                proof {
                    assert(hay@.subrange(i as int, i + m)[j as int] != needle@[j as int]);
                }
                same = false;
            }
            j = j + 1;
        }
        if same {
            proof {
                assert(hay@.subrange(i as int, i + m) =~= needle@);
            }
            return true;
        }
        i = i + 1;
    }
    false
}

/// Whether any of `patterns` occurs in `name`.
fn any_occurs(name: &str, patterns: &Vec<String>) -> (b: bool)
    ensures
        b == exists|j: int| 0 <= j < patterns@.len() && occurs_in(name@, #[trigger] texts(patterns@)[j]),
{
    let mut j: usize = 0;
    while j < patterns.len()
        invariant
            j <= patterns@.len(),
            forall|t: int| 0 <= t < j ==> !occurs_in(name@, #[trigger] texts(patterns@)[t]),
        decreases patterns.len() - j,
    {
        if occurs(name, patterns[j].as_str()) {
            proof {
                assert(texts(patterns@)[j as int] == patterns@[j as int]@);
            }
            return true;
        }
        j = j + 1;
    }
    false
}

/// The filters given on a command line.
pub struct Filters {
    /// Positions, among the candidate operation names, of the selected operations.
    pub iops: Vec<usize>,
    /// The selected integer sizes.
    pub bits: Vec<u16>,
    /// Number of repetitions, at least 1.
    pub reps: usize,
}

impl Filters {
    /// Reads the filters out of `args`, and returns them with the arguments that
    /// are not filters.
    ///
    /// `-i`/`--iops` give comma-separated patterns: an operation is selected when
    /// its name in `iop_names`, in lower case, holds one of them (trimmed and in
    /// lower case); without patterns every operation is. `-b`/`--bits` give
    /// comma-separated sizes, of which those among [`ALL_BITS`] are selected
    /// (all of them when none is given); pieces that do not parse are skipped.
    /// `-r`/`--reps` give the number of repetitions, [`DEFAULT_REPS`] where it
    /// does not parse, and at least 1. Each flag also has the `--flag=value`
    /// form.
    pub fn parse(args: &[String], iop_names: &[String]) -> (r: (Filters, Vec<String>))
        ensures
            ({
                let sc = scan(texts(args@), 0, scan_start());
                &&& r.0.iops@ == selected_positions(texts(iop_names@), sc.patterns)
                &&& r.0.bits@ == selected_bits(ALL_BITS@, sc.bits)
                &&& r.0.reps == (if sc.reps < 1 { 1 } else { sc.reps })
                &&& texts(r.1@) == sc.remaining
            }),
    {
        let ghost all = texts(args@);
        let f_i: [char; 2] = ['-', 'i'];
        let f_iops: [char; 6] = ['-', '-', 'i', 'o', 'p', 's'];
        let f_iops_eq: [char; 7] = ['-', '-', 'i', 'o', 'p', 's', '='];
        let f_b: [char; 2] = ['-', 'b'];
        let f_bits: [char; 6] = ['-', '-', 'b', 'i', 't', 's'];
        let f_bits_eq: [char; 7] = ['-', '-', 'b', 'i', 't', 's', '='];
        let f_r: [char; 2] = ['-', 'r'];
        let f_reps: [char; 6] = ['-', '-', 'r', 'e', 'p', 's'];
        let f_reps_eq: [char; 7] = ['-', '-', 'r', 'e', 'p', 's', '='];
        proof {
            assert(f_i@ =~= flag_i());
            assert(f_iops@ =~= flag_iops());
            assert(f_iops_eq@ =~= with_eq(flag_iops()));
            assert(f_b@ =~= flag_b());
            assert(f_bits@ =~= flag_bits());
            assert(f_bits_eq@ =~= with_eq(flag_bits()));
            assert(f_r@ =~= flag_r());
            assert(f_reps@ =~= flag_reps());
            assert(f_reps_eq@ =~= with_eq(flag_reps()));
        }
        let mut patterns: Vec<String> = Vec::new();
        let mut bit_values: Vec<u16> = Vec::new();
        let mut reps: usize = DEFAULT_REPS;
        let mut remaining: Vec<String> = Vec::new();
        let n = args.len();
        let mut i: usize = 0;
        proof {
            assert(texts(patterns@) =~= Seq::<Seq<char>>::empty());
            assert(texts(remaining@) =~= Seq::<Seq<char>>::empty());
            assert(bit_values@ =~= Seq::<u16>::empty());
        }
        while i < n
            invariant
                n == args@.len(),
                all == texts(args@),
                all.len() == n,
                i <= n,
                f_i@ == flag_i(),
                f_iops@ == flag_iops(),
                f_iops_eq@ == with_eq(flag_iops()),
                f_b@ == flag_b(),
                f_bits@ == flag_bits(),
                f_bits_eq@ == with_eq(flag_bits()),
                f_r@ == flag_r(),
                f_reps@ == flag_reps(),
                f_reps_eq@ == with_eq(flag_reps()),
                scan(all, i as int, ArgScan {
                    patterns: texts(patterns@),
                    bits: bit_values@,
                    reps: reps as nat,
                    remaining: texts(remaining@),
                }) == scan(all, 0, scan_start()),
            decreases n - i,
        {
            let a = args[i].as_str();
            let ghost acc = ArgScan {
                patterns: texts(patterns@),
                bits: bit_values@,
                reps: reps as nat,
                remaining: texts(remaining@),
            };
            proof {
                assert(all[i as int] == a@);
            }
            if is_text(a, &f_i) || is_text(a, &f_iops) {
                if i + 1 < n {
                    proof {
                        assert(all[i + 1] == args@[i + 1]@);
                    }
                    add_patterns(&mut patterns, args[i + 1].as_str());
                    i = i + 2;
                } else {
                    i = i + 1;
                }
            } else if has_prefix(a, &f_iops_eq) {
                let v = a.substring_char(7, a.unicode_len());
                proof {
                    assert(v@ =~= a@.skip(7));
                }
                add_patterns(&mut patterns, v);
                i = i + 1;
            } else if is_text(a, &f_b) || is_text(a, &f_bits) {
                if i + 1 < n {
                    proof {
                        assert(all[i + 1] == args@[i + 1]@);
                    }
                    add_bits(&mut bit_values, args[i + 1].as_str());
                    i = i + 2;
                } else {
                    i = i + 1;
                }
            } else if has_prefix(a, &f_bits_eq) {
                let v = a.substring_char(7, a.unicode_len());
                proof {
                    assert(v@ =~= a@.skip(7));
                }
                add_bits(&mut bit_values, v);
                i = i + 1;
            } else if is_text(a, &f_r) || is_text(a, &f_reps) {
                if i + 1 < n {
                    proof {
                        assert(all[i + 1] == args@[i + 1]@);
                    }
                    reps = reps_value(args[i + 1].as_str());
                    i = i + 2;
                } else {
                    i = i + 1;
                }
            } else if has_prefix(a, &f_reps_eq) {
                let v = a.substring_char(7, a.unicode_len());
                proof {
                    assert(v@ =~= a@.skip(7));
                }
                reps = reps_value(v);
                i = i + 1;
            } else {
                let kept = args[i].clone();
                proof {
                    assert(texts(remaining@.push(kept)) =~= texts(remaining@).push(a@));
                }
                remaining.push(kept);
                i = i + 1;
            }
        }
        let ghost sc = scan(all, 0, scan_start());
        let iops = select_iops(iop_names, &patterns);
        let bits = select_bits(&bit_values);
        let reps = if reps < 1 {
            1
        } else {
            reps
        };
        (Filters { iops, bits, reps }, remaining)
    }
}

/// The positions of the names that `patterns` selects.
fn select_iops(names: &[String], patterns: &Vec<String>) -> (r: Vec<usize>)
    ensures
        r@ == selected_positions(texts(names@), texts(patterns@)),
{
    let ghost all = texts(names@);
    let mut out: Vec<usize> = Vec::new();
    let mut k: usize = 0;
    while k < names.len()
        invariant
            k <= names@.len(),
            all == texts(names@),
            all.len() == names@.len(),
            out@ == selected_positions(all.take(k as int), texts(patterns@)),
        decreases names.len() - k,
    {
        let lname = lowercase_str(names[k].as_str());
        let picked = patterns.len() == 0 || any_occurs(lname.as_str(), patterns);
        proof {
            assert(all.take(k + 1).drop_last() =~= all.take(k as int));
            assert(all.take(k + 1).last() == names@[k as int]@);
        }
        if picked {
            out.push(k);
        }
        k = k + 1;
    }
    proof {
        assert(all.take(names@.len() as int) =~= all);
    }
    out
}

/// The known sizes that `bits` selects.
fn select_bits(bits: &Vec<u16>) -> (r: Vec<u16>)
    ensures
        r@ == selected_bits(ALL_BITS@, bits@),
{
    let known = ALL_BITS;
    let mut out: Vec<u16> = Vec::new();
    let mut k: usize = 0;
    while k < 5
        invariant
            k <= 5,
            known@ == ALL_BITS@,
            known@.len() == 5,
            bits@.len() == 0 ==> out@ == known@.take(k as int),
            bits@.len() > 0 ==> out@ == kept_bits(known@.take(k as int), bits@),
        decreases 5 - k,
    {
        let b = known[k];
        proof {
            assert(known@.take(k + 1).drop_last() =~= known@.take(k as int));
            assert(known@.take(k + 1) =~= known@.take(k as int).push(b));
        }
        if bits.len() == 0 || contains_u16(bits, b) {
            out.push(b);
        }
        k = k + 1;
    }
    proof {
        assert(known@.take(5) =~= known@);
    }
    out
}

/// Whether `b` occurs in `v`.
fn contains_u16(v: &Vec<u16>, b: u16) -> (r: bool)
    ensures
        r == v@.contains(b),
{
    let mut j: usize = 0;
    while j < v.len()
        invariant
            j <= v@.len(),
            forall|t: int| 0 <= t < j ==> v@[t] != b,
        decreases v.len() - j,
    {
        if v[j] == b {
            return true;
        }
        j = j + 1;
    }
    false
}

} // verus!
