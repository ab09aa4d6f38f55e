//! Shapes of the carry-lookahead tree adder: their model, their compact text
//! form, and the shape tables indexed by integer size.
use vstd::prelude::*;
use vstd::string::StringSliceAdditionalSpecFns;

verus! {

/// Resolution mode of a leaf group.
#[derive(Clone, Copy, Debug, PartialEq, Eq)]
pub enum Mode {
    /// Folded finals. Text: no suffix.
    Fold,
    /// Ripple chain. Text suffix `r`.
    Ripple,
    /// Ripple chain fed by the previous sibling's carry-out. Text suffix `p`.
    Prev,
    /// First leaf only: the chain carry-out is the unit's state. Text suffix `c`.
    Chain,
}

/// Tree shape: leaves are groups of consecutive blocks, nodes combine units.
#[derive(Debug, PartialEq, Eq)]
pub enum Spec {
    Leaf { size: usize, mode: Mode },
    Node(Vec<Spec>),
}

/// Mathematical model of a [`Spec`].
pub enum ShapeTree {
    Leaf(nat, Mode),
    Node(Seq<ShapeTree>),
}

/// The model of a shape.
pub open spec fn shape_of(s: Spec) -> ShapeTree
    decreases s,
{
    match s {
        Spec::Leaf { size, mode } => ShapeTree::Leaf(size as nat, mode),
        Spec::Node(v) => ShapeTree::Node(shapes_of(v@)),
    }
}

/// The models of a sequence of shapes.
pub open spec fn shapes_of(v: Seq<Spec>) -> Seq<ShapeTree>
    decreases v,
{
    if v.len() == 0 {
        Seq::empty()
    } else {
        shapes_of(v.drop_last()).push(shape_of(v.last()))
    }
}

/// `shapes_of` maps each shape to its model.
pub proof fn lemma_shapes_of(v: Seq<Spec>)
    ensures
        shapes_of(v).len() == v.len(),
        forall|i: int| 0 <= i < v.len() ==> #[trigger] shapes_of(v)[i] == shape_of(v[i]),
    decreases v.len(),
{
    if v.len() > 0 {
        lemma_shapes_of(v.drop_last());
    }
}

impl View for Spec {
    type V = ShapeTree;

    open spec fn view(&self) -> ShapeTree {
        shape_of(*self)
    }
}

/// Number of blocks covered by a shape.
pub open spec fn tree_blocks(t: ShapeTree) -> nat
    decreases t,
{
    match t {
        ShapeTree::Leaf(n, _) => n,
        ShapeTree::Node(cs) => sum_blocks(cs),
    }
}

/// Number of blocks covered by a sequence of shapes.
pub open spec fn sum_blocks(cs: Seq<ShapeTree>) -> nat
    decreases cs,
{
    if cs.len() == 0 {
        0
    } else {
        sum_blocks(cs.drop_last()) + tree_blocks(cs.last())
    }
}

proof fn lemma_sum_blocks_prefix(cs: Seq<ShapeTree>, k: int)
    requires
        0 <= k <= cs.len(),
    ensures
        sum_blocks(cs.take(k)) <= sum_blocks(cs),
    decreases cs.len(),
{
    if k < cs.len() {
        lemma_sum_blocks_prefix(cs.drop_last(), k);
        assert(cs.drop_last().take(k) == cs.take(k));
    } else {
        assert(cs.take(k) == cs);
    }
}

proof fn lemma_sum_blocks_concat(a: Seq<ShapeTree>, b: Seq<ShapeTree>)
    ensures
        sum_blocks(a + b) == sum_blocks(a) + sum_blocks(b),
    decreases b.len(),
{
    if b.len() == 0 {
        assert(a + b == a);
    } else {
        lemma_sum_blocks_concat(a, b.drop_last());
        assert((a + b).drop_last() == a + b.drop_last());
    }
}

/// A copy of a shape, node by node.
fn copy_shape(s: &Spec) -> (r: Spec)
    ensures
        r@ == s@,
    decreases s,
{
    match s {
        Spec::Leaf { size, mode } => Spec::Leaf { size: *size, mode: *mode },
        Spec::Node(v) => {
            proof {
                lemma_shapes_of(v@);
                assert(decreases_to!(*s => *v));
                assert(decreases_to!(*v => v@));
                assert forall|j: int| 0 <= j < v@.len() implies decreases_to!(*s => #[trigger] v@[j]) by {
                    assert(decreases_to!(v@ => v@[j]));
                }
            }
            let mut out: Vec<Spec> = Vec::new();
            let mut i: usize = 0;
            while i < v.len()
                invariant
                    i <= v.len(),
                    out@.len() == i,
                    forall|j: int| 0 <= j < i ==> #[trigger] out@[j]@ == v@[j]@,
                    forall|j: int| 0 <= j < v@.len() ==> decreases_to!(*s => #[trigger] v@[j]),
                decreases v.len() - i,
            {
                let c = copy_shape(&v[i]);
                out.push(c);
                i = i + 1;
            }
            proof {
                lemma_shapes_of(out@);
                lemma_shapes_of(v@);
                assert forall|j: int| 0 <= j < v@.len() implies #[trigger] shapes_of(out@)[j]
                    == shapes_of(v@)[j] by {
                    assert(out@[j]@ == v@[j]@);
                }
                assert(shapes_of(out@) =~= shapes_of(v@));
            }
            Spec::Node(out)
        },
    }
}

impl Clone for Spec {
    fn clone(&self) -> (r: Spec)
        ensures
            r@ == self@,
    {
        copy_shape(self)
    }
}

impl Spec {
    /// Number of blocks covered by the shape.
    pub fn blocks(&self) -> (n: usize)
        requires
            tree_blocks(self@) <= usize::MAX,
        ensures
            n == tree_blocks(self@),
        decreases self,
    {
        match self {
            Spec::Leaf { size, .. } => *size,
            Spec::Node(v) => {
                let ghost cs = shapes_of(v@);
                proof {
                    lemma_shapes_of(v@);
                    assert(decreases_to!(*self => *v));
                    assert(decreases_to!(*v => v@));
                    assert forall|j: int| 0 <= j < v@.len() implies decreases_to!(*self => #[trigger] v@[j]) by {
                        assert(decreases_to!(v@ => v@[j]));
                    }
                }
                let mut total: usize = 0;
                let mut i: usize = 0;
                while i < v.len()
                    invariant
                        i <= v.len(),
                        cs == shapes_of(v@),
                        cs.len() == v@.len(),
                        forall|j: int| 0 <= j < v@.len() ==> #[trigger] cs[j] == shape_of(v@[j]),
                        sum_blocks(cs) <= usize::MAX,
                        total == sum_blocks(cs.take(i as int)),
                        forall|j: int| 0 <= j < v@.len() ==> decreases_to!(*self => #[trigger] v@[j]),
                    decreases v.len() - i,
                {
                    proof {
                        lemma_sum_blocks_prefix(cs, i + 1);
                        assert(cs.take(i + 1).drop_last() == cs.take(i as int));
                    }
                    let b = v[i].blocks();
                    total = total + b;
                    i = i + 1;
                }
                proof {
                    assert(cs.take(v.len() as int) == cs);
                }
                total
            },
        }
    }
}


// ================================================================ text form

/// ASCII code of `[`.
pub open spec fn open_bracket() -> u8 { 91 }
/// ASCII code of `]`.
pub open spec fn close_bracket() -> u8 { 93 }
/// ASCII code of `,`.
pub open spec fn comma() -> u8 { 44 }

/// Is `b` an ASCII decimal digit?
pub open spec fn is_digit(b: u8) -> bool {
    48 <= b <= 57
}

/// Value of a sequence of decimal digits, most significant first.
pub open spec fn digits_value(s: Seq<u8>) -> nat
    decreases s.len(),
{
    if s.len() == 0 {
        0
    } else {
        digits_value(s.drop_last()) * 10 + (s.last() - 48) as nat
    }
}

/// Decimal text of `n`, without leading zeros.
pub open spec fn dec(n: nat) -> Seq<u8>
    decreases n,
{
    if n < 10 {
        seq![(48 + n) as u8]
    } else {
        dec(n / 10).push((48 + n % 10) as u8)
    }
}

/// Text suffix of a leaf mode.
pub open spec fn mode_suffix(m: Mode) -> Seq<u8> {
    match m {
        Mode::Fold => Seq::empty(),
        Mode::Ripple => seq![114u8],
        Mode::Prev => seq![112u8],
        Mode::Chain => seq![99u8],
    }
}

/// Compact text form of a shape, e.g. `[4,2r,[2p,1]]`.
pub open spec fn text(t: ShapeTree) -> Seq<u8>
    decreases t,
{
    match t {
        ShapeTree::Leaf(n, m) => dec(n) + mode_suffix(m),
        ShapeTree::Node(cs) => seq![open_bracket()] + join_text(cs) + seq![close_bracket()],
    }
}

/// Texts of a sequence of shapes, separated by commas.
pub open spec fn join_text(cs: Seq<ShapeTree>) -> Seq<u8>
    decreases cs,
{
    if cs.len() == 0 {
        Seq::empty()
    } else if cs.len() == 1 {
        text(cs[0])
    } else {
        join_text(cs.drop_last()) + seq![comma()] + text(cs.last())
    }
}

/// The characters of an ASCII byte sequence.
pub open spec fn ascii_chars(b: Seq<u8>) -> Seq<char> {
    Seq::new(b.len(), |i: int| b[i] as char)
}

/// End of the run of digits that starts at `i`.
pub open spec fn digit_run_end(cs: Seq<u8>, i: int) -> int
    decreases cs.len() - i,
{
    if 0 <= i < cs.len() && is_digit(cs[i]) {
        digit_run_end(cs, i + 1)
    } else {
        i
    }
}

/// Mode suffix read at `j`, and the position after it.
pub open spec fn mode_at(cs: Seq<u8>, j: int) -> (Mode, int) {
    if 0 <= j < cs.len() && cs[j] == 114 {
        (Mode::Ripple, j + 1)
    } else if 0 <= j < cs.len() && cs[j] == 112 {
        (Mode::Prev, j + 1)
    } else if 0 <= j < cs.len() && cs[j] == 99 {
        (Mode::Chain, j + 1)
    } else {
        (Mode::Fold, j)
    }
}

/// Parses one shape starting at `i`: the shape and the position after it, or `None`
/// where the parser of the text form fails.
pub open spec fn parse_item(cs: Seq<u8>, i: int) -> Option<(ShapeTree, int)>
    decreases cs.len() - i, 0int,
{
    if i < 0 || i >= cs.len() {
        None
    } else if cs[i] == open_bracket() {
        parse_list(cs, i + 1, Seq::empty())
    } else {
        let j = digit_run_end(cs, i);
        let n = digits_value(cs.subrange(i, j));
        if n > usize::MAX {
            None
        } else {
            let (m, k) = mode_at(cs, j);
            Some((ShapeTree::Leaf(n, m), k))
        }
    }
}

/// Parses the members of a node from `i` on, after the members `acc` already read.
pub open spec fn parse_list(cs: Seq<u8>, i: int, acc: Seq<ShapeTree>) -> Option<(ShapeTree, int)>
    decreases cs.len() - i, 1int,
{
    if i < 0 || i > cs.len() {
        None
    } else {
        match parse_item(cs, i) {
            None => None,
            Some((x, j)) => {
                if j < i || j >= cs.len() {
                    None
                } else if cs[j] == comma() {
                    parse_list(cs, j + 1, acc.push(x))
                } else if cs[j] == close_bracket() {
                    Some((ShapeTree::Node(acc.push(x)), j + 1))
                } else {
                    None
                }
            },
        }
    }
}

/// The shape that a whole text denotes, or `None` where parsing fails.
pub open spec fn spec_parse(cs: Seq<u8>) -> Option<ShapeTree> {
    match parse_item(cs, 0) {
        Some((t, j)) => if j == cs.len() {
            Some(t)
        } else {
            None
        },
        None => None,
    }
}


proof fn lemma_digit_run(cs: Seq<u8>, i: int)
    requires
        0 <= i <= cs.len(),
    ensures
        i <= digit_run_end(cs, i) <= cs.len(),
        forall|k: int| i <= k < digit_run_end(cs, i) ==> is_digit(#[trigger] cs[k]),
        digit_run_end(cs, i) == cs.len() || !is_digit(cs[digit_run_end(cs, i)]),
    decreases cs.len() - i,
{
    if i < cs.len() && is_digit(cs[i]) {
        lemma_digit_run(cs, i + 1);
    }
}

proof fn lemma_digits_value_prefix(s: Seq<u8>, k: int)
    requires
        0 <= k <= s.len(),
        forall|j: int| 0 <= j < s.len() ==> is_digit(#[trigger] s[j]),
    ensures
        digits_value(s.take(k)) <= digits_value(s),
    decreases s.len(),
{
    if k < s.len() {
        lemma_digits_value_prefix(s.drop_last(), k);
        assert(s.drop_last().take(k) == s.take(k));
    } else {
        assert(s.take(k) == s);
    }
}

proof fn lemma_parse_item_positions(cs: Seq<u8>, i: int)
    ensures
        parse_item(cs, i) matches Some((_, j)) ==> i <= j <= cs.len(),
    decreases cs.len() - i, 0int,
{
    if 0 <= i < cs.len() {
        if cs[i] == open_bracket() {
            lemma_parse_list_positions(cs, i + 1, Seq::empty());
        } else {
            lemma_digit_run(cs, i);
        }
    }
}

proof fn lemma_parse_list_positions(cs: Seq<u8>, i: int, acc: Seq<ShapeTree>)
    ensures
        parse_list(cs, i, acc) matches Some((_, j)) ==> i < j <= cs.len(),
    decreases cs.len() - i, 1int,
{
    if 0 <= i <= cs.len() {
        lemma_parse_item_positions(cs, i);
        match parse_item(cs, i) {
            Some((x, j)) => {
                if i <= j < cs.len() && cs[j] == comma() {
                    lemma_parse_list_positions(cs, j + 1, acc.push(x));
                }
            },
            None => {},
        }
    }
}

/// Parses one shape at `*i` and moves `*i` past it; `None` where the text form is
/// malformed at that point.
fn parse_at(cs: &[u8], i: &mut usize) -> (r: Option<Spec>)
    requires
        *old(i) <= cs@.len(),
    ensures
        match parse_item(cs@, *old(i) as int) {
            Some((t, j)) => r is Some && r->0@ == t && *final(i) as int == j,
            None => r is None,
        },
    decreases cs@.len() - *old(i), 0int,
{
    let ghost start = *i as int;
    proof {
        lemma_parse_item_positions(cs@, start);
    }
    if *i >= cs.len() {
        return None;
    }
    if cs[*i] == 91 {
        *i = *i + 1;
        let mut v: Vec<Spec> = Vec::new();
        loop
            invariant_except_break
                start < *i <= cs@.len(),
                parse_list(cs@, *i as int, shapes_of(v@)) == parse_item(cs@, start),
            invariant
                start == *old(i) as int,
            ensures
                parse_item(cs@, start) == Some((Spec::Node(v)@, *i as int)),
            decreases cs@.len() - *i,
        {
            let ghost p = *i as int;
            proof {
                lemma_parse_item_positions(cs@, p);
            }
            let x = match parse_at(cs, i) {
                Some(x) => x,
                None => return None,
            };
            proof {
                assert(shapes_of(v@.push(x)) == shapes_of(v@).push(x@)) by {
                    assert(v@.push(x).drop_last() == v@);
                }
            }
            v.push(x);
            if *i >= cs.len() {
                return None;
            }
            if cs[*i] == 44 {
                *i = *i + 1;
            } else if cs[*i] == 93 {
                *i = *i + 1;
                break;
            } else {
                return None;
            }
        }
        Some(Spec::Node(v))
    } else {
        proof {
            lemma_digit_run(cs@, start);
        }
        let ghost end = digit_run_end(cs@, start);
        let mut size: usize = 0;
        while *i < cs.len() && 48 <= cs[*i] && cs[*i] <= 57
            invariant
                start == *old(i) as int,
                start < cs@.len(),
                cs@[start] != open_bracket(),
                start <= *i <= end,
                end == digit_run_end(cs@, start),
                start <= end <= cs@.len(),
                forall|k: int| start <= k < end ==> is_digit(#[trigger] cs@[k]),
                end == cs@.len() || !is_digit(cs@[end]),
                size == digits_value(cs@.subrange(start, *i as int)),
            decreases cs@.len() - *i,
        {
            let ghost run = cs@.subrange(start, end);
            proof {
                lemma_digits_value_prefix(run, *i - start + 1);
                assert(run.take(*i - start + 1) == cs@.subrange(start, *i + 1));
                assert(cs@.subrange(start, *i + 1).drop_last() == cs@.subrange(start, *i as int));
            }
            let next = match size.checked_mul(10) {
                Some(t) => t.checked_add((cs[*i] - 48) as usize),
                None => None,
            };
            match next {
                Some(t) => size = t,
                None => {
                    proof {
                        assert(digits_value(cs@.subrange(start, *i + 1)) == size * 10 + (cs@[*i as int] - 48));
                        assert(digits_value(cs@.subrange(start, *i + 1)) > usize::MAX);
                        assert(digits_value(run) > usize::MAX);
                    }
                    return None;
                },
            }
            *i = *i + 1;
        }
        let mode = if *i < cs.len() && cs[*i] == 114 {
            *i = *i + 1;
            Mode::Ripple
        } else if *i < cs.len() && cs[*i] == 112 {
            *i = *i + 1;
            Mode::Prev
        } else if *i < cs.len() && cs[*i] == 99 {
            *i = *i + 1;
            Mode::Chain
        } else {
            Mode::Fold
        };
        Some(Spec::Leaf { size, mode })
    }
}

/// The shape that a whole text denotes, or `None` where it is malformed.
fn parse_text(s: &str) -> (r: Option<Spec>)
    ensures
        match spec_parse(s.spec_bytes()) {
            Some(t) => r is Some && r->0@ == t,
            None => r is None,
        },
{
    let cs = s.as_bytes();
    let mut i: usize = 0;
    match parse_at(cs, &mut i) {
        Some(r) => if i == cs.len() {
            Some(r)
        } else {
            None
        },
        None => None,
    }
}

impl Spec {
    /// Parses the compact text form.
    pub fn parse(s: &str) -> (r: Spec)
        requires
            spec_parse(s.spec_bytes()) is Some,
        ensures
            Some(r@) == spec_parse(s.spec_bytes()),
    {
        parse_text(s).unwrap()
    }
}


/// Appends the character of one byte of the text alphabet.
fn push_ascii(out: &mut String, b: u8)
    requires
        is_digit(b) || b == 91 || b == 93 || b == 44 || b == 114 || b == 112 || b == 99,
    ensures
        final(out)@ == old(out)@.push(b as char),
{
    let lit: &str = match b {
        48 => "0",
        49 => "1",
        50 => "2",
        51 => "3",
        52 => "4",
        53 => "5",
        54 => "6",
        55 => "7",
        56 => "8",
        57 => "9",
        91 => "[",
        93 => "]",
        44 => ",",
        114 => "r",
        112 => "p",
        _ => "c",
    };
    proof {
        reveal_strlit("0");
        reveal_strlit("1");
        reveal_strlit("2");
        reveal_strlit("3");
        reveal_strlit("4");
        reveal_strlit("5");
        reveal_strlit("6");
        reveal_strlit("7");
        reveal_strlit("8");
        reveal_strlit("9");
        reveal_strlit("[");
        reveal_strlit("]");
        reveal_strlit(",");
        reveal_strlit("r");
        reveal_strlit("p");
        reveal_strlit("c");
    }
    out.append(lit);
}

/// Appends the decimal text of `n`.
fn push_decimal(out: &mut String, n: usize)
    ensures
        final(out)@ == old(out)@ + ascii_chars(dec(n as nat)),
    decreases n,
{
    if n >= 10 {
        push_decimal(out, n / 10);
    }
    let d = (n % 10) as u8;
    push_ascii(out, 48 + d);
    proof {
        if n >= 10 {
            assert(ascii_chars(dec(n as nat)) == ascii_chars(dec((n / 10) as nat)).push((48 + d) as char));
        } else {
            assert(ascii_chars(dec(n as nat)) == seq![(48 + d) as char]);
        }
    }
}

impl Spec {
    /// Appends the compact text form of the shape.
    fn write_text(&self, out: &mut String)
        ensures
            final(out)@ == old(out)@ + ascii_chars(text(self@)),
        decreases self,
    {
        match self {
            Spec::Leaf { size, mode } => {
                push_decimal(out, *size);
                let ghost mid = out@;
                match mode {
                    Mode::Fold => {},
                    Mode::Ripple => push_ascii(out, 114),
                    Mode::Prev => push_ascii(out, 112),
                    Mode::Chain => push_ascii(out, 99),
                }
                proof {
                    assert(ascii_chars(dec(*size as nat) + mode_suffix(*mode)) == ascii_chars(dec(*size as nat)) + ascii_chars(mode_suffix(*mode)));
                }
            },
            Spec::Node(v) => {
                let ghost cs = shapes_of(v@);
                let ghost start = out@;
                proof {
                    lemma_shapes_of(v@);
                    assert(decreases_to!(*self => *v));
                    assert(decreases_to!(*v => v@));
                    assert forall|j: int| 0 <= j < v@.len() implies decreases_to!(*self => #[trigger] v@[j]) by {
                        assert(decreases_to!(v@ => v@[j]));
                    }
                }
                push_ascii(out, 91);
                let mut i: usize = 0;
                while i < v.len()
                    invariant
                        i <= v.len(),
                        cs == shapes_of(v@),
                        cs.len() == v@.len(),
                        forall|j: int| 0 <= j < v@.len() ==> #[trigger] cs[j] == shape_of(v@[j]),
                        forall|j: int| 0 <= j < v@.len() ==> decreases_to!(*self => #[trigger] v@[j]),
                        out@ == start + ascii_chars(seq![open_bracket()] + join_text(cs.take(i as int))),
                    decreases v.len() - i,
                {
                    let ghost before = out@;
                    if i > 0 {
                        push_ascii(out, 44);
                    }
                    v[i].write_text(out);
                    proof {
                        let p = cs.take(i + 1);
                        assert(p.drop_last() == cs.take(i as int));
                        assert(p.last() == cs[i as int]);
                        if i == 0 {
                            assert(join_text(p) == text(cs[0]));
                        }
                        assert(ascii_chars(seq![open_bracket()] + join_text(p)) =~= out@.subrange(start.len() as int, out@.len() as int));
                    }
                    i = i + 1;
                }
                push_ascii(out, 93);
                proof {
                    assert(cs.take(v.len() as int) == cs);
                    assert(ascii_chars(text(self@)) =~= out@.subrange(start.len() as int, out@.len() as int));
                }
            },
        }
    }

    /// Compact text form, e.g. `[4,2r,[2p,1]]`.
    pub fn to_text(&self) -> (r: String)
        ensures
            r@ == ascii_chars(text(self@)),
    {
        let mut out = String::new();
        self.write_text(&mut out);
        proof {
            assert(out@ =~= ascii_chars(text(self@)));
        }
        out
    }
}


// ================================================================ text round trip

/// Shapes that the text form can represent: every node has at least one member and
/// every leaf size fits in a machine word.
pub open spec fn text_wf(t: ShapeTree) -> bool
    decreases t,
{
    match t {
        ShapeTree::Leaf(n, _) => n <= usize::MAX,
        ShapeTree::Node(cs) => cs.len() > 0 && all_text_wf(cs),
    }
}

/// Every member of `cs` is [`text_wf`].
pub open spec fn all_text_wf(cs: Seq<ShapeTree>) -> bool
    decreases cs,
{
    if cs.len() == 0 {
        true
    } else {
        all_text_wf(cs.drop_last()) && text_wf(cs.last())
    }
}

/// No node of the shape is empty.
pub open spec fn no_empty_node(t: ShapeTree) -> bool
    decreases t,
{
    match t {
        ShapeTree::Leaf(..) => true,
        ShapeTree::Node(cs) => cs.len() > 0 && all_no_empty_node(cs),
    }
}

/// No node of any member of `cs` is empty.
pub open spec fn all_no_empty_node(cs: Seq<ShapeTree>) -> bool
    decreases cs,
{
    if cs.len() == 0 {
        true
    } else {
        all_no_empty_node(cs.drop_last()) && no_empty_node(cs.last())
    }
}

proof fn lemma_all_text_wf(cs: Seq<ShapeTree>)
    ensures
        all_text_wf(cs) <==> forall|i: int| 0 <= i < cs.len() ==> text_wf(#[trigger] cs[i]),
    decreases cs.len(),
{
    if cs.len() > 0 {
        lemma_all_text_wf(cs.drop_last());
        if forall|i: int| 0 <= i < cs.len() ==> text_wf(#[trigger] cs[i]) {
            assert forall|i: int| 0 <= i < cs.drop_last().len() implies text_wf(#[trigger] cs.drop_last()[i]) by {
                assert(cs.drop_last()[i] == cs[i]);
            }
        }
        if all_text_wf(cs) {
            assert forall|i: int| 0 <= i < cs.len() implies text_wf(#[trigger] cs[i]) by {
                if i < cs.len() - 1 {
                    assert(cs.drop_last()[i] == cs[i]);
                }
            }
        }
    }
}

proof fn lemma_dec(n: nat)
    ensures
        dec(n).len() >= 1,
        forall|k: int| 0 <= k < dec(n).len() ==> is_digit(#[trigger] dec(n)[k]),
        digits_value(dec(n)) == n,
    decreases n,
{
    if n >= 10 {
        lemma_dec(n / 10);
        assert(dec(n).drop_last() == dec(n / 10));
        assert(dec(n).last() == (48 + n % 10) as u8);
        assert((dec(n).last() - 48) as nat == n % 10);
        assert(digits_value(dec(n)) == digits_value(dec(n / 10)) * 10 + n % 10);
    } else {
        assert(dec(n).drop_last() =~= Seq::<u8>::empty());
        assert(dec(n).last() == (48 + n) as u8);
        assert(digits_value(Seq::<u8>::empty()) == 0);
        assert(digits_value(dec(n)) == digits_value(dec(n).drop_last()) * 10 + (dec(n).last() - 48) as nat);
    }
}

proof fn lemma_digit_run_exact(cs: Seq<u8>, i: int, k: int)
    requires
        0 <= i <= k <= cs.len(),
        forall|j: int| i <= j < k ==> is_digit(#[trigger] cs[j]),
        k == cs.len() || !is_digit(cs[k]),
    ensures
        digit_run_end(cs, i) == k,
    decreases k - i,
{
    if i < k {
        lemma_digit_run_exact(cs, i + 1, k);
    }
}

proof fn lemma_join_front(cs: Seq<ShapeTree>)
    requires
        cs.len() >= 2,
    ensures
        join_text(cs) == text(cs[0]) + seq![comma()] + join_text(cs.drop_first()),
    decreases cs.len(),
{
    if cs.len() > 2 {
        lemma_join_front(cs.drop_last());
        assert(cs.drop_last().drop_first() == cs.drop_first().drop_last());
        assert(cs.drop_first().last() == cs.last());
        assert(cs.drop_last()[0] == cs[0]);
        assert(join_text(cs.drop_first()) == join_text(cs.drop_first().drop_last()) + seq![comma()] + text(cs.drop_first().last()));
        assert(join_text(cs) =~= text(cs[0]) + seq![comma()] + join_text(cs.drop_first()));
    } else {
        assert(cs.drop_first() =~= seq![cs[1]]);
        assert(cs.drop_last() =~= seq![cs[0]]);
        assert(join_text(cs.drop_first()) == text(cs[1]));
        assert(join_text(cs.drop_last()) == text(cs[0]));
        assert(join_text(cs) =~= text(cs[0]) + seq![comma()] + join_text(cs.drop_first()));
    }
}

/// Is the byte one that may follow a member in the text form?
pub open spec fn is_terminator(cs: Seq<u8>, e: int) -> bool {
    e == cs.len() || (0 <= e < cs.len() && (cs[e] == comma() || cs[e] == close_bracket()))
}

proof fn lemma_parse_item_text(t: ShapeTree, cs: Seq<u8>, i: int)
    requires
        text_wf(t),
        0 <= i,
        i + text(t).len() <= cs.len(),
        cs.subrange(i, i + text(t).len()) == text(t),
        is_terminator(cs, i + text(t).len()),
    ensures
        parse_item(cs, i) == Some((t, i + text(t).len())),
    decreases t,
{
    let e = i + text(t).len();
    match t {
        ShapeTree::Leaf(n, m) => {
            lemma_dec(n);
            let d = dec(n);
            let k = i + d.len();
            assert(cs[i] == text(t)[0]);
            assert forall|j: int| i <= j < k implies is_digit(#[trigger] cs[j]) by {
                assert(cs[j] == text(t)[j - i]);
                assert(text(t)[j - i] == d[j - i]);
            }
            if m != Mode::Fold {
                assert(cs[k] == text(t)[d.len() as int]);
            }
            lemma_digit_run_exact(cs, i, k);
            assert(cs.subrange(i, k) =~= d);
        },
        ShapeTree::Node(ch) => {
            assert(cs[i] == text(t)[0]);
            let jl = join_text(ch).len() as int;
            assert(cs.subrange(i + 1, i + 1 + jl) =~= join_text(ch)) by {
                assert forall|k: int| 0 <= k < jl implies cs.subrange(i + 1, i + 1 + jl)[k] == join_text(ch)[k] by {
                    assert(cs[i + 1 + k] == text(t)[1 + k]);
                }
            }
            assert(cs[i + 1 + jl] == text(t)[1 + jl]);
            lemma_parse_list_text(ch, cs, i + 1, Seq::empty());
            assert(Seq::<ShapeTree>::empty() + ch =~= ch);
        },
    }
}

proof fn lemma_parse_list_text(s: Seq<ShapeTree>, cs: Seq<u8>, i: int, acc: Seq<ShapeTree>)
    requires
        s.len() >= 1,
        all_text_wf(s),
        0 <= i,
        i + join_text(s).len() < cs.len(),
        cs.subrange(i, i + join_text(s).len()) == join_text(s),
        cs[i + join_text(s).len()] == close_bracket(),
    ensures
        parse_list(cs, i, acc) == Some((ShapeTree::Node(acc + s), i + join_text(s).len() + 1)),
    decreases s,
{
    lemma_all_text_wf(s);
    let t0 = s[0];
    let j = i + text(t0).len();
    if s.len() == 1 {
        assert(join_text(s) == text(t0));
        lemma_parse_item_text(t0, cs, i);
        assert(acc.push(t0) =~= acc + s);
    } else {
        lemma_join_front(s);
        let rest = s.drop_first();
        assert(cs.subrange(i, j) =~= text(t0)) by {
            assert forall|k: int| 0 <= k < text(t0).len() implies cs.subrange(i, j)[k] == text(t0)[k] by {
                assert(cs[i + k] == join_text(s)[k]);
            }
        }
        assert(cs[j] == join_text(s)[text(t0).len() as int]);
        lemma_parse_item_text(t0, cs, i);
        lemma_all_text_wf(rest);
        assert(cs.subrange(j + 1, j + 1 + join_text(rest).len()) =~= join_text(rest)) by {
            assert forall|k: int| 0 <= k < join_text(rest).len() implies cs.subrange(j + 1, j + 1 + join_text(rest).len())[k] == join_text(rest)[k] by {
                assert(cs[j + 1 + k] == join_text(s)[text(t0).len() + 1 + k]);
            }
        }
        lemma_parse_list_text(rest, cs, j + 1, acc.push(t0));
        assert(acc.push(t0) + rest =~= acc + s);
    }
}


proof fn lemma_all_no_empty_node(cs: Seq<ShapeTree>)
    ensures
        all_no_empty_node(cs) <==> forall|i: int| 0 <= i < cs.len() ==> no_empty_node(#[trigger] cs[i]),
    decreases cs.len(),
{
    if cs.len() > 0 {
        lemma_all_no_empty_node(cs.drop_last());
        if forall|i: int| 0 <= i < cs.len() ==> no_empty_node(#[trigger] cs[i]) {
            assert forall|i: int| 0 <= i < cs.drop_last().len() implies no_empty_node(#[trigger] cs.drop_last()[i]) by {
                assert(cs.drop_last()[i] == cs[i]);
            }
        }
        if all_no_empty_node(cs) {
            assert forall|i: int| 0 <= i < cs.len() implies no_empty_node(#[trigger] cs[i]) by {
                if i < cs.len() - 1 {
                    assert(cs.drop_last()[i] == cs[i]);
                }
            }
        }
    }
}

proof fn lemma_model_text_wf(x: Spec)
    requires
        no_empty_node(x@),
    ensures
        text_wf(x@),
    decreases x,
{
    match x {
        Spec::Leaf { .. } => {},
        Spec::Node(v) => {
            let cs = shapes_of(v@);
            lemma_shapes_of(v@);
            lemma_all_no_empty_node(cs);
            assert forall|i: int| 0 <= i < cs.len() implies text_wf(#[trigger] cs[i]) by {
                assert(decreases_to!(x => v));
                assert(decreases_to!(v => v@));
                assert(decreases_to!(v@ => v@[i]));
                assert(cs[i] == v@[i]@);
                assert(no_empty_node(cs[i]));
                lemma_model_text_wf(v@[i]);
            }
            lemma_all_text_wf(cs);
        },
    }
}

proof fn lemma_text_ascii(t: ShapeTree)
    ensures
        forall|k: int| 0 <= k < text(t).len() ==> #[trigger] text(t)[k] < 128,
    decreases t,
{
    match t {
        ShapeTree::Leaf(n, m) => {
            lemma_dec(n);
            assert forall|k: int| 0 <= k < text(t).len() implies #[trigger] text(t)[k] < 128 by {
                if k < dec(n).len() {
                    assert(text(t)[k] == dec(n)[k]);
                }
            }
        },
        ShapeTree::Node(ch) => {
            lemma_join_ascii(ch);
            assert forall|k: int| 0 <= k < text(t).len() implies #[trigger] text(t)[k] < 128 by {
                if 1 <= k < 1 + join_text(ch).len() {
                    assert(text(t)[k] == join_text(ch)[k - 1]);
                }
            }
        },
    }
}

proof fn lemma_join_ascii(cs: Seq<ShapeTree>)
    ensures
        forall|k: int| 0 <= k < join_text(cs).len() ==> #[trigger] join_text(cs)[k] < 128,
    decreases cs,
{
    if cs.len() == 1 {
        lemma_text_ascii(cs[0]);
    } else if cs.len() > 1 {
        lemma_join_ascii(cs.drop_last());
        lemma_text_ascii(cs.last());
        let a = join_text(cs.drop_last());
        assert(join_text(cs) == a + seq![comma()] + text(cs.last()));
        assert forall|k: int| 0 <= k < join_text(cs).len() implies #[trigger] join_text(cs)[k] < 128 by {
            if k < a.len() {
                assert(join_text(cs)[k] == a[k]);
            } else if k > a.len() {
                assert(join_text(cs)[k] == text(cs.last())[k - a.len() - 1]);
            } else {
                assert(join_text(cs)[k] == comma());
            }
        }
    }
}

/// The UTF-8 bytes of the text of a shape are the bytes of [`text`].
pub proof fn lemma_text_bytes(t: ShapeTree)
    ensures
        vstd::utf8::encode_utf8(ascii_chars(text(t))) == text(t),
{
    let b = text(t);
    let c = ascii_chars(b);
    lemma_text_ascii(t);
    assert(vstd::utf8::is_ascii_chars(c)) by {
        assert forall|i: int| 0 <= i < c.len() implies '\0' <= #[trigger] c[i] <= '\u{7f}' by {
            assert(b[i] < 128);
        }
    }
    vstd::utf8::is_ascii_chars_encode_utf8(c);
    assert(vstd::utf8::encode_utf8(c) =~= b) by {
        assert forall|i: int| 0 <= i < b.len() implies vstd::utf8::encode_utf8(c)[i] == b[i] by {
            assert(c[i] as u8 == vstd::utf8::encode_utf8(c)[i]);
            assert(b[i] < 128);
        }
    }
}

/// Text round trip: parsing the text form of a shape whose nodes are all non-empty gives
/// the shape back. (A node without members prints as `[]`, which parses as a node with one
/// empty leaf.)
pub proof fn lemma_parse_to_text(x: Spec)
    requires
        no_empty_node(x@),
    ensures
        spec_parse(vstd::utf8::encode_utf8(ascii_chars(text(x@)))) == Some(x@),
{
    lemma_model_text_wf(x);
    lemma_text_bytes(x@);
    let cs = text(x@);
    assert(cs.subrange(0, cs.len() as int) =~= cs);
    lemma_parse_item_text(x@, cs, 0);
}


// ================================================================ default shapes

/// A group of consecutive units: the unit itself when alone, a node otherwise.
pub open spec fn chunk_unit(c: Seq<ShapeTree>) -> ShapeTree {
    if c.len() == 1 {
        c[0]
    } else {
        ShapeTree::Node(c)
    }
}

/// Groups consecutive units by four (the last group may be shorter).
pub open spec fn group4(s: Seq<ShapeTree>) -> Seq<ShapeTree>
    decreases s.len(),
{
    if s.len() == 0 {
        Seq::empty()
    } else {
        let k = if s.len() < 4 { s.len() as int } else { 4 };
        seq![chunk_unit(s.take(k))] + group4(s.skip(k))
    }
}

/// Grouping by four leaves a quarter of the units, rounded up.
pub proof fn lemma_group4_len(s: Seq<ShapeTree>)
    ensures
        group4(s).len() == (s.len() + 3) / 4,
    decreases s.len(),
{
    if s.len() > 0 {
        let k = if s.len() < 4 { s.len() as int } else { 4 };
        lemma_group4_len(s.skip(k));
    }
}

/// Groups units by four until a single root remains.
pub open spec fn nest_spec(s: Seq<ShapeTree>) -> ShapeTree
    decreases s.len(),
{
    if s.len() <= 1 {
        s[0]
    } else {
        proof {
            lemma_group4_len(s);
        }
        nest_spec(group4(s))
    }
}

proof fn lemma_group4_blocks(s: Seq<ShapeTree>)
    ensures
        sum_blocks(group4(s)) == sum_blocks(s),
    decreases s.len(),
{
    if s.len() > 0 {
        let k = if s.len() < 4 { s.len() as int } else { 4 };
        lemma_group4_blocks(s.skip(k));
        lemma_sum_blocks_concat(seq![chunk_unit(s.take(k))], group4(s.skip(k)));
        lemma_sum_blocks_concat(s.take(k), s.skip(k));
        assert(s.take(k) + s.skip(k) == s);
        let c = s.take(k);
        if c.len() == 1 {
            assert(c.drop_last() =~= Seq::<ShapeTree>::empty());
            assert(sum_blocks(c) == sum_blocks(c.drop_last()) + tree_blocks(c.last()));
        }
        assert(tree_blocks(chunk_unit(c)) == sum_blocks(c));
        let one = seq![chunk_unit(c)];
        assert(one.drop_last() =~= Seq::<ShapeTree>::empty());
        assert(one.last() == chunk_unit(c));
        assert(sum_blocks(one) == sum_blocks(one.drop_last()) + tree_blocks(one.last()));
        assert(sum_blocks(Seq::<ShapeTree>::empty()) == 0);
        assert(group4(s) == seq![chunk_unit(c)] + group4(s.skip(k)));
    }
}

/// Nesting keeps the blocks: the root covers all the blocks of the units.
proof fn lemma_nest_blocks(s: Seq<ShapeTree>)
    requires
        s.len() >= 1,
    ensures
        tree_blocks(nest_spec(s)) == sum_blocks(s),
    decreases s.len(),
{
    if s.len() == 1 {
        assert(s.drop_last() =~= Seq::<ShapeTree>::empty());
        assert(sum_blocks(s) == sum_blocks(s.drop_last()) + tree_blocks(s.last()));
    } else {
        lemma_group4_len(s);
        lemma_group4_blocks(s);
        lemma_nest_blocks(group4(s));
        assert(nest_spec(s) == nest_spec(group4(s)));
    }
}

proof fn lemma_shapes_of_subrange(v: Seq<Spec>, a: int, b: int)
    requires
        0 <= a <= b <= v.len(),
    ensures
        shapes_of(v.subrange(a, b)) == shapes_of(v).subrange(a, b),
{
    lemma_shapes_of(v);
    lemma_shapes_of(v.subrange(a, b));
    assert(shapes_of(v.subrange(a, b)) =~= shapes_of(v).subrange(a, b));
}

/// Groups consecutive units by four.
fn group_by_four(units: Vec<Spec>) -> (r: Vec<Spec>)
    ensures
        shapes_of(r@) == group4(shapes_of(units@)),
{
    let ghost all = shapes_of(units@);
    let mut rest = units;
    let mut out: Vec<Spec> = Vec::new();
    proof {
        assert(shapes_of(out@) + group4(shapes_of(rest@)) =~= group4(all));
    }
    while rest.len() > 0
        invariant
            group4(all) == shapes_of(out@) + group4(shapes_of(rest@)),
        decreases rest.len(),
    {
        let k: usize = if rest.len() < 4 { rest.len() } else { 4 };
        let ghost before = rest@;
        let tail = rest.split_off(k);
        let mut chunk = rest;
        rest = tail;
        proof {
            lemma_shapes_of_subrange(before, 0, k as int);
            lemma_shapes_of_subrange(before, k as int, before.len() as int);
            lemma_shapes_of(before);
            assert(shapes_of(before).take(k as int) == shapes_of(before).subrange(0, k as int));
            assert(shapes_of(before).skip(k as int) == shapes_of(before).subrange(k as int, before.len() as int));
        }
        let ghost c = shapes_of(chunk@);
        let unit = if chunk.len() == 1 {
            proof {
                lemma_shapes_of(chunk@);
            }
            chunk.pop().unwrap()
        } else {
            Spec::Node(chunk)
        };
        proof {
            assert(unit@ == chunk_unit(c));
            assert(shapes_of(out@.push(unit)) == shapes_of(out@).push(unit@)) by {
                assert(out@.push(unit).drop_last() == out@);
            }
            assert(shapes_of(out@).push(unit@) + group4(shapes_of(rest@)) =~= shapes_of(out@) + (seq![unit@] + group4(shapes_of(rest@))));
        }
        out.push(unit);
    }
    proof {
        assert(shapes_of(rest@) =~= Seq::<ShapeTree>::empty());
        assert(shapes_of(out@) + Seq::<ShapeTree>::empty() =~= shapes_of(out@));
    }
    out
}

impl Spec {
    /// Groups consecutive units by four until a single root remains.
    pub fn nest(units: Vec<Spec>) -> (r: Spec)
        requires
            units.len() >= 1,
        ensures
            r@ == nest_spec(shapes_of(units@)),
            tree_blocks(r@) == sum_blocks(shapes_of(units@)),
    {
        let ghost all = shapes_of(units@);
        proof {
            lemma_shapes_of(units@);
            lemma_nest_blocks(all);
        }
        let mut units = units;
        while units.len() > 1
            invariant
                units.len() >= 1,
                nest_spec(shapes_of(units@)) == nest_spec(all),
            decreases units.len(),
        {
            proof {
                lemma_shapes_of(units@);
                lemma_group4_len(shapes_of(units@));
            }
            units = group_by_four(units);
            proof {
                lemma_shapes_of(units@);
            }
        }
        proof {
            lemma_shapes_of(units@);
        }
        units.pop().unwrap()
    }
}


/// Leaves of at most `k` blocks covering `n` blocks, the last one possibly shorter.
pub open spec fn leaves_spec(n: nat, k: nat, m: Mode) -> Seq<ShapeTree>
    decreases n,
{
    if n == 0 || k == 0 {
        Seq::empty()
    } else if n <= k {
        seq![ShapeTree::Leaf(n, m)]
    } else {
        seq![ShapeTree::Leaf(k, m)] + leaves_spec((n - k) as nat, k, m)
    }
}

proof fn lemma_leaves_spec(n: nat, k: nat, m: Mode)
    requires
        k > 0,
    ensures
        sum_blocks(leaves_spec(n, k, m)) == n,
        n > 0 ==> leaves_spec(n, k, m).len() >= 1,
    decreases n,
{
    let one = seq![ShapeTree::Leaf(if n <= k { n } else { k }, m)];
    assert(one.drop_last() =~= Seq::<ShapeTree>::empty());
    assert(sum_blocks(one) == sum_blocks(one.drop_last()) + tree_blocks(one.last()));
    if n > k {
        lemma_leaves_spec((n - k) as nat, k, m);
        lemma_sum_blocks_concat(one, leaves_spec((n - k) as nat, k, m));
    }
}

/// Leaves of at most `k` blocks covering `n` blocks.
fn leaves(n: usize, k: usize, mode: Mode) -> (r: Vec<Spec>)
    requires
        k > 0,
    ensures
        shapes_of(r@) == leaves_spec(n as nat, k as nat, mode),
{
    let mut out: Vec<Spec> = Vec::new();
    let mut left = n;
    proof {
        assert(shapes_of(out@) + leaves_spec(left as nat, k as nat, mode) =~= leaves_spec(n as nat, k as nat, mode));
    }
    while left > 0
        invariant
            k > 0,
            shapes_of(out@) + leaves_spec(left as nat, k as nat, mode) == leaves_spec(n as nat, k as nat, mode),
        decreases left,
    {
        let size = if left < k { left } else { k };
        let leaf = Spec::Leaf { size, mode };
        proof {
            assert(shapes_of(out@.push(leaf)) == shapes_of(out@).push(leaf@)) by {
                assert(out@.push(leaf).drop_last() == out@);
            }
            if left <= k {
                assert(leaves_spec((left - size) as nat, k as nat, mode) =~= Seq::<ShapeTree>::empty());
            }
            assert(shapes_of(out@).push(leaf@) + leaves_spec((left - size) as nat, k as nat, mode) =~= shapes_of(out@) + leaves_spec(left as nat, k as nat, mode));
        }
        out.push(leaf);
        left = left - size;
    }
    proof {
        assert(shapes_of(out@) + leaves_spec(0, k as nat, mode) =~= shapes_of(out@));
    }
    out
}

/// The block-tree default shape of `n` blocks.
pub open spec fn default_shape_spec(n: nat, ripple: bool) -> ShapeTree {
    nest_spec(leaves_spec(n, 4, if ripple { Mode::Ripple } else { Mode::Fold }))
}

/// The digit-tree default shape of `n` blocks.
pub open spec fn default_digit_shape_spec(n: nat) -> ShapeTree {
    nest_spec(leaves_spec(n, 2, Mode::Ripple))
}

impl Spec {
    /// Block-tree default: groups of 4 blocks (last one partial), nodes of 4 units.
    pub fn default_shape(n: usize, ripple: bool) -> (r: Spec)
        requires
            n >= 1,
        ensures
            r@ == default_shape_spec(n as nat, ripple),
            tree_blocks(r@) == n,
    {
        let mode = if ripple { Mode::Ripple } else { Mode::Fold };
        let v = leaves(n, 4, mode);
        proof {
            lemma_leaves_spec(n as nat, 4, mode);
            lemma_shapes_of(v@);
        }
        Spec::nest(v)
    }
}

/// Digit-tree default: pairs (last single if odd), nodes of 4 units.
pub fn default_digit_shape(n: usize) -> (r: Spec)
    requires
        n >= 1,
    ensures
        r@ == default_digit_shape_spec(n as nat),
        tree_blocks(r@) == n,
{
    let v = leaves(n, 2, Mode::Ripple);
    proof {
        lemma_leaves_spec(n as nat, 2, Mode::Ripple);
        lemma_shapes_of(v@);
    }
    Spec::nest(v)
}

// ================================================================ shape tables

/// Text of the block-tree shape of the sizes that have a table entry.
pub open spec fn block_shape_table(bits: u16) -> Option<&'static str> {
    match bits {
        20 => Some("[4,2r,2,2]"),
        24 => Some("[4,2r,2,2,2]"),
        26 => Some("[4,3,2,2,2]"),
        28 => Some("[4,4,2,2,2]"),
        34 => Some("[[3,3,2],3,1,2,2,1]"),
        36 => Some("[[[1,4,4,3],2r,2],2]"),
        _ => None,
    }
}

/// Text of the digit-tree shape of the sizes that have a table entry.
pub open spec fn digit_shape_table(bits: u16) -> Option<&'static str> {
    match bits {
        14 => Some("[2p,2p,1r,1r,1r]"),
        18 => Some("[2r,2p,2r,2r,1r]"),
        22 => Some("[[2p,2p,2r,2r],1r,1r,1r]"),
        30 => Some("[2p,2p,2r,[2r,2r,2r,[2,1r]]]"),
        32 => Some("[[2r,2r,2r,2r],[2r,2,2,2]]"),
        38 => Some("[[2p,2p,2p,2r],[[2r,2r,2r,2r],[2r,1r]]]"),
        40 => Some("[[2p,2p,2p,2r],[2p,2r,2r,2r],2r,2r]"),
        42 => Some("[[2r,2p,2r,2r],2r,2r,[2r,2r,2r,2r,1r]]"),
        44 => Some("[[2p,2p,2p,2r],[2p,1p,1r],[2r,2r,2r,2r],2r]"),
        46 => Some("[[2p,2p,2p,2r],[2r,2r,1r,1r],[2r,2r,2r,2r,1r]]"),
        48 => Some("[[2r,2p,2p,2r],[2p,2r,2r,2r],[[2r,2r,2r],2r]]"),
        50 => Some("[[2r,2p,2r,2p],[2r,2r,2r,2r],[[2r,2r,2r,2r],1r]]"),
        52 => Some("[[2r,2p,2p,2r],[2p,2r,2r,2r],[2r,2r,2r,2r],2r]"),
        54 => Some("[[2r,2p,2p,2r],[2r,2r,2r,2r],[2,2r,2r,2r],2r,1r]"),
        56 => Some("[[2r,2p,2r,2r],[2r,2r,2r,2r],[2r,2r,2r],[2r,1r,1r,2r]]"),
        58 => Some("[[2r,2p,2r,2p],[2p,2r,2r,2r],[2r,2r,2r],[2r,1r,2r,2r]]"),
        60 => Some("[[2r,2p,2r,2r],[2p,2r,2r],[2r,2r,2r,2r],[2r,2r,2r,1r,1r]]"),
        62 => Some("[[2r,2r,2r,2r],[2r,2r,2r,2r],[2r,2r,2r,2r],[[2r,2r,2r],1r]]"),
        66 => Some("[[2p,2r,2r,2r],[2r,2r,2r,2r],[[2r,2r,2r],2r],[[2r,2r,2r],2r],1r]"),
        68 => Some("[[[2r,2r,2r,2r],[2r,2r,2r,2r],[2r,2r,2r,2r],[2r,2r,2r,2r]],[1r,1r]]"),
        70 => Some("[[[2p,2p,2p,2r],[2p,2p,2r,2r],[2p,2p,2r,2r],[2p,2r,2r,2r]],2,1r]"),
        72 => Some("[[[2r,2p,2p,2r],[2r,2r,2r,2r],[2p,2r,2r,2r],[2p,2r,2r,2r]],2,2r]"),
        74 => Some("[[2r,2p,2r,2r],[2r,2r,2r,2r],[2r,2p,[2p,2r],[[[2r,2r,2r,2r],2r,2r],1r]]]"),
        76 => Some("[[[2r,2r,2r,2r],[2r,2r,2r,2r],[[2r,2r,2r],2r,2r,2r],[2r,2r]],2r,2r,2r]"),
        78 => Some("[[[2r,2r,2r,2r],[2p,2r,2r,2r],[2p,2r,2r,2r],[2r,2r,2r,2r]],[[2p,2r],1r,1r,1r]]"),
        80 => Some("[[[2r,2r,2r,2r],[2r,2r,2r,2r],[2r,2r,2r,2p],[2r,2r,2r,2r]],[2r,2r,2r,2r]]"),
        82 => Some("[[[2r,2p,2r,2r],[2p,2r,2r,2r],[2p,2p,2r,2p],[2r,2r,2r,2]],[2r,2r,2r,2r],1r]"),
        84 => Some("[[[[2p,2p,2p],[2p,2r,2r,2r],[2p,2r,[1p,2p,1p],2r],[2r,2r,2r,2r]],[2r,2r,2r,2r]],2r]"),
        86 => Some("[[[2r,2r,2r,2r],[2r,2r,2r,2r],[2r,2r,2r,2r],[2r,2r,2r,2r]],[[2r,2p,2r,2r],[2r,1p]]]"),
        88 => Some("[[[2r,[2r,1p,1p],2r],[2r,2r,2p,2r],[2r,2r,2p,2r],[2r,2p,2r,2r]],[[2r,2r,2r],2r],2r,2r]"),
        90 => Some("[[2r,2r,2r,2r],[2r,2r,2r,2r],[2p,2r,2r,2r],[[2r,2r,2p,2r],[2p,2p,2r,2r],[2r,2p,1r]]]"),
        92 => Some("[[[2r,2r,2r,2r],[2p,2p,2r,2p],[2r,2r,2r,2r]],[[2r,2r,[2r,2r]],[2r,2r,2r,2r],[2r,2r,2r]]]"),
        94 => Some("[[[2p,2r,2p,2r],[2r,2r,2r,2r],[2r,2r,2r,2r],[2p,2p,2r,2r]],[2p,2p,2r,2r],[2r,1r,2r,2r]]"),
        96 => Some("[[[[2r,2p,2p,2r],[2r,2r,2r,2r]],[2r,2r,2r,2p],[2r,2r,2r,2r],2r],[2r,2p,2r],[2r,2,2r,2r]]"),
        98 => Some("[[[[2p,2p,2r,2r],[2r,2r,2r,2r]],[2r,2p,2r,2r],[2p,2p,2r,2r]],[2p,2p,2r,2r],[2r,2r,2r,2r,1r]]"),
        100 => Some("[[2r,2r,2r,2p],[2r,2p,2r],[2r,2r,2r,2r],[[2r,[2p,2p,2r,2r],[2r,2p,2r,2r],1r],[1p,[2r,2r,2r],2r]]]"),
        102 => Some("[[[2r,2r,2p,2r],[2p,2p,2r,2p],[2r,2p,2p,2r],[2p,2r,2r,2p]],[2r,2p,2r,2r],[2r,2r],[2r,2r,[2r,1p]]]"),
        104 => Some("[[[2r,2r,2r,2p],[2r,2r,2r,2r],[2r,2p,2r,2r]],[[[2r,2r,2r],2r],[2r,2r,2r,2r],[2r,2r,2r,2r],[2r,1p,1p]]]"),
        106 => Some("[[[2r,2r,2r,2p],[2p,2r,2r,2r],[2r,2r,2p,2r],[2p,2r,2r,2p]],[2r,2r,2r,2r],[[2r,[2r,2r]],[2r,2p,2r,1p]]]"),
        108 => Some("[[[2p,2p,2r,2r],[2r,2r,2r,2r],[2p,2r,2p,2r],[2p,2p,2r,2r]],[2p,2r,2p,2r],[[1r,1p,2r,2r],2r],[2p,[2p,2r]]]"),
        110 => Some("[[[2r,2p,2r,2r],[2r,2r,2r,2r],[2p,2r,2r,2r],[2p,2r,2r,2r]],[2r,2r,2r,2r],[2r,2r,2r,2r],[[2p,2r],2r,1r]]"),
        112 => Some("[[[2r,2p,2r,2r],[2r,2r,2p,2r],[2r,2r,2r,2p],[2r,2r,2r,2r]],[2r,2r,2r,2r],[2r,2r,2r,2r],[[[2r,2r],2r],2r]]"),
        114 => Some("[[[[2p,2r,2r,2r],[2p,2r,2r,2r],[2p,2r,2r,2r],[2r,2r,2r,2r]],[[2p,2r,2r],2r],[2r,2r,2r,2r]],[2p,2r,2r,2r],1r]"),
        116 => Some("[[[2p,2r,2r,2r],[2r,2r,2r,2r],[2r,2r,2r,2r],[2r,2r,2r,2r]],[[[[2r,2r,2r,2p],2r],[2r,2r,2r,2r]],[2r,2r,2r],2r]]"),
        118 => Some("[[[2p,2p,2r,2r],[2r,2r,2p,2p],[2p,2r,2r,2r],[2p,2r,2p,2r]],[2r,[2p,2r,2p,2r],[2r,2p,2r]],[[2p,2r,2r],[2p,2p,1r]]]"),
        120 => Some("[[[2r,2r,2r,2r],[2r,2r,2r,2r],[2r,2r,2r,2r],[2r,2r,2p,2r]],[[2r,2p,2r,2r],[2p,2r,2r,2r],[2r,2r,2r,2p],[2r,2p]]]"),
        122 => Some("[[[2c,2r,2r,2r],[2p,2r,2r,2r],[2r,2p,2r,2r],[2r,2p,2p,2r]],[[2r,2r,2r,2r],[2r,2r,2r,2p],[2r,2r,2r],[2r,2r,2r,1r]]]"),
        124 => Some("[[[2c,2p,2r,2p],[2r,2p,2r,2r],[[2r,2p,2r,2p],[2r,2p,2r,2r]]],[[[2r,2r,2r],[2r,2r,2r,2r]],[2r,2r,2r,2p],[2p,2r,[2r,1p,1p]]]]"),
        126 => Some("[[[2r,2p,2r,2r],[2p,2p,2r,2r],[2p,2p,2r,2r],[2r,2p,2r,2r]],[[2p,2p,2r,2r],[2r,2r,2r,2p],[2r,2p,2r,2p]],2r,[2r,[2r,1p]]]"),
        _ => None,
    }
}

fn block_shape_text(bits: u16) -> (r: Option<&'static str>)
    ensures
        r == block_shape_table(bits),
{
    match bits {
        20 => Some("[4,2r,2,2]"),
        24 => Some("[4,2r,2,2,2]"),
        26 => Some("[4,3,2,2,2]"),
        28 => Some("[4,4,2,2,2]"),
        34 => Some("[[3,3,2],3,1,2,2,1]"),
        36 => Some("[[[1,4,4,3],2r,2],2]"),
        _ => None,
    }
}

fn digit_shape_text(bits: u16) -> (r: Option<&'static str>)
    ensures
        r == digit_shape_table(bits),
{
    match bits {
        14 => Some("[2p,2p,1r,1r,1r]"),
        18 => Some("[2r,2p,2r,2r,1r]"),
        22 => Some("[[2p,2p,2r,2r],1r,1r,1r]"),
        30 => Some("[2p,2p,2r,[2r,2r,2r,[2,1r]]]"),
        32 => Some("[[2r,2r,2r,2r],[2r,2,2,2]]"),
        38 => Some("[[2p,2p,2p,2r],[[2r,2r,2r,2r],[2r,1r]]]"),
        40 => Some("[[2p,2p,2p,2r],[2p,2r,2r,2r],2r,2r]"),
        42 => Some("[[2r,2p,2r,2r],2r,2r,[2r,2r,2r,2r,1r]]"),
        44 => Some("[[2p,2p,2p,2r],[2p,1p,1r],[2r,2r,2r,2r],2r]"),
        46 => Some("[[2p,2p,2p,2r],[2r,2r,1r,1r],[2r,2r,2r,2r,1r]]"),
        48 => Some("[[2r,2p,2p,2r],[2p,2r,2r,2r],[[2r,2r,2r],2r]]"),
        50 => Some("[[2r,2p,2r,2p],[2r,2r,2r,2r],[[2r,2r,2r,2r],1r]]"),
        52 => Some("[[2r,2p,2p,2r],[2p,2r,2r,2r],[2r,2r,2r,2r],2r]"),
        54 => Some("[[2r,2p,2p,2r],[2r,2r,2r,2r],[2,2r,2r,2r],2r,1r]"),
        56 => Some("[[2r,2p,2r,2r],[2r,2r,2r,2r],[2r,2r,2r],[2r,1r,1r,2r]]"),
        58 => Some("[[2r,2p,2r,2p],[2p,2r,2r,2r],[2r,2r,2r],[2r,1r,2r,2r]]"),
        60 => Some("[[2r,2p,2r,2r],[2p,2r,2r],[2r,2r,2r,2r],[2r,2r,2r,1r,1r]]"),
        62 => Some("[[2r,2r,2r,2r],[2r,2r,2r,2r],[2r,2r,2r,2r],[[2r,2r,2r],1r]]"),
        66 => Some("[[2p,2r,2r,2r],[2r,2r,2r,2r],[[2r,2r,2r],2r],[[2r,2r,2r],2r],1r]"),
        68 => Some("[[[2r,2r,2r,2r],[2r,2r,2r,2r],[2r,2r,2r,2r],[2r,2r,2r,2r]],[1r,1r]]"),
        70 => Some("[[[2p,2p,2p,2r],[2p,2p,2r,2r],[2p,2p,2r,2r],[2p,2r,2r,2r]],2,1r]"),
        72 => Some("[[[2r,2p,2p,2r],[2r,2r,2r,2r],[2p,2r,2r,2r],[2p,2r,2r,2r]],2,2r]"),
        74 => Some("[[2r,2p,2r,2r],[2r,2r,2r,2r],[2r,2p,[2p,2r],[[[2r,2r,2r,2r],2r,2r],1r]]]"),
        76 => Some("[[[2r,2r,2r,2r],[2r,2r,2r,2r],[[2r,2r,2r],2r,2r,2r],[2r,2r]],2r,2r,2r]"),
        78 => Some("[[[2r,2r,2r,2r],[2p,2r,2r,2r],[2p,2r,2r,2r],[2r,2r,2r,2r]],[[2p,2r],1r,1r,1r]]"),
        80 => Some("[[[2r,2r,2r,2r],[2r,2r,2r,2r],[2r,2r,2r,2p],[2r,2r,2r,2r]],[2r,2r,2r,2r]]"),
        82 => Some("[[[2r,2p,2r,2r],[2p,2r,2r,2r],[2p,2p,2r,2p],[2r,2r,2r,2]],[2r,2r,2r,2r],1r]"),
        84 => Some("[[[[2p,2p,2p],[2p,2r,2r,2r],[2p,2r,[1p,2p,1p],2r],[2r,2r,2r,2r]],[2r,2r,2r,2r]],2r]"),
        86 => Some("[[[2r,2r,2r,2r],[2r,2r,2r,2r],[2r,2r,2r,2r],[2r,2r,2r,2r]],[[2r,2p,2r,2r],[2r,1p]]]"),
        88 => Some("[[[2r,[2r,1p,1p],2r],[2r,2r,2p,2r],[2r,2r,2p,2r],[2r,2p,2r,2r]],[[2r,2r,2r],2r],2r,2r]"),
        90 => Some("[[2r,2r,2r,2r],[2r,2r,2r,2r],[2p,2r,2r,2r],[[2r,2r,2p,2r],[2p,2p,2r,2r],[2r,2p,1r]]]"),
        92 => Some("[[[2r,2r,2r,2r],[2p,2p,2r,2p],[2r,2r,2r,2r]],[[2r,2r,[2r,2r]],[2r,2r,2r,2r],[2r,2r,2r]]]"),
        94 => Some("[[[2p,2r,2p,2r],[2r,2r,2r,2r],[2r,2r,2r,2r],[2p,2p,2r,2r]],[2p,2p,2r,2r],[2r,1r,2r,2r]]"),
        96 => Some("[[[[2r,2p,2p,2r],[2r,2r,2r,2r]],[2r,2r,2r,2p],[2r,2r,2r,2r],2r],[2r,2p,2r],[2r,2,2r,2r]]"),
        98 => Some("[[[[2p,2p,2r,2r],[2r,2r,2r,2r]],[2r,2p,2r,2r],[2p,2p,2r,2r]],[2p,2p,2r,2r],[2r,2r,2r,2r,1r]]"),
        100 => Some("[[2r,2r,2r,2p],[2r,2p,2r],[2r,2r,2r,2r],[[2r,[2p,2p,2r,2r],[2r,2p,2r,2r],1r],[1p,[2r,2r,2r],2r]]]"),
        102 => Some("[[[2r,2r,2p,2r],[2p,2p,2r,2p],[2r,2p,2p,2r],[2p,2r,2r,2p]],[2r,2p,2r,2r],[2r,2r],[2r,2r,[2r,1p]]]"),
        104 => Some("[[[2r,2r,2r,2p],[2r,2r,2r,2r],[2r,2p,2r,2r]],[[[2r,2r,2r],2r],[2r,2r,2r,2r],[2r,2r,2r,2r],[2r,1p,1p]]]"),
        106 => Some("[[[2r,2r,2r,2p],[2p,2r,2r,2r],[2r,2r,2p,2r],[2p,2r,2r,2p]],[2r,2r,2r,2r],[[2r,[2r,2r]],[2r,2p,2r,1p]]]"),
        108 => Some("[[[2p,2p,2r,2r],[2r,2r,2r,2r],[2p,2r,2p,2r],[2p,2p,2r,2r]],[2p,2r,2p,2r],[[1r,1p,2r,2r],2r],[2p,[2p,2r]]]"),
        110 => Some("[[[2r,2p,2r,2r],[2r,2r,2r,2r],[2p,2r,2r,2r],[2p,2r,2r,2r]],[2r,2r,2r,2r],[2r,2r,2r,2r],[[2p,2r],2r,1r]]"),
        112 => Some("[[[2r,2p,2r,2r],[2r,2r,2p,2r],[2r,2r,2r,2p],[2r,2r,2r,2r]],[2r,2r,2r,2r],[2r,2r,2r,2r],[[[2r,2r],2r],2r]]"),
        114 => Some("[[[[2p,2r,2r,2r],[2p,2r,2r,2r],[2p,2r,2r,2r],[2r,2r,2r,2r]],[[2p,2r,2r],2r],[2r,2r,2r,2r]],[2p,2r,2r,2r],1r]"),
        116 => Some("[[[2p,2r,2r,2r],[2r,2r,2r,2r],[2r,2r,2r,2r],[2r,2r,2r,2r]],[[[[2r,2r,2r,2p],2r],[2r,2r,2r,2r]],[2r,2r,2r],2r]]"),
        118 => Some("[[[2p,2p,2r,2r],[2r,2r,2p,2p],[2p,2r,2r,2r],[2p,2r,2p,2r]],[2r,[2p,2r,2p,2r],[2r,2p,2r]],[[2p,2r,2r],[2p,2p,1r]]]"),
        120 => Some("[[[2r,2r,2r,2r],[2r,2r,2r,2r],[2r,2r,2r,2r],[2r,2r,2p,2r]],[[2r,2p,2r,2r],[2p,2r,2r,2r],[2r,2r,2r,2p],[2r,2p]]]"),
        122 => Some("[[[2c,2r,2r,2r],[2p,2r,2r,2r],[2r,2p,2r,2r],[2r,2p,2p,2r]],[[2r,2r,2r,2r],[2r,2r,2r,2p],[2r,2r,2r],[2r,2r,2r,1r]]]"),
        124 => Some("[[[2c,2p,2r,2p],[2r,2p,2r,2r],[[2r,2p,2r,2p],[2r,2p,2r,2r]]],[[[2r,2r,2r],[2r,2r,2r,2r]],[2r,2r,2r,2p],[2p,2r,[2r,1p,1p]]]]"),
        126 => Some("[[[2r,2p,2r,2r],[2p,2p,2r,2r],[2p,2p,2r,2r],[2r,2p,2r,2r]],[[2p,2p,2r,2r],[2r,2r,2r,2p],[2r,2p,2r,2p]],2r,[2r,[2r,1p]]]"),
        _ => None,
    }
}

/// The shape a table text denotes (the default shape where it would not parse).
pub open spec fn table_shape(text: &str, dflt: ShapeTree) -> ShapeTree {
    match spec_parse(text.spec_bytes()) {
        Some(t) => t,
        None => dflt,
    }
}

/// The block-tree shape of an integer size.
pub open spec fn shape_spec(bits: u16) -> ShapeTree {
    let n = (bits / 2) as nat;
    match block_shape_table(bits) {
        Some(text) => table_shape(text, default_shape_spec(n, false)),
        None => default_shape_spec(n, false),
    }
}

/// The digit-tree shape of an integer size, if the digit tree is used at that size.
pub open spec fn digit_shape_spec(bits: u16) -> Option<ShapeTree> {
    let n = (bits / 2) as nat;
    if bits == 4 || bits == 64 {
        Some(default_digit_shape_spec(n))
    } else {
        match digit_shape_table(bits) {
            Some(text) => Some(table_shape(text, default_digit_shape_spec(n))),
            None => if bits > 36 {
                Some(default_digit_shape_spec(n))
            } else {
                None
            },
        }
    }
}

/// Outside the sizes 20, 24, 26, 28, 34 and 36 bits the block tree is the default
/// one.
pub proof fn lemma_shape_default(bits: u16)
    requires
        bits != 20 && bits != 24 && bits != 26 && bits != 28 && bits != 34 && bits != 36,
    ensures
        shape_spec(bits) == default_shape_spec((bits / 2) as nat, false),
{
}

/// The digit tree is left out exactly at the sizes of at most 36 bits other than
/// 4, 14, 18, 22, 30 and 32.
pub proof fn lemma_digit_shape_absent(bits: u16)
    ensures
        digit_shape_spec(bits) is None <==> (bits <= 36 && bits != 4 && bits != 14 && bits != 18 && bits != 22
            && bits != 30 && bits != 32),
        (bits == 4 || bits == 64 || (bits > 36 && digit_shape_table(bits) is None)) ==> digit_shape_spec(bits)
            == Some(default_digit_shape_spec((bits / 2) as nat)),
{
}

/// The leaves of a default shape: all of `k` blocks and of mode `m`, but the last
/// one, which holds what is left; there are `n / k` of them, rounded up.
pub proof fn lemma_leaves_layout(n: nat, k: nat, m: Mode)
    requires
        n >= 1,
        k >= 1,
    ensures
        leaves_spec(n, k, m).len() == ((n + k - 1) as nat) / k,
        forall|i: int| 0 <= i < leaves_spec(n, k, m).len() - 1 ==> #[trigger] leaves_spec(n, k, m)[i] == ShapeTree::Leaf(k, m),
        leaves_spec(n, k, m).last() == ShapeTree::Leaf((n - k * (leaves_spec(n, k, m).len() - 1)) as nat, m),
    decreases n,
{
    if n <= k {
        assert(((n + k - 1) as nat) / k == 1) by (nonlinear_arith)
            requires
                1 <= n <= k,
        ;
        let l = leaves_spec(n, k, m);
        assert(l == seq![ShapeTree::Leaf(n, m)]);
        assert(k * (l.len() - 1) == 0) by (nonlinear_arith)
            requires
                l.len() == 1,
        ;
    } else {
        let r = (n - k) as nat;
        lemma_leaves_layout(r, k, m);
        assert(((n + k - 1) as nat) / k == ((r + k - 1) as nat) / k + 1) by (nonlinear_arith)
            requires
                r == n - k,
                k >= 1,
        ;
        let rest = leaves_spec(r, k, m);
        let l = leaves_spec(n, k, m);
        assert(l == seq![ShapeTree::Leaf(k, m)] + rest);
        assert(k * (l.len() - 1) == k + k * (rest.len() - 1)) by (nonlinear_arith)
            requires
                l.len() == rest.len() + 1,
        ;
        assert(l.last() == rest.last());
    }
}

/// Every node of the shape has between two and four children.
pub open spec fn nodes_two_to_four(t: ShapeTree) -> bool
    decreases t,
{
    match t {
        ShapeTree::Leaf(..) => true,
        ShapeTree::Node(cs) => 2 <= cs.len() <= 4 && all_nodes_two_to_four(cs),
    }
}

/// Every node of every member of `cs` has between two and four children.
pub open spec fn all_nodes_two_to_four(cs: Seq<ShapeTree>) -> bool
    decreases cs,
{
    if cs.len() == 0 {
        true
    } else {
        all_nodes_two_to_four(cs.drop_last()) && nodes_two_to_four(cs.last())
    }
}

proof fn lemma_all_nodes_two_to_four(cs: Seq<ShapeTree>)
    ensures
        all_nodes_two_to_four(cs) <==> forall|i: int| 0 <= i < cs.len() ==> nodes_two_to_four(#[trigger] cs[i]),
    decreases cs.len(),
{
    if cs.len() > 0 {
        lemma_all_nodes_two_to_four(cs.drop_last());
        if forall|i: int| 0 <= i < cs.len() ==> nodes_two_to_four(#[trigger] cs[i]) {
            assert forall|i: int| 0 <= i < cs.drop_last().len() implies nodes_two_to_four(#[trigger] cs.drop_last()[i]) by {
                assert(cs.drop_last()[i] == cs[i]);
            }
        }
        if all_nodes_two_to_four(cs) {
            assert forall|i: int| 0 <= i < cs.len() implies nodes_two_to_four(#[trigger] cs[i]) by {
                if i < cs.len() - 1 {
                    assert(cs.drop_last()[i] == cs[i]);
                }
            }
        }
    }
}

proof fn lemma_group4_nodes(s: Seq<ShapeTree>)
    requires
        forall|i: int| 0 <= i < s.len() ==> nodes_two_to_four(#[trigger] s[i]),
    ensures
        forall|i: int| 0 <= i < group4(s).len() ==> nodes_two_to_four(#[trigger] group4(s)[i]),
    decreases s.len(),
{
    if s.len() > 0 {
        let k = if s.len() < 4 { s.len() as int } else { 4 };
        let c = s.take(k);
        assert forall|i: int| 0 <= i < s.skip(k).len() implies nodes_two_to_four(#[trigger] s.skip(k)[i]) by {
            assert(s.skip(k)[i] == s[i + k]);
        }
        lemma_group4_nodes(s.skip(k));
        assert forall|i: int| 0 <= i < c.len() implies nodes_two_to_four(#[trigger] c[i]) by {
            assert(c[i] == s[i]);
        }
        lemma_all_nodes_two_to_four(c);
        assert(nodes_two_to_four(chunk_unit(c))) by {
            if c.len() == 1 {
                assert(c[0] == s[0]);
            }
        }
        let g = group4(s);
        assert(g == seq![chunk_unit(c)] + group4(s.skip(k)));
        assert forall|i: int| 0 <= i < g.len() implies nodes_two_to_four(#[trigger] g[i]) by {
            if i > 0 {
                assert(g[i] == group4(s.skip(k))[i - 1]);
            }
        }
    }
}

proof fn lemma_nest_nodes(s: Seq<ShapeTree>)
    requires
        s.len() >= 1,
        forall|i: int| 0 <= i < s.len() ==> nodes_two_to_four(#[trigger] s[i]),
    ensures
        nodes_two_to_four(nest_spec(s)),
    decreases s.len(),
{
    if s.len() > 1 {
        lemma_group4_len(s);
        lemma_group4_nodes(s);
        lemma_nest_nodes(group4(s));
    }
}

/// The default shapes nest their leaves by fours: every node has between two
/// and four children.
pub proof fn lemma_default_shape_nodes(n: nat, k: nat, m: Mode)
    requires
        n >= 1,
        k >= 1,
    ensures
        nodes_two_to_four(nest_spec(leaves_spec(n, k, m))),
        nodes_two_to_four(default_shape_spec(n, true)),
        nodes_two_to_four(default_shape_spec(n, false)),
        nodes_two_to_four(default_digit_shape_spec(n)),
{
    lemma_leaves_nodes(n, k, m);
    lemma_leaves_nodes(n, 4, Mode::Ripple);
    lemma_leaves_nodes(n, 4, Mode::Fold);
    lemma_leaves_nodes(n, 2, Mode::Ripple);
}

proof fn lemma_leaves_nodes(n: nat, k: nat, m: Mode)
    requires
        n >= 1,
        k >= 1,
    ensures
        nodes_two_to_four(nest_spec(leaves_spec(n, k, m))),
{
    lemma_leaves_layout(n, k, m);
    let l = leaves_spec(n, k, m);
    assert(((n + k - 1) as nat) / k >= 1) by (nonlinear_arith)
        requires
            n >= 1,
            k >= 1,
    ;
    assert forall|i: int| 0 <= i < l.len() implies nodes_two_to_four(#[trigger] l[i]) by {
        if i < l.len() - 1 {
            assert(l[i] == ShapeTree::Leaf(k, m));
        } else {
            assert(l[i] == l.last());
        }
    }
    lemma_nest_nodes(l);
}

/// The leaves of a shape, left to right.
pub open spec fn leaves_of(t: ShapeTree) -> Seq<ShapeTree>
    decreases t,
{
    match t {
        ShapeTree::Leaf(..) => seq![t],
        ShapeTree::Node(cs) => all_leaves_of(cs),
    }
}

/// The leaves of the members of `cs`, left to right.
pub open spec fn all_leaves_of(cs: Seq<ShapeTree>) -> Seq<ShapeTree>
    decreases cs,
{
    if cs.len() == 0 {
        Seq::empty()
    } else {
        all_leaves_of(cs.drop_last()) + leaves_of(cs.last())
    }
}

proof fn lemma_all_leaves_concat(s: Seq<ShapeTree>, t: Seq<ShapeTree>)
    ensures
        all_leaves_of(s + t) == all_leaves_of(s) + all_leaves_of(t),
    decreases t.len(),
{
    if t.len() == 0 {
        assert(s + t =~= s);
        assert(all_leaves_of(s) + all_leaves_of(t) =~= all_leaves_of(s));
    } else {
        lemma_all_leaves_concat(s, t.drop_last());
        assert((s + t).drop_last() =~= s + t.drop_last());
        assert((s + t).last() == t.last());
        assert(all_leaves_of(s) + all_leaves_of(t.drop_last()) + leaves_of(t.last()) =~= all_leaves_of(s) + (
        all_leaves_of(t.drop_last()) + leaves_of(t.last())));
    }
}

proof fn lemma_group4_leaves(s: Seq<ShapeTree>)
    ensures
        all_leaves_of(group4(s)) == all_leaves_of(s),
    decreases s.len(),
{
    if s.len() > 0 {
        let k = if s.len() < 4 { s.len() as int } else { 4 };
        let c = s.take(k);
        lemma_group4_leaves(s.skip(k));
        assert(leaves_of(chunk_unit(c)) == all_leaves_of(c)) by {
            if c.len() == 1 {
                assert(c.drop_last() =~= Seq::<ShapeTree>::empty());
                assert(all_leaves_of(c.drop_last()) == Seq::<ShapeTree>::empty());
                assert(all_leaves_of(c) =~= leaves_of(c[0]));
            }
        }
        let one = seq![chunk_unit(c)];
        lemma_all_leaves_concat(one, group4(s.skip(k)));
        assert(one.drop_last() =~= Seq::<ShapeTree>::empty());
        assert(all_leaves_of(one.drop_last()) == Seq::<ShapeTree>::empty());
        assert(all_leaves_of(one) =~= leaves_of(chunk_unit(c)));
        lemma_all_leaves_concat(c, s.skip(k));
        assert(c + s.skip(k) =~= s);
    } else {
        assert(group4(s) =~= Seq::<ShapeTree>::empty());
    }
}

proof fn lemma_nest_leaves(s: Seq<ShapeTree>)
    requires
        s.len() >= 1,
    ensures
        leaves_of(nest_spec(s)) == all_leaves_of(s),
    decreases s.len(),
{
    if s.len() > 1 {
        lemma_group4_len(s);
        lemma_group4_leaves(s);
        lemma_nest_leaves(group4(s));
    } else {
        assert(s.drop_last() =~= Seq::<ShapeTree>::empty());
        assert(all_leaves_of(s.drop_last()) == Seq::<ShapeTree>::empty());
        assert(all_leaves_of(s) =~= leaves_of(s[0]));
    }
}

proof fn lemma_leaf_seq_leaves(s: Seq<ShapeTree>)
    requires
        forall|i: int| 0 <= i < s.len() ==> (#[trigger] s[i]) is Leaf,
    ensures
        all_leaves_of(s) == s,
    decreases s.len(),
{
    if s.len() > 0 {
        lemma_leaf_seq_leaves(s.drop_last());
        assert(s.last() is Leaf);
        assert(leaves_of(s.last()) == seq![s.last()]);
        assert(s.drop_last() + seq![s.last()] =~= s);
    } else {
        assert(s =~= Seq::<ShapeTree>::empty());
    }
}

/// The leaves of the nesting of `n` blocks in leaves of `k`: left to right, all of
/// `k` blocks and of mode `m` but the last, which holds what is left; `n / k` of
/// them, rounded up.
pub proof fn lemma_nested_leaves_layout(n: nat, k: nat, m: Mode)
    requires
        n >= 1,
        k >= 1,
    ensures
        ({
            let l = leaves_of(nest_spec(leaves_spec(n, k, m)));
            &&& l == leaves_spec(n, k, m)
            &&& l.len() == ((n + k - 1) as nat) / k
            &&& forall|i: int| 0 <= i < l.len() - 1 ==> #[trigger] l[i] == ShapeTree::Leaf(k, m)
            &&& l.last() == ShapeTree::Leaf((n - k * (l.len() - 1)) as nat, m)
        }),
{
    lemma_leaves_layout(n, k, m);
    let l = leaves_spec(n, k, m);
    assert(((n + k - 1) as nat) / k >= 1) by (nonlinear_arith)
        requires
            n >= 1,
            k >= 1,
    ;
    assert forall|i: int| 0 <= i < l.len() implies (#[trigger] l[i]) is Leaf by {
        if i < l.len() - 1 {
            assert(l[i] == ShapeTree::Leaf(k, m));
        } else {
            assert(l[i] == l.last());
        }
    }
    lemma_leaf_seq_leaves(l);
    lemma_nest_leaves(l);
}

/// The leaves of the default shapes, left to right: groups of four blocks (of the
/// mode asked) for the block tree, pairs of ripple blocks for the digit tree, the
/// last one holding what is left.
pub proof fn lemma_default_shape_leaves(n: nat, ripple: bool)
    requires
        n >= 1,
    ensures
        leaves_of(default_shape_spec(n, ripple)) == leaves_spec(n, 4, if ripple { Mode::Ripple } else { Mode::Fold }),
        leaves_of(default_digit_shape_spec(n)) == leaves_spec(n, 2, Mode::Ripple),
{
    lemma_nested_leaves_layout(n, 4, if ripple { Mode::Ripple } else { Mode::Fold });
    lemma_nested_leaves_layout(n, 2, Mode::Ripple);
}

/// Block-tree shape of a size (table entry or default; used when [`digit_shape`] is `None`).
pub fn shape(bits: u16) -> (r: Spec)
    requires
        bits >= 2,
    ensures
        r@ == shape_spec(bits),
        block_shape_table(bits) is None ==> tree_blocks(r@) == bits / 2,
{
    let n = (bits / 2) as usize;
    match block_shape_text(bits) {
        Some(text) => match parse_text(text) {
            Some(r) => r,
            None => Spec::default_shape(n, false),
        },
        None => Spec::default_shape(n, false),
    }
}

/// Digit-tree shape of a size (table entry, or the default above 36 bits), or `None` for
/// the sizes where the block tree is faster.
pub fn digit_shape(bits: u16) -> (r: Option<Spec>)
    ensures
        match (r, digit_shape_spec(bits)) {
            (Some(x), Some(t)) => x@ == t,
            (None, None) => true,
            _ => false,
        },
        digit_shape_table(bits) is None && r is Some ==> tree_blocks(r->0@) == bits / 2,
{
    let n = (bits / 2) as usize;
    if bits == 4 || bits == 64 {
        return Some(default_digit_shape(n));
    }
    match digit_shape_text(bits) {
        Some(text) => match parse_text(text) {
            Some(r) => Some(r),
            None => Some(default_digit_shape(n)),
        },
        None => if bits > 36 {
            Some(default_digit_shape(n))
        } else {
            None
        },
    }
}


// ================================================================ lookup-table helpers

/// Negation on the complete 5-bit block value.
pub fn neg5(v: u16) -> (r: u16)
    requires
        v <= 32,
    ensures
        r == (32 - v) % 32,
{
    let d: u16 = 32 - v;
    assert(d & 31 == d % 32) by (bit_vector);
    d & 31
}

/// Table entry for raw index `i` of a function `f` of the true value `(i + K) mod 32`,
/// defined for true values below 16. Raw inputs with the padding bit set read the negated
/// entry, which is what the negacyclic evaluation expects.
pub fn shifted<const K: u16>(i: u16, f: impl Fn(u16) -> u16) -> (r: u16)
    requires
        i + K <= u16::MAX,
        forall|x: u16| x < 16 ==> call_requires(f, (x,)),
        forall|x: u16, y: u16| x < 16 && call_ensures(f, (x,), y) ==> y <= 32,
    ensures
        (i + K) % 32 < 16 ==> call_ensures(f, (((i + K) % 32) as u16,), r),
        (i + K) % 32 >= 16 ==> exists|y: u16|
            #[trigger] call_ensures(f, (((i + K) % 32 - 16) as u16,), y) && r == (32 - y) % 32,
        forall|g: spec_fn(u16) -> u16| #[trigger] tabulates(f, g) ==> r == shifted_value(i, K, g),
{
    let s: u16 = i + K;
    assert(s & 31 == s % 32) by (bit_vector);
    let t = s & 31;
    if t < 16 {
        f(t)
    } else {
        let y = f(t - 16);
        neg5(y)
    }
}

/// `f` computes `g` on the true values below 16.
pub open spec fn tabulates<F: Fn(u16) -> u16>(f: F, g: spec_fn(u16) -> u16) -> bool {
    forall|x: u16, y: u16| x < 16 && #[trigger] call_ensures(f, (x,), y) ==> y == g(x)
}

/// The entry that [`shifted`] gives at raw index `i`, for the function `g` of the
/// true value `(i + k) mod 32`.
pub open spec fn shifted_value(i: u16, k: u16, g: spec_fn(u16) -> u16) -> u16 {
    let t = ((i + k) % 32) as u16;
    if t < 16 {
        g(t)
    } else {
        ((32 - g((t - 16) as u16)) % 32) as u16
    }
}

proof fn lemma_low_bits(x: u16)
    ensures
        x & 3 == x % 4,
        x >> 2 == x / 4,
        x & 7 == x % 8,
        x >> 3 == x / 8,
        x & 31 == x % 32,
{
    assert(x & 3 == x % 4 && x >> 2 == x / 4 && x & 7 == x % 8 && x >> 3 == x / 8 && x & 31
        == x % 32) by (bit_vector);
}

proof fn lemma_one_shl(len: u16)
    requires
        len < 16,
    ensures
        (1u16 << len) as nat == vstd::arithmetic::power2::pow2(len as nat),
{
    vstd::bits::lemma_u16_pow2_no_overflow(len as nat);
    vstd::bits::lemma_u16_shl_is_mul(1, len);
}

/// State code of a raw block sum: 2 generate, 1 propagate, 0 none.
pub open spec fn block_state(x: u16) -> u16 {
    if x >= 4 {
        2
    } else if x == 3 {
        1
    } else {
        0
    }
}

/// State code of a weighted sum over `len` members: generate from `2^len` up,
/// propagate at `2^len - 1`.
pub open spec fn group_state(x: u16, len: u16) -> u16 {
    let p = vstd::arithmetic::power2::pow2(len as nat);
    if x >= p {
        2
    } else if x == p - 1 {
        1
    } else {
        0
    }
}

/// Block state of the raw sum at weight `W` (a complete block value).
pub fn lut_state<const W: u16>(x: u16) -> (r: u16)
    requires
        2 * W <= u16::MAX,
    ensures
        r == block_state(x) * W,
{
    let st: u16 = if x >= 4 {
        2
    } else if x == 3 {
        1
    } else {
        0
    };
    st * W
}

/// Generate bit of the raw sum (zero carry-in) at weight `W` (a complete block value).
pub fn lut_gen<const W: u16>(x: u16) -> (r: u16)
    ensures
        r == (if x >= 4 { W } else { 0 }),
{
    if x >= 4 {
        W
    } else {
        0
    }
}

/// Generate bit of the raw sum as a state {0, 2W} (a complete block value).
pub fn lut_gen_block<const W: u16>(x: u16) -> (r: u16)
    requires
        2 * W <= u16::MAX,
    ensures
        r == (if x >= 4 { 2 * W } else { 0 }),
{
    if x >= 4 {
        2 * W
    } else {
        0
    }
}

/// Message of the raw sum (a message value).
pub fn lut_msg(x: u16) -> (r: u16)
    ensures
        r == x % 4,
{
    proof {
        lemma_low_bits(x);
    }
    x & 3
}

/// Unit state {0, W, 2W} from a clean weighted sum over `LEN` members (a complete
/// block value, read negacyclically from the raw value `x` with offset `K`).
#[verifier::spinoff_prover]
pub fn lut_gstate<const W: u16, const LEN: u16, const K: u16>(x: u16) -> (r: u16)
    requires
        LEN <= 3,
        2 * W <= 32,
        x + K <= u16::MAX,
    ensures
        r == shifted_value(x, K, |y: u16| (group_state(y, LEN) * W) as u16),
{
    proof {
        lemma_one_shl(LEN);
    }
    let top: u16 = 1u16 << LEN;
    let f = |y: u16| -> (v: u16)
        requires
            2 * W <= 32,
        ensures
            v == (if y >= top { 2 * W } else if y == top - 1 { W as int } else { 0 }),
            v <= 32,
        {
            if y >= top {
                2 * W
            } else if y == top - 1 {
                W
            } else {
                0
            }
        };
    let r = shifted::<K>(x, f);
    proof {
        let g = |y: u16| (group_state(y, LEN) * W) as u16;
        assert forall|a: u16, b: u16| a < 16 && #[trigger] call_ensures(f, (a,), b) implies b == g(a) by {
            if a >= top {
                assert(group_state(a, LEN) == 2);
            } else if a == top - 1 {
                assert(group_state(a, LEN) == 1);
            } else {
                assert(group_state(a, LEN) == 0);
            }
        }
        assert(tabulates(f, g));
    }
    r
}

/// Unit state from a 5-bit weighted sum over four members: none reads `-W`,
/// propagate 0 and generate `W` (a complete block value).
pub fn lut_gstate5<const W: u16, const K: u16>(x: u16) -> (r: u16)
    requires
        W <= 32,
        x + K <= u16::MAX,
    ensures
        ({
            let t = (x + K) % 32;
            r == (if t == 15 || t == 31 {
                0
            } else if t < 16 {
                (32 - W) % 32
            } else {
                W as int
            })
        }),
{
    let s: u16 = x + K;
    proof {
        lemma_low_bits(s);
    }
    let t = s & 31;
    if t == 15 || t == 31 {
        0
    } else if t < 16 {
        neg5(W)
    } else {
        W
    }
}

/// Zero-carry-in unit state {0, 2W} from a clean sum with `LEN + 1` bits (a complete
/// block value, read negacyclically).
pub fn lut_gen_top<const LEN: u16, const W: u16, const K: u16>(x: u16) -> (r: u16)
    requires
        LEN < 16,
        2 * W <= 32,
        x + K <= u16::MAX,
    ensures
        r == shifted_value(
            x,
            K,
            |y: u16|
                if y >= vstd::arithmetic::power2::pow2(LEN as nat) {
                    (2 * W) as u16
                } else {
                    0u16
                },
        ),
{
    proof {
        lemma_one_shl(LEN);
    }
    let top: u16 = 1u16 << LEN;
    let f = |y: u16| -> (v: u16)
        requires
            2 * W <= 32,
        ensures
            v == (if y >= top { 2 * W } else { 0 }),
        {
            if y >= top {
                2 * W
            } else {
                0
            }
        };
    let r = shifted::<K>(x, f);
    proof {
        let g = |y: u16|
            if y >= vstd::arithmetic::power2::pow2(LEN as nat) {
                (2 * W) as u16
            } else {
                0u16
            };
        assert(tabulates(f, g));
    }
    r
}

/// Zero-carry-in unit state from a 5-bit sum: `-W` below 16, `W` above (a complete
/// block value).
pub fn lut_gen5<const W: u16, const K: u16>(x: u16) -> (r: u16)
    requires
        W <= 32,
        x + K <= u16::MAX,
    ensures
        r == (if (x + K) % 32 < 16 { (32 - W) % 32 } else { W as int }),
{
    let s: u16 = x + K;
    proof {
        lemma_low_bits(s);
    }
    let t = s & 31;
    if t < 16 {
        neg5(W)
    } else {
        W
    }
}

/// Clean carry: the top bit of a sum with `LEN + 1` bits (a complete block value, read
/// negacyclically).
pub fn lut_top<const LEN: u16, const K: u16>(x: u16) -> (r: u16)
    requires
        LEN < 16,
        x + K <= u16::MAX,
    ensures
        r == shifted_value(
            x,
            K,
            |y: u16| if y >= vstd::arithmetic::power2::pow2(LEN as nat) { 1u16 } else { 0u16 },
        ),
{
    proof {
        lemma_one_shl(LEN);
    }
    let top: u16 = 1u16 << LEN;
    let f = |y: u16| -> (v: u16)
        ensures
            v == (if y >= top { 1u16 } else { 0u16 }),
        {
            if y >= top {
                1
            } else {
                0
            }
        };
    let r = shifted::<K>(x, f);
    proof {
        let g = |y: u16| if y >= vstd::arithmetic::power2::pow2(LEN as nat) { 1u16 } else { 0u16 };
        assert(tabulates(f, g));
    }
    r
}

/// Carry at weight 4: the top bit of a clean sum with `LEN + 1` bits (a data value).
pub fn lut_top_x4<const LEN: u16>(x: u16) -> (r: u16)
    requires
        LEN < 16,
    ensures
        r == (if x >= vstd::arithmetic::power2::pow2(LEN as nat) { 4u16 } else { 0u16 }),
{
    proof {
        lemma_one_shl(LEN);
    }
    if x >= (1u16 << LEN) {
        4
    } else {
        0
    }
}

/// Carry of a 5-bit sum: `-1` without carry, `+1` with carry, that is twice the carry
/// minus an offset 1 (a complete block value).
pub fn lut_carry5<const K: u16>(x: u16) -> (r: u16)
    requires
        x + K <= u16::MAX,
    ensures
        r == (if (x + K) % 32 < 16 { 31u16 } else { 1u16 }),
{
    let s: u16 = x + K;
    proof {
        lemma_low_bits(s);
    }
    if s & 31 < 16 {
        31
    } else {
        1
    }
}

/// For `x = 8c + s` (raw sum `s`): `(s + c) mod 4` (a complete block value, read
/// negacyclically).
pub fn lut_add8<const K: u16>(x: u16) -> (r: u16)
    requires
        x + K <= u16::MAX,
    ensures
        r == shifted_value(x, K, |y: u16| ((y % 8 + y / 8) % 4) as u16),
{
    let f = |y: u16| -> (v: u16)
        ensures
            v == (y % 8 + y / 8) % 4,
        {
            proof {
                lemma_low_bits(y);
            }
            let z: u16 = (y & 7) + (y >> 3);
            proof {
                lemma_low_bits(z);
            }
            z & 3
        };
    let r = shifted::<K>(x, f);
    proof {
        let g = |y: u16| ((y % 8 + y / 8) % 4) as u16;
        assert(tabulates(f, g));
    }
    r
}

/// For `x = 4m + v` with carry `v >= 2`: `(m + carry) mod 4` (a message value).
pub fn lut_hi_plus_carry_lo(x: u16) -> (r: u16)
    ensures
        r == (x / 4 + (if x % 4 >= 2 { 1int } else { 0int })) % 4,
{
    proof {
        lemma_low_bits(x);
    }
    let c: u16 = if (x & 3) >= 2 { 1 } else { 0 };
    let s: u16 = (x >> 2) + c;
    proof {
        lemma_low_bits(s);
    }
    s & 3
}

/// For `x = 4v + m` with carry `v >= 2`: `(m + carry) mod 4` (a message value).
pub fn lut_lo_plus_carry_hi(x: u16) -> (r: u16)
    ensures
        r == (x % 4 + (if x / 4 >= 2 { 1int } else { 0int })) % 4,
{
    proof {
        lemma_low_bits(x);
    }
    let c: u16 = if (x >> 2) >= 2 { 1 } else { 0 };
    let s: u16 = (x & 3) + c;
    proof {
        lemma_low_bits(s);
    }
    s & 3
}

/// For `x = 4c + m`: `(m + c) mod 4` (a message value).
pub fn lut_lo_plus_hi(x: u16) -> (r: u16)
    ensures
        r == (x % 4 + x / 4) % 4,
{
    proof {
        lemma_low_bits(x);
    }
    let s: u16 = (x & 3) + (x >> 2);
    proof {
        lemma_low_bits(s);
    }
    s & 3
}

/// Weight of member `j` of a unit: zero-carry-in units use (g0: 1, 1, 2, 4), others
/// (1, 2, 4, 8).
pub fn weight(first: bool, j: usize) -> (w: u16)
    requires
        first ==> j <= 16,
        !first ==> j < 16,
    ensures
        w as nat == if first && j == 0 {
            1
        } else if first {
            vstd::arithmetic::power2::pow2((j - 1) as nat)
        } else {
            vstd::arithmetic::power2::pow2(j as nat)
        },
{
    if first {
        if j == 0 {
            1
        } else {
            let s = (j - 1) as u16;
            proof {
                vstd::arithmetic::power2::lemma_pow2_pos(s as nat);
                vstd::bits::lemma_u16_pow2_no_overflow(s as nat);
                vstd::bits::lemma_u16_shl_is_mul(1, s);
            }
            1u16 << s
        }
    } else {
        let s = j as u16;
        proof {
            vstd::bits::lemma_u16_pow2_no_overflow(s as nat);
            vstd::bits::lemma_u16_shl_is_mul(1, s);
        }
        1u16 << s
    }
}

/// Number of weighted members of a node (a zero-carry-in node has a 1-bit first member).
pub fn weighted_len(first: bool) -> (n: usize)
    ensures
        n == if first { 5usize } else { 4usize },
{
    if first {
        5
    } else {
        4
    }
}

} // verus!
