//! A simple infix calculation processor: splitting an infix expression into
//! "calculation units", telling what a unit is, the operators with their
//! precedence, and the processor that takes the units one by one and builds
//! the operand they come to. (What an operand comes to in floating-point
//! arithmetic is not part of this library.)

use vstd::prelude::*;

use crate::text::{chars_of, is_ws, is_whitespace, string_from_chars, trim, trim_bounds, is_f64_text, f64_text, push_char, push_str};

verus! {

broadcast use vstd::string::group_string_axioms;

/// A character that is a unit of its own: a bracket, `+`, `-`, `*`, `/`, `%` or `=`.
pub open spec fn is_symbol(c: char) -> bool {
    c == '(' || c == ')' || c == '+' || c == '-' || c == '*' || c == '/' || c == '%' || c == '='
}

fn symbol(c: char) -> (res: bool)
    ensures
        res == is_symbol(c),
{
    c == '(' || c == ')' || c == '+' || c == '-' || c == '*' || c == '/' || c == '%' || c == '='
}

/// The first index at or after `i` that is not whitespace (or the end).
pub open spec fn skip_ws(s: Seq<char>, i: int) -> int
    decreases s.len() - i,
{
    if i < 0 {
        0
    } else if i >= s.len() {
        s.len() as int
    } else if is_ws(s[i]) {
        skip_ws(s, i + 1)
    } else {
        i
    }
}

/// The first index at or after `i` that is whitespace or a symbol (or the end).
pub open spec fn token_end(s: Seq<char>, i: int) -> int
    decreases s.len() - i,
{
    if i < 0 {
        0
    } else if i >= s.len() {
        s.len() as int
    } else if is_ws(s[i]) || is_symbol(s[i]) {
        i
    } else {
        token_end(s, i + 1)
    }
}

/// Where the next unit from `i` on starts and ends: past whitespace, a symbol
/// alone, or a run of other characters; at the end, the empty range at the end.
pub open spec fn next_token(s: Seq<char>, i: int) -> (int, int) {
    let a = skip_ws(s, i);
    if a >= s.len() {
        (s.len() as int, s.len() as int)
    } else if is_symbol(s[a]) {
        (a, a + 1)
    } else {
        (a, token_end(s, a + 1))
    }
}

/// The units of `s` from `i` on, in order.
pub open spec fn tokens_from(s: Seq<char>, i: int) -> Seq<Seq<char>>
    decreases s.len() - i,
{
    if i < 0 || i >= s.len() {
        Seq::empty()
    } else {
        let (a, b) = next_token(s, i);
        if a >= b || b <= i || b > s.len() {
            Seq::empty()
        } else {
            seq![s.subrange(a, b)] + tokens_from(s, b)
        }
    }
}

proof fn lemma_skip_ws(s: Seq<char>, i: int)
    requires
        0 <= i <= s.len(),
    ensures
        i <= skip_ws(s, i) <= s.len(),
        skip_ws(s, i) < s.len() ==> !is_ws(s[skip_ws(s, i)]),
    decreases s.len() - i,
{
    if i < s.len() && is_ws(s[i]) {
        lemma_skip_ws(s, i + 1);
    }
}

proof fn lemma_token_end(s: Seq<char>, i: int)
    requires
        0 <= i <= s.len(),
    ensures
        i <= token_end(s, i) <= s.len(),
    decreases s.len() - i,
{
    if i < s.len() && !(is_ws(s[i]) || is_symbol(s[i])) {
        lemma_token_end(s, i + 1);
    }
}

/// Where the next unit from `idx` on starts and ends (see [`next_token`]);
/// `None` only past the end.
pub fn _to_next_unit_token(idx: usize, s: &Vec<char>) -> (res: Option<(usize, usize)>)
    ensures
        match res {
            Some((a, b)) => idx <= s@.len() && (a as int, b as int) == next_token(s@, idx as int),
            None => idx > s@.len(),
        },
{
    let n = s.len();
    if idx > n {
        return None;
    }
    proof {
        lemma_skip_ws(s@, idx as int);
    }
    let mut i = idx;
    while i < n && is_whitespace(s[i])
        invariant
            idx <= i <= n,
            n == s@.len(),
            skip_ws(s@, i as int) == skip_ws(s@, idx as int),
        decreases n - i,
    {
        i = i + 1;
    }
    if i >= n {
        return Some((n, n));
    }
    if symbol(s[i]) {
        return Some((i, i + 1));
    }
    proof {
        lemma_token_end(s@, i + 1);
    }
    let mut j = i + 1;
    while j < n && !is_whitespace(s[j]) && !symbol(s[j])
        invariant
            i < j <= n,
            n == s@.len(),
            token_end(s@, j as int) == token_end(s@, i + 1),
        decreases n - j,
    {
        j = j + 1;
    }
    Some((i, j))
}

proof fn lemma_next_token(s: Seq<char>, i: int)
    requires
        0 <= i < s.len(),
    ensures
        ({
            let (a, b) = next_token(s, i);
            &&& i <= a <= b <= s.len()
            &&& (a < b ==> i < b)
        }),
{
    lemma_skip_ws(s, i);
    let a = skip_ws(s, i);
    if a < s.len() && !is_symbol(s[a]) {
        lemma_token_end(s, a + 1);
    }
}

/// The characters of `s` from `i` on that are not whitespace, in order.
pub open spec fn non_ws_from(s: Seq<char>, i: int) -> Seq<char>
    decreases s.len() - i,
{
    if i < 0 || i >= s.len() {
        Seq::empty()
    } else if is_ws(s[i]) {
        non_ws_from(s, i + 1)
    } else {
        seq![s[i]] + non_ws_from(s, i + 1)
    }
}

proof fn lemma_skip_ws_drops_nothing(s: Seq<char>, i: int)
    requires
        0 <= i <= s.len(),
    ensures
        non_ws_from(s, i) == non_ws_from(s, skip_ws(s, i)),
    decreases s.len() - i,
{
    if i < s.len() && is_ws(s[i]) {
        lemma_skip_ws_drops_nothing(s, i + 1);
    }
}

proof fn lemma_token_end_no_ws(s: Seq<char>, i: int, k: int)
    requires
        0 <= i <= k < token_end(s, i),
    ensures
        !is_ws(s[k]),
    decreases s.len() - i,
{
    if k > i {
        lemma_token_end_no_ws(s, i + 1, k);
    }
}

proof fn lemma_run_without_ws(s: Seq<char>, a: int, j: int)
    requires
        0 <= a <= j <= s.len(),
        forall|k: int| a <= k < j ==> !is_ws(#[trigger] s[k]),
    ensures
        non_ws_from(s, a) == s.subrange(a, j) + non_ws_from(s, j),
    decreases j - a,
{
    if a < j {
        lemma_run_without_ws(s, a + 1, j);
        assert(s.subrange(a, j) =~= seq![s[a]] + s.subrange(a + 1, j));
        assert(seq![s[a]] + (s.subrange(a + 1, j) + non_ws_from(s, j)) =~= s.subrange(a, j) + non_ws_from(s, j));
    } else {
        assert(s.subrange(a, j) =~= Seq::<char>::empty());
        assert(s.subrange(a, j) + non_ws_from(s, j) =~= non_ws_from(s, j));
    }
}

proof fn lemma_tokens_rejoin_from(s: Seq<char>, i: int)
    requires
        0 <= i <= s.len(),
    ensures
        tokens_from(s, i).flatten() == non_ws_from(s, i),
    decreases s.len() - i,
{
    if i < s.len() {
        lemma_skip_ws(s, i);
        lemma_skip_ws_drops_nothing(s, i);
        lemma_next_token(s, i);
        let a = skip_ws(s, i);
        let (a2, b) = next_token(s, i);
        if a >= s.len() {
            assert(non_ws_from(s, a) =~= Seq::<char>::empty());
            assert(tokens_from(s, i) =~= Seq::<Seq<char>>::empty());
        } else {
            if is_symbol(s[a]) {
                assert(b == a + 1);
            } else {
                lemma_token_end(s, a + 1);
                assert forall|k: int| a + 1 <= k < b implies !is_ws(#[trigger] s[k]) by {
                    lemma_token_end_no_ws(s, a + 1, k);
                }
            }
            assert(forall|k: int| a <= k < b ==> !is_ws(#[trigger] s[k]));
            lemma_run_without_ws(s, a, b);
            lemma_tokens_rejoin_from(s, b);
            let ts = tokens_from(s, i);
            assert(ts == seq![s.subrange(a, b)] + tokens_from(s, b));
            assert(ts.first() == s.subrange(a, b));
            assert(ts.drop_first() =~= tokens_from(s, b));
        }
    }
}

/// Parsing an expression into units loses only whitespace: the units, put back
/// together in order, are the expression without its whitespace.
pub proof fn lemma_units_rejoin(s: Seq<char>)
    ensures
        tokens_from(s, 0).flatten() == non_ws_from(s, 0),
{
    lemma_tokens_rejoin_from(s, 0);
}

/// Splits an infix expression, given as characters, into its units.
pub fn _parse_units_from_chars(units: &Vec<char>) -> (res: Result<Vec<String>, String>)
    ensures
        res matches Ok(us) && us@.map_values(|u: String| u@) == tokens_from(units@, 0),
{
    let mut parsed: Vec<String> = Vec::new();
    let n = units.len();
    let mut idx: usize = 0;
    while idx < n
        invariant
            n == units@.len(),
            idx <= n + 1,
            parsed@.map_values(|u: String| u@) + tokens_from(units@, idx as int) == tokens_from(units@, 0),
        decreases n + 1 - idx,
    {
        proof {
            lemma_next_token(units@, idx as int);
        }
        let token = _to_next_unit_token(idx, units);
        match token {
            Some((a, b)) => {
                if a == b {
                    assert(tokens_from(units@, idx as int) =~= Seq::<Seq<char>>::empty());
                    assert(tokens_from(units@, idx + 1) =~= Seq::<Seq<char>>::empty());
                    idx = idx + 1;
                } else {
                    let mut cs: Vec<char> = Vec::new();
                    let mut k = a;
                    while k < b
                        invariant
                            a <= k <= b <= n,
                            n == units@.len(),
                            cs@ == units@.subrange(a as int, k as int),
                        decreases b - k,
                    {
                        cs.push(units[k]);
                        k = k + 1;
                        assert(cs@ =~= units@.subrange(a as int, k as int));
                    }
                    let unit = string_from_chars(cs.as_slice());
                    let ghost before = parsed@.map_values(|u: String| u@);
                    parsed.push(unit);
                    assert(parsed@.map_values(|u: String| u@) =~= before.push(units@.subrange(a as int, b as int)));
                    assert(tokens_from(units@, idx as int) == seq![units@.subrange(a as int, b as int)] + tokens_from(units@, b as int));
                    assert(before + tokens_from(units@, idx as int) =~= before.push(units@.subrange(a as int, b as int)) + tokens_from(units@, b as int));
                    idx = b;
                }
            },
            None => {
                return Err(String::from_str("failed to extract token"));
            },
        }
    }
    assert(tokens_from(units@, idx as int) =~= Seq::<Seq<char>>::empty());
    assert(parsed@.map_values(|u: String| u@) =~= parsed@.map_values(|u: String| u@) + tokens_from(units@, idx as int));
    Ok(parsed)
}

/// Splits an infix expression into its units (see [`_parse_units_from_chars`]).
pub fn _parse_units_from_str(units: &str) -> (res: Result<Vec<String>, String>)
    ensures
        res matches Ok(us) && us@.map_values(|u: String| u@) == tokens_from(units@, 0),
{
    let cs = chars_of(units);
    _parse_units_from_chars(&cs)
}

} // verus!

verus! {

/// The precedence class of an operator.
#[allow(non_camel_case_types)]
#[derive(Debug, Clone, Copy, PartialEq, Eq, Structural)]
pub enum OpPriority {
    /// addition and subtraction
    BINARY_AM,
    /// multiplication and division
    BINARY_MD,
    /// raising to a power
    BINARY_POW,
    /// the unary operators
    UNARY,
}

/// An operator of the calculation.
#[allow(non_camel_case_types)]
#[derive(Debug, Clone, Copy, PartialEq, Eq, Structural)]
pub enum Op {
    ADD,
    SUBTRACT,
    MULTIPLY,
    DIVIDE,
    NEGATE,
    SIN,
    COS,
    TAN,
    ASIN,
    ACOS,
    ATAN,
    LOG,
    LN,
    SQRT,
    SQUARE,
    INVERSE,
    EXP,
    MOD,
    ABS,
    PERCENT,
    /// ten raised to the operand
    POW10,
    /// the left operand raised to the right one
    POW,
}

/// The five binary operators; all the others are unary.
pub open spec fn op_is_binary(op: Op) -> bool {
    op == Op::ADD || op == Op::SUBTRACT || op == Op::MULTIPLY || op == Op::DIVIDE || op == Op::POW
}

pub open spec fn op_priority(op: Op) -> OpPriority {
    if op == Op::ADD || op == Op::SUBTRACT {
        OpPriority::BINARY_AM
    } else if op == Op::MULTIPLY || op == Op::DIVIDE {
        OpPriority::BINARY_MD
    } else if op == Op::POW {
        OpPriority::BINARY_POW
    } else {
        OpPriority::UNARY
    }
}

/// The order of a precedence class: a higher one binds tighter.
pub open spec fn priority_order(p: OpPriority) -> u8 {
    match p {
        OpPriority::BINARY_AM => 1,
        OpPriority::BINARY_MD => 2,
        OpPriority::BINARY_POW => 4,
        OpPriority::UNARY => 5,
    }
}

/// The name of an operator, as a unit of the calculation.
pub open spec fn op_name(op: Op) -> Seq<char> {
    match op {
        Op::ADD => seq!['+'],
        Op::SUBTRACT => seq!['-'],
        Op::MULTIPLY => seq!['*'],
        Op::DIVIDE => seq!['/'],
        Op::NEGATE => seq!['n', 'e', 'g'],
        Op::SIN => seq!['s', 'i', 'n'],
        Op::COS => seq!['c', 'o', 's'],
        Op::TAN => seq!['t', 'a', 'n'],
        Op::ASIN => seq!['a', 's', 'i', 'n'],
        Op::ACOS => seq!['a', 'c', 'o', 's'],
        Op::ATAN => seq!['a', 't', 'a', 'n'],
        Op::LOG => seq!['l', 'o', 'g'],
        Op::LN => seq!['l', 'n'],
        Op::SQRT => seq!['s', 'q', 'r', 't'],
        Op::SQUARE => seq!['s', 'q', 'u', 'a', 'r', 'e'],
        Op::INVERSE => seq!['i', 'n', 'v'],
        Op::EXP => seq!['e', 'x', 'p'],
        Op::MOD => seq!['m', 'o', 'd'],
        Op::ABS => seq!['a', 'b', 's'],
        Op::PERCENT => seq!['%'],
        Op::POW10 => seq!['p', 'o', 'w', '1', '0'],
        Op::POW => seq!['^'],
    }
}

impl Op {
    pub fn get_priority(&self) -> (res: OpPriority)
        ensures
            res == op_priority(*self),
    {
        match self {
            Op::ADD | Op::SUBTRACT => OpPriority::BINARY_AM,
            Op::MULTIPLY | Op::DIVIDE => OpPriority::BINARY_MD,
            Op::POW => OpPriority::BINARY_POW,
            _ => OpPriority::UNARY,
        }
    }

    /// The order of the operator's precedence class: a higher one binds tighter.
    pub fn get_order(&self) -> (res: u8)
        ensures
            res == priority_order(op_priority(*self)),
    {
        match self.get_priority() {
            OpPriority::BINARY_AM => 1,
            OpPriority::BINARY_MD => 2,
            OpPriority::BINARY_POW => 4,
            OpPriority::UNARY => 5,
        }
    }

    pub fn is_unary(&self) -> (res: bool)
        ensures
            res == !op_is_binary(*self),
    {
        !(*self == Op::ADD || *self == Op::SUBTRACT || *self == Op::MULTIPLY || *self == Op::DIVIDE || *self == Op::POW)
    }

    pub fn is_binary(&self) -> (res: bool)
        ensures
            res == op_is_binary(*self),
    {
        !self.is_unary()
    }

    /// The name of the operator, as a unit of the calculation.
    pub fn to_string(&self) -> (res: String)
        ensures
            res@ == op_name(*self),
    {
        let cs: Vec<char> = match self {
            Op::ADD => vec!['+'],
            Op::SUBTRACT => vec!['-'],
            Op::MULTIPLY => vec!['*'],
            Op::DIVIDE => vec!['/'],
            Op::NEGATE => vec!['n', 'e', 'g'],
            Op::SIN => vec!['s', 'i', 'n'],
            Op::COS => vec!['c', 'o', 's'],
            Op::TAN => vec!['t', 'a', 'n'],
            Op::ASIN => vec!['a', 's', 'i', 'n'],
            Op::ACOS => vec!['a', 'c', 'o', 's'],
            Op::ATAN => vec!['a', 't', 'a', 'n'],
            Op::LOG => vec!['l', 'o', 'g'],
            Op::LN => vec!['l', 'n'],
            Op::SQRT => vec!['s', 'q', 'r', 't'],
            Op::SQUARE => vec!['s', 'q', 'u', 'a', 'r', 'e'],
            Op::INVERSE => vec!['i', 'n', 'v'],
            Op::EXP => vec!['e', 'x', 'p'],
            Op::MOD => vec!['m', 'o', 'd'],
            Op::ABS => vec!['a', 'b', 's'],
            Op::PERCENT => vec!['%'],
            Op::POW10 => vec!['p', 'o', 'w', '1', '0'],
            Op::POW => vec!['^'],
        };
        let res = string_from_chars(cs.as_slice());
        assert(res@ =~= op_name(*self));
        res
    }
}

/// What a unit of the calculation is.
#[derive(Debug, Clone, Copy, PartialEq, Eq, Structural)]
pub enum UnitKind {
    OpenBracket,
    CloseBracket,
    Operator(Op),
    /// the constant π (`PI`)
    Pi,
    /// the constant e (`E`)
    E,
    /// `=`: evaluate
    Equals,
    /// a number that `f64::from_str` reads
    Number,
    /// not a unit
    Invalid,
}

/// The operator named by the text, if any.
pub open spec fn op_named(t: Seq<char>) -> Option<Op> {
    if t == op_name(Op::ADD) { Some(Op::ADD) }
    else if t == op_name(Op::SUBTRACT) { Some(Op::SUBTRACT) }
    else if t == op_name(Op::MULTIPLY) { Some(Op::MULTIPLY) }
    else if t == op_name(Op::DIVIDE) { Some(Op::DIVIDE) }
    else if t == op_name(Op::NEGATE) { Some(Op::NEGATE) }
    else if t == op_name(Op::SIN) { Some(Op::SIN) }
    else if t == op_name(Op::COS) { Some(Op::COS) }
    else if t == op_name(Op::TAN) { Some(Op::TAN) }
    else if t == op_name(Op::ASIN) { Some(Op::ASIN) }
    else if t == op_name(Op::ACOS) { Some(Op::ACOS) }
    else if t == op_name(Op::ATAN) { Some(Op::ATAN) }
    else if t == op_name(Op::LOG) { Some(Op::LOG) }
    else if t == op_name(Op::LN) { Some(Op::LN) }
    else if t == op_name(Op::SQRT) { Some(Op::SQRT) }
    else if t == op_name(Op::SQUARE) { Some(Op::SQUARE) }
    else if t == op_name(Op::INVERSE) { Some(Op::INVERSE) }
    else if t == op_name(Op::EXP) { Some(Op::EXP) }
    else if t == op_name(Op::MOD) { Some(Op::MOD) }
    else if t == op_name(Op::ABS) { Some(Op::ABS) }
    else if t == op_name(Op::PERCENT) { Some(Op::PERCENT) }
    else if t == op_name(Op::POW10) { Some(Op::POW10) }
    else if t == op_name(Op::POW) { Some(Op::POW) }
    else { None }
}

/// What a (trimmed) unit text is.
pub open spec fn unit_kind(t: Seq<char>) -> UnitKind {
    if t == seq!['='] {
        UnitKind::Equals
    } else if t == seq!['('] {
        UnitKind::OpenBracket
    } else if t == seq![')'] {
        UnitKind::CloseBracket
    } else if op_named(t) is Some {
        UnitKind::Operator(op_named(t)->Some_0)
    } else if t == seq!['P', 'I'] {
        UnitKind::Pi
    } else if t == seq!['E'] {
        UnitKind::E
    } else if is_f64_text(t) {
        UnitKind::Number
    } else {
        UnitKind::Invalid
    }
}

/// The operator named by the characters, if any.
fn op_of(t: &Vec<char>) -> (res: Option<Op>)
    ensures
        res == op_named(t@),
{
    let ops = [
        Op::ADD, Op::SUBTRACT, Op::MULTIPLY, Op::DIVIDE, Op::NEGATE, Op::SIN, Op::COS, Op::TAN,
        Op::ASIN, Op::ACOS, Op::ATAN, Op::LOG, Op::LN, Op::SQRT, Op::SQUARE, Op::INVERSE, Op::EXP,
        Op::MOD, Op::ABS, Op::PERCENT, Op::POW10, Op::POW,
    ];
    let mut i: usize = 0;
    while i < 22
        invariant
            i <= 22,
            ops@ == seq![
                Op::ADD, Op::SUBTRACT, Op::MULTIPLY, Op::DIVIDE, Op::NEGATE, Op::SIN, Op::COS, Op::TAN,
                Op::ASIN, Op::ACOS, Op::ATAN, Op::LOG, Op::LN, Op::SQRT, Op::SQUARE, Op::INVERSE, Op::EXP,
                Op::MOD, Op::ABS, Op::PERCENT, Op::POW10, Op::POW,
            ],
            forall|j: int| 0 <= j < i ==> t@ != op_name(#[trigger] ops@[j]),
        decreases 22 - i,
    {
        let op = ops[i];
        let name = op.to_string();
        if crate::text::same_text(name.as_str(), string_from_chars(t.as_slice()).as_str()) {
            return Some(op);
        }
        i = i + 1;
    }
    None
}

/// What a unit text is, once trimmed.
pub fn unit_kind_of(unit: &str) -> (res: UnitKind)
    ensures
        res == unit_kind(trim(unit@)),
{
    let cs = chars_of(unit);
    let (a, b) = trim_bounds(&cs);
    let mut t: Vec<char> = Vec::new();
    let mut k = a;
    while k < b
        invariant
            a <= k <= b <= cs@.len(),
            t@ == cs@.subrange(a as int, k as int),
        decreases b - k,
    {
        t.push(cs[k]);
        k = k + 1;
        assert(t@ =~= cs@.subrange(a as int, k as int));
    }
    if t.len() == 1 && t[0] == '=' {
        assert(t@ =~= seq!['=']);
        UnitKind::Equals
    } else if t.len() == 1 && t[0] == '(' {
        assert(t@ =~= seq!['(']);
        UnitKind::OpenBracket
    } else if t.len() == 1 && t[0] == ')' {
        assert(t@ =~= seq![')']);
        UnitKind::CloseBracket
    } else {
        match op_of(&t) {
            Some(op) => UnitKind::Operator(op),
            None => {
                if t.len() == 2 && t[0] == 'P' && t[1] == 'I' {
                    assert(t@ =~= seq!['P', 'I']);
                    UnitKind::Pi
                } else if t.len() == 1 && t[0] == 'E' {
                    assert(t@ =~= seq!['E']);
                    UnitKind::E
                } else if f64_text(&t) {
                    UnitKind::Number
                } else {
                    UnitKind::Invalid
                }
            },
        }
    }
}


} // verus!

verus! {

/// An operand of the calculation, as the processor builds it: a number pushed
/// (by its text), a constant, the zero that the processor puts in, or an
/// operator applied to operands. What an operand comes to in floating-point
/// arithmetic is worked out by whoever uses the processor.
#[derive(Debug)]
pub enum CalcTerm {
    /// a number, by its text (which `f64::from_str` reads)
    Number(String),
    /// the constant π
    Pi,
    /// the constant e
    E,
    /// zero
    Zero,
    /// a unary operator applied to an operand
    Unary(Op, Box<CalcTerm>),
    /// a binary operator applied to a left and a right operand
    Binary(Op, Box<CalcTerm>, Box<CalcTerm>),
}

/// An operand of the calculation, as plain values.
pub enum TermView {
    Number(Seq<char>),
    Pi,
    E,
    Zero,
    Unary(Op, Box<TermView>),
    Binary(Op, Box<TermView>, Box<TermView>),
}

pub open spec fn term_view(t: CalcTerm) -> TermView
    decreases t,
{
    match t {
        CalcTerm::Number(s) => TermView::Number(s@),
        CalcTerm::Pi => TermView::Pi,
        CalcTerm::E => TermView::E,
        CalcTerm::Zero => TermView::Zero,
        CalcTerm::Unary(op, a) => TermView::Unary(op, Box::new(term_view(*a))),
        CalcTerm::Binary(op, a, b) => TermView::Binary(op, Box::new(term_view(*a)), Box::new(term_view(*b))),
    }
}

impl View for CalcTerm {
    type V = TermView;

    open spec fn view(&self) -> TermView {
        term_view(*self)
    }
}

impl CalcTerm {
    /// A copy of the operand.
    pub fn duplicate(&self) -> (res: CalcTerm)
        ensures
            res@ == self@,
        decreases self,
    {
        match self {
            CalcTerm::Number(s) => CalcTerm::Number(s.clone()),
            CalcTerm::Pi => CalcTerm::Pi,
            CalcTerm::E => CalcTerm::E,
            CalcTerm::Zero => CalcTerm::Zero,
            CalcTerm::Unary(op, a) => CalcTerm::Unary(*op, Box::new((&**a).duplicate())),
            CalcTerm::Binary(op, a, b) => CalcTerm::Binary(*op, Box::new((&**a).duplicate()), Box::new((&**b).duplicate())),
        }
    }
}

} // verus!

verus! {

/// What the operator stack of the processor holds.
#[derive(Debug, Clone, Copy, PartialEq, Eq, Structural)]
pub enum StackUnit {
    OpenBracket,
    Operator(Op),
    /// a multiplication left out between two operands (`2(3)`), which binds
    /// tighter than `*` and `/`
    ImplicitMultiply,
}

/// The order of an implicit multiplication: above multiplication and division,
/// below raising to a power.
pub open spec fn implicit_order() -> u8 {
    3
}

/// What kind of unit was pushed last.
#[derive(Debug, Clone, Copy, PartialEq, Eq, Structural)]
pub enum LastUnit {
    OpenBracket,
    CloseBracket,
    Operand,
    Operator(Op),
}

/// A unit pushed to the processor, as plain values.
pub enum PushUnit {
    OpenBracket,
    CloseBracket,
    Operand(TermView),
    Operator(Op),
}

/// The state of a processor, as plain values: the operands scanned so far
/// (in postfix order, operators already applied), the stack of open brackets
/// and operators waiting for their right side, the kind of the last unit
/// pushed, and the result of the last evaluation.
pub struct CalcView {
    pub scanned: Seq<TermView>,
    pub stack: Seq<StackUnit>,
    pub last: Option<LastUnit>,
    pub result: TermView,
}

impl CalcView {
    pub open spec fn with_scanned(self, scanned: Seq<TermView>) -> CalcView {
        CalcView { scanned, stack: self.stack, last: self.last, result: self.result }
    }

    pub open spec fn with_stack(self, stack: Seq<StackUnit>) -> CalcView {
        CalcView { scanned: self.scanned, stack, last: self.last, result: self.result }
    }

    pub open spec fn with_last(self, last: Option<LastUnit>) -> CalcView {
        CalcView { scanned: self.scanned, stack: self.stack, last, result: self.result }
    }
}

/// The state of a new processor: nothing pushed, and a result of zero.
pub open spec fn calc_start() -> CalcView {
    CalcView { scanned: Seq::empty(), stack: Seq::empty(), last: None, result: TermView::Zero }
}

/// The precedence order of an operator: a higher one binds tighter.
pub open spec fn op_order(op: Op) -> u8 {
    priority_order(op_priority(op))
}

/// Applies an operator to the operands scanned last: a unary one to the last
/// operand (or, with none scanned, to the last result), a binary one to the
/// last two, or to the last result and the only operand; with no operand
/// scanned, a binary operator does nothing.
pub open spec fn apply_op(v: CalcView, op: Op) -> Option<CalcView> {
    let s = v.scanned;
    let n = s.len();
    if !op_is_binary(op) {
        if n == 0 {
            Some(v.with_scanned(seq![TermView::Unary(op, Box::new(v.result))]))
        } else {
            Some(v.with_scanned(s.drop_last().push(TermView::Unary(op, Box::new(s.last())))))
        }
    } else if n == 0 {
        Some(v)
    } else if n == 1 {
        Some(v.with_scanned(seq![TermView::Binary(op, Box::new(v.result), Box::new(s[0]))]))
    } else {
        Some(v.with_scanned(s.subrange(0, n - 2).push(TermView::Binary(op, Box::new(s[n - 2]), Box::new(s[n - 1])))))
    }
}

/// Pops the stack, applying each operator, until it is empty or, where
/// `until_open` holds, until an open bracket is popped.
pub open spec fn flush(v: CalcView, until_open: bool) -> Option<CalcView>
    decreases v.stack.len(),
{
    if v.stack.len() == 0 {
        Some(v)
    } else {
        let v1 = v.with_stack(v.stack.drop_last());
        match v.stack.last() {
            StackUnit::OpenBracket => if until_open {
                Some(v1)
            } else {
                flush(v1, until_open)
            },
            StackUnit::Operator(op) => match apply_op(v1, op) {
                Some(v2) => flush(v2, until_open),
                None => None,
            },
            StackUnit::ImplicitMultiply => match apply_op(v1, Op::MULTIPLY) {
                Some(v2) => flush(v2, until_open),
                None => None,
            },
        }
    }
}

/// Pops and applies the operators on top of the stack whose order is at least
/// `order`.
pub open spec fn reduce(v: CalcView, order: u8) -> Option<CalcView>
    decreases v.stack.len(),
{
    if v.stack.len() == 0 {
        Some(v)
    } else {
        match v.stack.last() {
            StackUnit::Operator(op) => if op_order(op) >= order {
                match apply_op(v.with_stack(v.stack.drop_last()), op) {
                    Some(v2) => reduce(v2, order),
                    None => None,
                }
            } else {
                Some(v)
            },
            StackUnit::ImplicitMultiply => if implicit_order() >= order {
                match apply_op(v.with_stack(v.stack.drop_last()), Op::MULTIPLY) {
                    Some(v2) => reduce(v2, order),
                    None => None,
                }
            } else {
                Some(v)
            },
            StackUnit::OpenBracket => Some(v),
        }
    }
}

/// Applying the operators on top of the stack always succeeds.
proof fn lemma_reduce_some(v: CalcView, order: u8)
    ensures
        reduce(v, order) is Some,
    decreases v.stack.len(),
{
    if v.stack.len() > 0 {
        match v.stack.last() {
            StackUnit::Operator(op) => if op_order(op) >= order {
                let v2 = apply_op(v.with_stack(v.stack.drop_last()), op)->Some_0;
                lemma_reduce_some(v2, order);
            },
            StackUnit::ImplicitMultiply => if implicit_order() >= order {
                let v2 = apply_op(v.with_stack(v.stack.drop_last()), Op::MULTIPLY)->Some_0;
                lemma_reduce_some(v2, order);
            },
            StackUnit::OpenBracket => {},
        }
    }
}

/// Puts an implicit multiplication on the stack, after applying those on top
/// that bind at least as tight.
pub open spec fn take_implicit(v: CalcView) -> Option<CalcView> {
    match reduce(v, implicit_order()) {
        Some(w) => Some(w.with_stack(w.stack.push(StackUnit::ImplicitMultiply))),
        None => None,
    }
}

/// Takes a unit in: an open bracket goes on the stack, a close bracket pops
/// the stack down to its open bracket, a unary operator is applied at once
/// (see [`apply_op`]), a binary operator first applies those on the stack that
/// bind at least as tight, and an operand is scanned.
pub open spec fn take_unit(v: CalcView, u: PushUnit) -> Option<CalcView> {
    match u {
        PushUnit::OpenBracket => Some(v.with_stack(v.stack.push(StackUnit::OpenBracket))),
        PushUnit::CloseBracket => flush(v, true),
        PushUnit::Operator(op) => if !op_is_binary(op) {
            apply_op(v, op)
        } else {
            match reduce(v, op_order(op)) {
                Some(w) => Some(w.with_stack(w.stack.push(StackUnit::Operator(op)))),
                None => None,
            }
        },
        PushUnit::Operand(t) => Some(v.with_scanned(v.scanned.push(t))),
    }
}

pub open spec fn last_of(u: PushUnit) -> LastUnit {
    match u {
        PushUnit::OpenBracket => LastUnit::OpenBracket,
        PushUnit::CloseBracket => LastUnit::CloseBracket,
        PushUnit::Operand(_) => LastUnit::Operand,
        PushUnit::Operator(op) => LastUnit::Operator(op),
    }
}

pub open spec fn then_take(v: Option<CalcView>, u: PushUnit) -> Option<CalcView> {
    match v {
        Some(w) => take_unit(w, u),
        None => None,
    }
}

/// The unit pushed last ends an operand: an operand, or a unary operator (which
/// is applied to the operand before it at once).
pub open spec fn ends_operand(last: Option<LastUnit>) -> bool {
    match last {
        Some(LastUnit::Operand) => true,
        Some(LastUnit::Operator(op)) => !op_is_binary(op),
        _ => false,
    }
}

/// Pushes a unit, after what its pairing with the unit pushed before asks
/// for: an implicit multiplication (see [`take_implicit`]) between an operand
/// (or a unary operator, applied at once, or a close bracket) and an open
/// bracket, and between a close bracket and an operand; an operand replaces an
/// operand (or the result of a unary operator) pushed just before; a `0` between an open bracket and a binary
/// operator or a close bracket; a binary operator replaces a binary operator
/// pushed just before.
pub open spec fn push_unit(v: CalcView, u: PushUnit) -> Option<CalcView> {
    let v0 = v.with_last(Some(last_of(u)));
    if (ends_operand(v.last) || v.last == Some(LastUnit::CloseBracket)) && u is OpenBracket
        || v.last == Some(LastUnit::CloseBracket) && u is Operand {
        then_take(take_implicit(v0), u)
    } else if ends_operand(v.last) && u is Operand {
        take_unit(v0.with_scanned(if v0.scanned.len() > 0 { v0.scanned.drop_last() } else { v0.scanned }), u)
    } else {
        match (v.last, u) {
            (Some(LastUnit::OpenBracket), PushUnit::Operator(op)) => if op_is_binary(op) {
                then_take(take_unit(v0, PushUnit::Operand(TermView::Zero)), u)
            } else {
                take_unit(v0, u)
            },
            (Some(LastUnit::OpenBracket), PushUnit::CloseBracket) =>
                then_take(take_unit(v0, PushUnit::Operand(TermView::Zero)), u),
            (Some(LastUnit::Operator(lop)), PushUnit::Operator(op)) => if op_is_binary(lop) && op_is_binary(op) {
                take_unit(v0.with_stack(if v0.stack.len() > 0 { v0.stack.drop_last() } else { v0.stack }), u)
            } else {
                take_unit(v0, u)
            },
            _ => take_unit(v0, u),
        }
    }
}

/// Evaluates what was pushed: the stack is popped and applied to the end, and
/// the single operand left becomes the result (none left keeps the result;
/// more than one left is `None`).
pub open spec fn eval_state(v: CalcView) -> Option<CalcView> {
    match flush(v.with_last(None), false) {
        Some(w) => if w.scanned.len() == 0 {
            Some(w)
        } else if w.scanned.len() == 1 {
            Some(CalcView { scanned: Seq::empty(), stack: w.stack, last: w.last, result: w.scanned[0] })
        } else {
            None
        },
        None => None,
    }
}

/// The error message for a text that is not a unit.
pub open spec fn invalid_unit_message(u: Seq<char>) -> Seq<char> {
    seq!['\''] + u + "' is not a valid unit"@
}

/// The unit that a (trimmed) text of a valid unit other than `=` stands for.
pub open spec fn unit_of_text(u: Seq<char>) -> PushUnit {
    match unit_kind(u) {
        UnitKind::OpenBracket => PushUnit::OpenBracket,
        UnitKind::CloseBracket => PushUnit::CloseBracket,
        UnitKind::Operator(op) => PushUnit::Operator(op),
        UnitKind::Pi => PushUnit::Operand(TermView::Pi),
        UnitKind::E => PushUnit::Operand(TermView::E),
        _ => PushUnit::Operand(TermView::Number(u)),
    }
}

/// What pushing a text does: the new state and, for a text that is not a
/// unit, the error message (the state is then unchanged); `None` where the
/// processor cannot go on (see [`eval_state`]).
pub open spec fn push_text(v: CalcView, t: Seq<char>) -> Option<(CalcView, Option<Seq<char>>)> {
    let u = trim(t);
    match unit_kind(u) {
        UnitKind::Equals => match eval_state(v) {
            Some(w) => Some((w, None)),
            None => None,
        },
        UnitKind::Invalid => Some((v, Some(invalid_unit_message(u)))),
        _ => match push_unit(v, unit_of_text(u)) {
            Some(w) => Some((w, None)),
            None => None,
        },
    }
}

/// Pushes the texts in order, stopping at the first that is not a unit.
pub open spec fn push_texts(v: CalcView, ts: Seq<Seq<char>>) -> Option<(CalcView, Option<Seq<char>>)>
    decreases ts.len(),
{
    if ts.len() == 0 {
        Some((v, None))
    } else {
        match push_text(v, ts[0]) {
            Some((w, None)) => push_texts(w, ts.drop_first()),
            other => other,
        }
    }
}

/// How many open brackets the stack holds.
pub open spec fn open_count(st: Seq<StackUnit>) -> nat
    decreases st.len(),
{
    if st.len() == 0 {
        0
    } else {
        open_count(st.drop_last()) + if st.last() == StackUnit::OpenBracket { 1nat } else { 0nat }
    }
}

} // verus!

verus! {

/// A unit pushed to the processor.
enum Unit {
    OpenBracket,
    CloseBracket,
    Operand(CalcTerm),
    Operator(Op),
}

impl Unit {
    spec fn view(&self) -> PushUnit {
        match self {
            Unit::OpenBracket => PushUnit::OpenBracket,
            Unit::CloseBracket => PushUnit::CloseBracket,
            Unit::Operand(t) => PushUnit::Operand(t@),
            Unit::Operator(op) => PushUnit::Operator(*op),
        }
    }
}

/// A simple infix calculation processor that takes a stream of "calculation
/// units" (numbers, constants, brackets, operators and `=`) and builds the
/// operand that they come to, with the usual precedence of the operators.
#[derive(Debug)]
pub struct DumbCalcProcessor {
    scanned: Vec<CalcTerm>,
    stack: Vec<StackUnit>,
    last_pushed: Option<LastUnit>,
    result: CalcTerm,
}

pub open spec fn terms_view(ts: Seq<CalcTerm>) -> Seq<TermView> {
    ts.map_values(|t: CalcTerm| t@)
}

impl View for DumbCalcProcessor {
    type V = CalcView;

    closed spec fn view(&self) -> CalcView {
        CalcView {
            scanned: terms_view(self.scanned@),
            stack: self.stack@,
            last: self.last_pushed,
            result: self.result@,
        }
    }
}

impl DumbCalcProcessor {
    /// Applies an operator to the operands scanned last (see [`apply_op`]);
    /// where it cannot, nothing changes and the answer is `false`.
    fn apply_checked(&mut self, op: Op) -> (ok: bool)
        ensures
            ok == apply_op(old(self)@, op) is Some,
            ok ==> final(self)@ == apply_op(old(self)@, op)->Some_0,
            !ok ==> final(self)@ == old(self)@,
    {
        let ghost s0 = old(self)@.scanned;
        if op.is_unary() {
            match self.scanned.pop() {
                None => {
                    self.scanned.push(CalcTerm::Unary(op, Box::new(self.result.duplicate())));
                    assert(terms_view(self.scanned@) =~= seq![TermView::Unary(op, Box::new(old(self)@.result))]);
                    true
                },
                Some(t) => {
                    self.scanned.push(CalcTerm::Unary(op, Box::new(t)));
                    assert(terms_view(self.scanned@) =~= s0.drop_last().push(TermView::Unary(op, Box::new(s0.last()))));
                    true
                },
            }
        } else {
            match self.scanned.pop() {
                None => true,
                Some(right) => {
                    let n1 = self.scanned.len();
                    let left = match self.scanned.pop() {
                        Some(l) => l,
                        None => self.result.duplicate(),
                    };
                    self.scanned.push(CalcTerm::Binary(op, Box::new(left), Box::new(right)));
                    if n1 == 0 {
                        assert(terms_view(self.scanned@) =~= seq![TermView::Binary(op, Box::new(old(self)@.result), Box::new(s0[0]))]);
                    } else {
                        let ghost n = s0.len();
                        assert(terms_view(self.scanned@) =~= s0.subrange(0, n - 2).push(TermView::Binary(op, Box::new(s0[n - 2]), Box::new(s0[n - 1]))));
                    }
                    true
                },
            }
        }
    }

    /// Pops the stack, applying each operator (see [`flush`]); `false` where
    /// an operator cannot be applied.
    fn flush_checked(&mut self, until_open: bool) -> (ok: bool)
        ensures
            ok == flush(old(self)@, until_open) is Some,
            ok ==> final(self)@ == flush(old(self)@, until_open)->Some_0,
    {
        loop
            invariant
                flush(self@, until_open) == flush(old(self)@, until_open),
            decreases self.stack@.len(),
        {
            let ghost v = self@;
            match self.stack.pop() {
                None => {
                    return true;
                },
                Some(StackUnit::OpenBracket) => {
                    assert(self@ == v.with_stack(v.stack.drop_last()));
                    if until_open {
                        return true;
                    }
                },
                Some(StackUnit::Operator(op)) => {
                    assert(self@ == v.with_stack(v.stack.drop_last()));
                    if !self.apply_checked(op) {
                        return false;
                    }
                },
                Some(StackUnit::ImplicitMultiply) => {
                    assert(self@ == v.with_stack(v.stack.drop_last()));
                    if !self.apply_checked(Op::MULTIPLY) {
                        return false;
                    }
                },
            }
        }
    }

    /// Pops and applies the operators on top of the stack whose order is at
    /// least `order` (see [`reduce`]); `false` where one cannot be applied.
    fn reduce_checked(&mut self, order: u8) -> (ok: bool)
        ensures
            ok == reduce(old(self)@, order) is Some,
            ok ==> final(self)@ == reduce(old(self)@, order)->Some_0,
    {
        loop
            invariant
                reduce(self@, order) == reduce(old(self)@, order),
            decreases self.stack@.len(),
        {
            let n = self.stack.len();
            if n == 0 {
                return true;
            }
            let top = self.stack[n - 1];
            match top {
                StackUnit::Operator(op) => {
                    if op.get_order() >= order {
                        let ghost v = self@;
                        self.stack.pop();
                        assert(self@ == v.with_stack(v.stack.drop_last()));
                        if !self.apply_checked(op) {
                            return false;
                        }
                    } else {
                        return true;
                    }
                },
                StackUnit::ImplicitMultiply => {
                    if 3 >= order {
                        let ghost v = self@;
                        self.stack.pop();
                        assert(self@ == v.with_stack(v.stack.drop_last()));
                        if !self.apply_checked(Op::MULTIPLY) {
                            return false;
                        }
                    } else {
                        return true;
                    }
                },
                StackUnit::OpenBracket => {
                    return true;
                },
            }
        }
    }

    /// Puts an implicit multiplication on the stack (see [`take_implicit`]).
    fn take_implicit_checked(&mut self) -> (ok: bool)
        ensures
            ok == take_implicit(old(self)@) is Some,
            ok ==> final(self)@ == take_implicit(old(self)@)->Some_0,
    {
        if !self.reduce_checked(3) {
            return false;
        }
        self.stack.push(StackUnit::ImplicitMultiply);
        true
    }

    /// Takes a unit in (see [`take_unit`]).
    fn take_checked(&mut self, u: Unit) -> (ok: bool)
        ensures
            ok == take_unit(old(self)@, u.view()) is Some,
            ok ==> final(self)@ == take_unit(old(self)@, u.view())->Some_0,
    {
        match u {
            Unit::OpenBracket => {
                self.stack.push(StackUnit::OpenBracket);
                true
            },
            Unit::CloseBracket => self.flush_checked(true),
            Unit::Operator(op) => {
                if op.is_unary() {
                    return self.apply_checked(op);
                }
                if !self.reduce_checked(op.get_order()) {
                    return false;
                }
                self.stack.push(StackUnit::Operator(op));
                true
            },
            Unit::Operand(t) => {
                let ghost s0 = self@.scanned;
                let ghost tv = t@;
                self.scanned.push(t);
                assert(terms_view(self.scanned@) =~= s0.push(tv));
                true
            },
        }
    }

    /// Pushes an operand given as a term (see [`push_unit`]).
    pub(crate) fn push_operand(&mut self, t: CalcTerm) -> (ok: bool)
        ensures
            ok,
            final(self)@ == push_unit(old(self)@, PushUnit::Operand(t@))->Some_0,
            push_unit(old(self)@, PushUnit::Operand(t@)) is Some,
    {
        proof {
            lemma_reduce_some(self@.with_last(Some(LastUnit::Operand)), implicit_order());
        }
        self.push_unit_checked(Unit::Operand(t))
    }

    /// Pushes a unit (see [`push_unit`]).
    fn push_unit_checked(&mut self, u: Unit) -> (ok: bool)
        ensures
            ok == push_unit(old(self)@, u.view()) is Some,
            ok ==> final(self)@ == push_unit(old(self)@, u.view())->Some_0,
    {
        let ghost uv = u.view();
        let last = self.last_pushed;
        let lu = match &u {
            Unit::OpenBracket => LastUnit::OpenBracket,
            Unit::CloseBracket => LastUnit::CloseBracket,
            Unit::Operand(_) => LastUnit::Operand,
            Unit::Operator(op) => LastUnit::Operator(*op),
        };
        self.last_pushed = Some(lu);
        let ghost v0 = self@;
        assert(v0 == old(self)@.with_last(Some(last_of(uv))));
        let ends = match last {
            Some(LastUnit::Operand) => true,
            Some(LastUnit::Operator(lop)) => !lop.is_binary(),
            _ => false,
        };
        assert(ends == ends_operand(old(self)@.last));
        let after_close = match last {
            Some(LastUnit::CloseBracket) => true,
            _ => false,
        };
        let implicit = match u {
            Unit::OpenBracket => ends || after_close,
            Unit::Operand(_) => after_close,
            _ => false,
        };
        if implicit {
            if !self.take_implicit_checked() {
                return false;
            }
            return self.take_checked(u);
        }
        if ends {
            match u {
                Unit::OpenBracket => {
                    if !self.take_checked(Unit::Operator(Op::MULTIPLY)) {
                        return false;
                    }
                    return self.take_checked(u);
                },
                Unit::Operand(t) => {
                    self.scanned.pop();
                    assert(self@ == v0.with_scanned(if v0.scanned.len() > 0 { v0.scanned.drop_last() } else { v0.scanned })) by {
                        assert(terms_view(self.scanned@) =~= if v0.scanned.len() > 0 { v0.scanned.drop_last() } else { v0.scanned });
                    }
                    return self.take_checked(Unit::Operand(t));
                },
                _ => {},
            }
        }
        match last {
            Some(LastUnit::OpenBracket) => {
                match u {
                    Unit::Operator(op) => {
                        if op.is_binary() {
                            if !self.take_checked(Unit::Operand(CalcTerm::Zero)) {
                                return false;
                            }
                        }
                        self.take_checked(u)
                    },
                    Unit::CloseBracket => {
                        if !self.take_checked(Unit::Operand(CalcTerm::Zero)) {
                            return false;
                        }
                        self.take_checked(u)
                    },
                    _ => self.take_checked(u),
                }
            },
            Some(LastUnit::Operator(lop)) => {
                match u {
                    Unit::Operator(op) => {
                        if lop.is_binary() && op.is_binary() {
                            self.stack.pop();
                            assert(self@ == v0.with_stack(if v0.stack.len() > 0 { v0.stack.drop_last() } else { v0.stack })) by {
                                assert(self.stack@ =~= if v0.stack.len() > 0 { v0.stack.drop_last() } else { v0.stack });
                            }
                        }
                        self.take_checked(u)
                    },
                    _ => self.take_checked(u),
                }
            },
            _ => self.take_checked(u),
        }
    }

    /// Evaluates what was pushed (see [`eval_state`]).
    fn eval_checked(&mut self) -> (ok: bool)
        ensures
            ok == eval_state(old(self)@) is Some,
            ok ==> final(self)@ == eval_state(old(self)@)->Some_0,
    {
        self.last_pushed = None;
        assert(self@ == old(self)@.with_last(None));
        if !self.flush_checked(false) {
            return false;
        }
        let n = self.scanned.len();
        if n == 0 {
            true
        } else if n == 1 {
            let ghost w = self@;
            match self.scanned.pop() {
                Some(t) => {
                    self.result = t;
                    assert(terms_view(self.scanned@) =~= Seq::<TermView>::empty());
                    assert(self@ == CalcView { scanned: Seq::empty(), stack: w.stack, last: w.last, result: w.scanned[0] });
                },
                None => {},
            }
            true
        } else {
            false
        }
    }

    /// Pushes a text (see [`push_text`]): `None` where the processor cannot go
    /// on, else whether the text was a unit.
    pub(crate) fn push_text_checked(&mut self, unit: &str) -> (res: Option<Result<(), String>>)
        ensures
            res is None <==> push_text(old(self)@, unit@) is None,
            res matches Some(r) ==> push_text(old(self)@, unit@) == Some((final(self)@, match r {
                Ok(_) => None::<Seq<char>>,
                Err(e) => Some(e@),
            })),
    {
        let kind = unit_kind_of(unit);
        let u = trimmed(unit);
        let ghost t = trim(unit@);
        let pushed = match kind {
            UnitKind::Equals => {
                if self.eval_checked() {
                    return Some(Ok(()));
                } else {
                    return None;
                }
            },
            UnitKind::Invalid => {
                let mut m = String::new();
                push_char(&mut m, '\'');
                push_str(&mut m, u.as_str());
                push_str(&mut m, "' is not a valid unit");
                assert(m@ =~= invalid_unit_message(t));
                return Some(Err(m));
            },
            UnitKind::OpenBracket => Unit::OpenBracket,
            UnitKind::CloseBracket => Unit::CloseBracket,
            UnitKind::Operator(op) => Unit::Operator(op),
            UnitKind::Pi => Unit::Operand(CalcTerm::Pi),
            UnitKind::E => Unit::Operand(CalcTerm::E),
            UnitKind::Number => Unit::Operand(CalcTerm::Number(u)),
        };
        assert(pushed.view() == unit_of_text(t));
        if self.push_unit_checked(pushed) {
            Some(Ok(()))
        } else {
            None
        }
    }
}

/// A saved state of a [`DumbCalcProcessor`], to go back to.
#[derive(Debug)]
pub struct CalcProcessorBackup {
    calc: DumbCalcProcessor,
}

impl View for CalcProcessorBackup {
    type V = CalcView;

    closed spec fn view(&self) -> CalcView {
        self.calc@
    }
}

impl DumbCalcProcessor {
    /// A new processor: nothing pushed, and a result of zero.
    pub fn new() -> (res: DumbCalcProcessor)
        ensures
            res@ == calc_start(),
    {
        let res = DumbCalcProcessor { scanned: Vec::new(), stack: Vec::new(), last_pushed: None, result: CalcTerm::Zero };
        assert(terms_view(res.scanned@) =~= Seq::<TermView>::empty());
        res
    }

    /// A copy of the processor.
    pub(crate) fn duplicate(&self) -> (res: DumbCalcProcessor)
        ensures
            res@ == self@,
    {
        let mut scanned: Vec<CalcTerm> = Vec::new();
        let mut i: usize = 0;
        while i < self.scanned.len()
            invariant
                i <= self.scanned@.len(),
                terms_view(scanned@) == terms_view(self.scanned@).subrange(0, i as int),
            decreases self.scanned@.len() - i,
        {
            let ghost before = scanned@;
            scanned.push(self.scanned[i].duplicate());
            assert(terms_view(scanned@) =~= terms_view(before).push(self.scanned@[i as int]@));
            assert(terms_view(scanned@) =~= terms_view(self.scanned@).subrange(0, i + 1));
            i = i + 1;
        }
        let mut stack: Vec<StackUnit> = Vec::new();
        let mut j: usize = 0;
        while j < self.stack.len()
            invariant
                j <= self.stack@.len(),
                stack@ == self.stack@.subrange(0, j as int),
            decreases self.stack@.len() - j,
        {
            stack.push(self.stack[j]);
            j = j + 1;
            assert(stack@ =~= self.stack@.subrange(0, j as int));
        }
        assert(terms_view(scanned@) =~= terms_view(self.scanned@));
        assert(stack@ =~= self.stack@);
        DumbCalcProcessor { scanned, stack, last_pushed: self.last_pushed, result: self.result.duplicate() }
    }

    /// Pushes a "calculation unit" (leading and trailing whitespace aside):
    /// a bracket `(` or `)`; a number that `f64::from_str` reads, such as `2.3`
    /// or `-4`; a binary operator `+`, `-`, `*` or `/` (with the usual
    /// precedence); a unary operator, written after its operand (`neg`, `sin`,
    /// `cos`, `tan`, `asin`, `acos`, `atan`, `log`, `ln`, `sqrt`, `square`,
    /// `inv`, `exp`, `mod`, `abs`, `%`, all of the highest precedence); a
    /// constant `PI` or `E`; or `=`, which evaluates what was pushed (see
    /// [`push_text`]). Any other text is an error, and changes nothing.
    ///
    /// A unary operator applies at once to the operand scanned last (or, with
    /// none, to the last result), so the intermediate result shows it.
    ///
    /// The unit must be one that the processor can take (evaluation must
    /// leave at most one operand); [`DumbCalcProcessor::can_push`] tells.
    pub fn push(&mut self, unit: &str) -> (res: Result<(), String>)
        requires
            push_text(old(self)@, unit@) is Some,
        ensures
            push_text(old(self)@, unit@) == Some((final(self)@, match res {
                Ok(_) => None::<Seq<char>>,
                Err(e) => Some(e@),
            })),
    {
        match self.push_text_checked(unit) {
            Some(r) => r,
            None => Ok(()),
        }
    }

    /// Whether the processor can take the unit (see [`DumbCalcProcessor::push`]).
    pub fn can_push(&self, unit: &str) -> (res: bool)
        ensures
            res == push_text(self@, unit@) is Some,
    {
        let mut c = self.duplicate();
        c.push_text_checked(unit).is_some()
    }

    /// Pushes the units of a text in order, such as a complete infix
    /// expression (see [`tokens_from`]), stopping at the first that is not a
    /// unit.
    fn push_units_checked(&mut self, units: &str) -> (res: Option<Result<(), String>>)
        ensures
            res is None <==> push_texts(old(self)@, tokens_from(units@, 0)) is None,
            res matches Some(r) ==> push_texts(old(self)@, tokens_from(units@, 0)) == Some((final(self)@, match r {
                Ok(_) => None::<Seq<char>>,
                Err(e) => Some(e@),
            })),
    {
        let parsed = _parse_units_from_str(units);
        let us = match parsed {
            Ok(us) => us,
            Err(e) => {
                return None;
            },
        };
        let ghost ts = tokens_from(units@, 0);
        assert(ts.subrange(0, ts.len() as int) =~= ts);
        let mut i: usize = 0;
        while i < us.len()
            invariant
                i <= us@.len(),
                ts == tokens_from(units@, 0),
                us@.map_values(|u: String| u@) == ts,
                push_texts(self@, ts.subrange(i as int, ts.len() as int)) == push_texts(old(self)@, ts),
            decreases us@.len() - i,
        {
            let ghost v = self@;
            let ghost rest = ts.subrange(i as int, ts.len() as int);
            assert(ts.len() == us@.len());
            assert(rest[0] == us@[i as int]@);
            assert(rest.drop_first() =~= ts.subrange(i + 1, ts.len() as int));
            assert(push_texts(v, rest) == match push_text(v, rest[0]) {
                Some((w, None)) => push_texts(w, rest.drop_first()),
                other => other,
            });
            match self.push_text_checked(us[i].as_str()) {
                None => {
                    return None;
                },
                Some(Err(e)) => {
                    return Some(Err(e));
                },
                Some(Ok(())) => {},
            }
            i = i + 1;
        }
        assert(ts.subrange(i as int, ts.len() as int) =~= Seq::<Seq<char>>::empty());
        Some(Ok(()))
    }

    /// Parses a text, such as a complete infix expression, into units and
    /// pushes them in order with [`DumbCalcProcessor::push`], stopping at the
    /// first that is not a unit (see [`push_texts`]); a unary operator is not
    /// told apart from a number by the parsing, so it needs whitespace around.
    ///
    /// The units must be ones that the processor can take;
    /// [`DumbCalcProcessor::can_parse_and_push`] tells.
    pub fn parse_and_push(&mut self, units: &str) -> (res: Result<(), String>)
        requires
            push_texts(old(self)@, tokens_from(units@, 0)) is Some,
        ensures
            push_texts(old(self)@, tokens_from(units@, 0)) == Some((final(self)@, match res {
                Ok(_) => None::<Seq<char>>,
                Err(e) => Some(e@),
            })),
    {
        match self.push_units_checked(units) {
            Some(r) => r,
            None => Ok(()),
        }
    }

    /// Whether the processor can take the units of the text (see
    /// [`DumbCalcProcessor::parse_and_push`]).
    pub fn can_parse_and_push(&self, units: &str) -> (res: bool)
        ensures
            res == push_texts(self@, tokens_from(units@, 0)) is Some,
    {
        let mut c = self.duplicate();
        c.push_units_checked(units).is_some()
    }

    /// Evaluates what was pushed (see [`eval_state`]): the operand that it
    /// comes to becomes the result, which a following binary operator with no
    /// left operand takes as its left one.
    pub fn eval(&mut self)
        requires
            eval_state(old(self)@) is Some,
        ensures
            final(self)@ == eval_state(old(self)@)->Some_0,
    {
        self.eval_checked();
    }

    /// The result of the last evaluation.
    pub fn get_result_term(&self) -> (res: &CalcTerm)
        ensures
            res@ == self@.result,
    {
        &self.result
    }

    /// The operand scanned last, if any: the intermediate result.
    pub fn get_intermediate_term(&self) -> (res: Option<&CalcTerm>)
        ensures
            match res {
                Some(t) => self@.scanned.len() > 0 && t@ == self@.scanned.last(),
                None => self@.scanned.len() == 0,
            },
    {
        let n = self.scanned.len();
        if n == 0 {
            None
        } else {
            assert(self.scanned@[n - 1]@ == self@.scanned.last());
            Some(&self.scanned[n - 1])
        }
    }

    /// Resets for new input: nothing scanned or waiting, and a result of zero.
    pub fn reset(&mut self)
        ensures
            final(self)@ == (CalcView { scanned: Seq::empty(), stack: Seq::empty(), last: old(self)@.last, result: TermView::Zero }),
    {
        self.scanned = Vec::new();
        self.stack = Vec::new();
        self.result = CalcTerm::Zero;
        assert(terms_view(self.scanned@) =~= Seq::<TermView>::empty());
    }

    /// Saves the state, to go back to it with [`DumbCalcProcessor::restore`].
    pub fn backup(&self) -> (res: CalcProcessorBackup)
        ensures
            res@ == self@,
    {
        CalcProcessorBackup { calc: self.duplicate() }
    }

    /// Goes back to a saved state.
    pub fn restore(&mut self, backup: CalcProcessorBackup)
        ensures
            final(self)@ == backup@,
    {
        *self = backup.calc;
    }

    /// The name of the last unit pushed, if it is an operator.
    pub fn get_last_operator(&self) -> (res: Option<String>)
        ensures
            match self@.last {
                Some(LastUnit::Operator(op)) => res matches Some(s) && s@ == op_name(op),
                _ => res is None,
            },
    {
        match self.last_pushed {
            Some(LastUnit::Operator(op)) => Some(op.to_string()),
            _ => None,
        }
    }

    /// How many brackets are open (the count as a `u16`).
    pub fn count_opened_brackets(&self) -> (res: u16)
        ensures
            res == open_count(self@.stack) as u16,
    {
        let mut count: usize = 0;
        let mut i: usize = 0;
        while i < self.stack.len()
            invariant
                i <= self.stack@.len(),
                count == open_count(self.stack@.subrange(0, i as int)),
                count <= i,
            decreases self.stack@.len() - i,
        {
            assert(self.stack@.subrange(0, i + 1).drop_last() =~= self.stack@.subrange(0, i as int));
            if self.stack[i] == StackUnit::OpenBracket {
                count = count + 1;
            }
            i = i + 1;
        }
        assert(self.stack@.subrange(0, i as int) =~= self.stack@);
        #[verifier::truncate]
        (count as u16)
    }

    /// Whether the text names a unary operator.
    pub fn is_unary_operator(unit: &str) -> (res: bool)
        ensures
            res == (op_named(unit@) matches Some(op) && !op_is_binary(op)),
    {
        let cs = chars_of(unit);
        match op_of(&cs) {
            Some(op) => op.is_unary(),
            None => false,
        }
    }
}

/// The text without its leading and trailing whitespace.
fn trimmed(unit: &str) -> (res: String)
    ensures
        res@ == trim(unit@),
{
    let cs = chars_of(unit);
    let (a, b) = trim_bounds(&cs);
    let mut t: Vec<char> = Vec::new();
    let mut k = a;
    while k < b
        invariant
            a <= k <= b <= cs@.len(),
            t@ == cs@.subrange(a as int, k as int),
        decreases b - k,
    {
        t.push(cs[k]);
        k = k + 1;
        assert(t@ =~= cs@.subrange(a as int, k as int));
    }
    string_from_chars(t.as_slice())
}

} // verus!

verus! {

/// Pushes the units in order (see [`push_unit`]).
pub open spec fn push_units(v: CalcView, us: Seq<PushUnit>) -> Option<CalcView>
    decreases us.len(),
{
    if us.len() == 0 {
        Some(v)
    } else {
        match push_unit(v, us[0]) {
            Some(w) => push_units(w, us.drop_first()),
            None => None,
        }
    }
}

/// A state with nothing pushed since the last evaluation, whose result is `r`.
pub open spec fn settled(r: TermView) -> CalcView {
    CalcView { scanned: Seq::empty(), stack: Seq::empty(), last: None, result: r }
}

/// The result that evaluating the units, pushed to a settled state, comes to.
pub open spec fn result_of_units(r: TermView, us: Seq<PushUnit>) -> Option<TermView> {
    match push_units(settled(r), us) {
        Some(w) => match eval_state(w) {
            Some(e) => Some(e.result),
            None => None,
        },
        None => None,
    }
}

/// Binary operators bind by their precedence, and those of the same
/// precedence from left to right: `a o1 b o2 c` is `a o1 (b o2 c)` where `o2`
/// binds tighter, and `(a o1 b) o2 c` otherwise.
pub proof fn lemma_binary_precedence(r: TermView, a: TermView, o1: Op, b: TermView, o2: Op, c: TermView)
    requires
        op_is_binary(o1),
        op_is_binary(o2),
    ensures
        result_of_units(r, seq![PushUnit::Operand(a), PushUnit::Operator(o1), PushUnit::Operand(b), PushUnit::Operator(o2), PushUnit::Operand(c)])
            == Some(if op_order(o2) > op_order(o1) {
                TermView::Binary(o1, Box::new(a), Box::new(TermView::Binary(o2, Box::new(b), Box::new(c))))
            } else {
                TermView::Binary(o2, Box::new(TermView::Binary(o1, Box::new(a), Box::new(b))), Box::new(c))
            }),
{
    reveal_with_fuel(push_units, 6);
    reveal_with_fuel(flush, 3);
    reveal_with_fuel(reduce, 2);
}

/// A unary operator applies to the operand just before it, ahead of any
/// binary operator: `a o b u` is `a o (u b)`.
pub proof fn lemma_unary_binds_tightest(r: TermView, a: TermView, o: Op, b: TermView, u: Op)
    requires
        op_is_binary(o),
        !op_is_binary(u),
    ensures
        result_of_units(r, seq![PushUnit::Operand(a), PushUnit::Operator(o), PushUnit::Operand(b), PushUnit::Operator(u)])
            == Some(TermView::Binary(o, Box::new(a), Box::new(TermView::Unary(u, Box::new(b))))),
{
    reveal_with_fuel(push_units, 5);
    reveal_with_fuel(flush, 3);
    reveal_with_fuel(reduce, 2);
}

/// Brackets group: `(a o1 b) o2 c` is `(a o1 b) o2 c` and `a o2 (b o1 c)`
/// is `a o2 (b o1 c)`, whatever the precedence of the operators.
#[verifier::spinoff_prover]
#[verifier::rlimit(40)]
pub proof fn lemma_brackets_group(r: TermView, a: TermView, o1: Op, b: TermView, o2: Op, c: TermView)
    requires
        op_is_binary(o1),
        op_is_binary(o2),
    ensures
        result_of_units(r, seq![PushUnit::OpenBracket, PushUnit::Operand(a), PushUnit::Operator(o1), PushUnit::Operand(b),
            PushUnit::CloseBracket, PushUnit::Operator(o2), PushUnit::Operand(c)])
            == Some(TermView::Binary(o2, Box::new(TermView::Binary(o1, Box::new(a), Box::new(b))), Box::new(c))),
        result_of_units(r, seq![PushUnit::Operand(a), PushUnit::Operator(o2), PushUnit::OpenBracket, PushUnit::Operand(b),
            PushUnit::Operator(o1), PushUnit::Operand(c), PushUnit::CloseBracket])
            == Some(TermView::Binary(o2, Box::new(a), Box::new(TermView::Binary(o1, Box::new(b), Box::new(c))))),
{
    reveal_with_fuel(push_units, 8);
    reveal_with_fuel(flush, 4);
    reveal_with_fuel(reduce, 3);
}

/// The result of the last evaluation is the left operand of a binary
/// operator pushed first: `o b` after a result `r` is `r o b`.
pub proof fn lemma_result_carries_on(r: TermView, o: Op, b: TermView)
    requires
        op_is_binary(o),
    ensures
        result_of_units(r, seq![PushUnit::Operator(o), PushUnit::Operand(b)])
            == Some(TermView::Binary(o, Box::new(r), Box::new(b))),
{
    reveal_with_fuel(push_units, 3);
    reveal_with_fuel(flush, 2);
}

/// An operand right after an operand replaces it, and a binary operator right
/// after a binary operator replaces it: `a b` is `b`, and `a o1 o2 b` is
/// `a o2 b`.
pub proof fn lemma_last_one_counts(r: TermView, a: TermView, o1: Op, o2: Op, b: TermView)
    requires
        op_is_binary(o1),
        op_is_binary(o2),
    ensures
        result_of_units(r, seq![PushUnit::Operand(a), PushUnit::Operand(b)]) == Some(b),
        result_of_units(r, seq![PushUnit::Operand(a), PushUnit::Operator(o1), PushUnit::Operator(o2), PushUnit::Operand(b)])
            == result_of_units(r, seq![PushUnit::Operand(a), PushUnit::Operator(o2), PushUnit::Operand(b)]),
{
    reveal_with_fuel(push_units, 5);
    reveal_with_fuel(flush, 2);
    reveal_with_fuel(reduce, 2);
}

/// A multiplication left out binds tighter than `*` and `/`: `a / b (c)` is
/// `a / (b * c)`, `(a) b` is `a * b`, and `(a)(b)` is `a * b`.
#[verifier::spinoff_prover]
#[verifier::rlimit(40)]
pub proof fn lemma_implicit_binds_tighter(r: TermView, a: TermView, b: TermView, c: TermView)
    ensures
        result_of_units(r, seq![PushUnit::Operand(a), PushUnit::Operator(Op::DIVIDE), PushUnit::Operand(b),
            PushUnit::OpenBracket, PushUnit::Operand(c), PushUnit::CloseBracket])
            == Some(TermView::Binary(Op::DIVIDE, Box::new(a), Box::new(TermView::Binary(Op::MULTIPLY, Box::new(b), Box::new(c))))),
        result_of_units(r, seq![PushUnit::OpenBracket, PushUnit::Operand(a), PushUnit::CloseBracket, PushUnit::Operand(b)])
            == Some(TermView::Binary(Op::MULTIPLY, Box::new(a), Box::new(b))),
        result_of_units(r, seq![PushUnit::OpenBracket, PushUnit::Operand(a), PushUnit::CloseBracket,
            PushUnit::OpenBracket, PushUnit::Operand(b), PushUnit::CloseBracket])
            == Some(TermView::Binary(Op::MULTIPLY, Box::new(a), Box::new(b))),
{
    reveal_with_fuel(push_units, 7);
    reveal_with_fuel(flush, 4);
    reveal_with_fuel(reduce, 3);
}

/// An operand right before an open bracket multiplies it: `a (b)` is `a * b`;
/// an empty pair of brackets is zero: `a + ()` is `a + 0`.
pub proof fn lemma_implicit_operands(r: TermView, a: TermView, b: TermView)
    ensures
        result_of_units(r, seq![PushUnit::Operand(a), PushUnit::OpenBracket, PushUnit::Operand(b), PushUnit::CloseBracket])
            == Some(TermView::Binary(Op::MULTIPLY, Box::new(a), Box::new(b))),
        result_of_units(r, seq![PushUnit::Operand(a), PushUnit::Operator(Op::ADD), PushUnit::OpenBracket, PushUnit::CloseBracket])
            == Some(TermView::Binary(Op::ADD, Box::new(a), Box::new(TermView::Zero))),
{
    reveal_with_fuel(push_units, 5);
    reveal_with_fuel(flush, 3);
    reveal_with_fuel(reduce, 2);
}

} // verus!
