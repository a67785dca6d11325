//! A calculator that takes key presses like a real one: how digit and `.`
//! keys build the number being entered, how the other keys reach the
//! calculation, undo and the history of keys written as an expression, and how
//! a display text is fitted to a width. (The arithmetic, on floating-point
//! numbers, and the writing of a value for the display, are not part of this
//! library.)

use vstd::prelude::*;

use crate::calc::{op_named, op_is_binary, DumbCalcProcessor, CalcProcessorBackup, CalcView, TermView, LastUnit, push_text, calc_start, open_count, op_name, CalcTerm, Op, PushUnit, push_unit};
use crate::shared::DumbError;
use crate::text::{is_f64_text, f64_text,
    chars_of, string_from_chars, push_str, push_char, to_decimal, decimal, all_digits, digits_value,
    is_digit, repeat_char, repeat_string,
};

verus! {

broadcast use vstd::string::group_string_axioms;

/// The number being entered.
#[derive(Debug, Clone)]
pub enum EnteringMode {
    /// no number is being entered
    Not,
    /// the number entered does not fit
    Error,
    /// the digits before any `.`
    Integer(u32),
    /// the digits before and after the `.`
    Decimal(u32, String),
}

/// The number being entered, as plain values.
pub enum EnteringState {
    Not,
    Error,
    Integer(nat),
    Decimal(nat, Seq<char>),
}

impl EnteringMode {
    pub open spec fn view(&self) -> EnteringState {
        match self {
            EnteringMode::Not => EnteringState::Not,
            EnteringMode::Error => EnteringState::Error,
            EnteringMode::Integer(i) => EnteringState::Integer(*i as nat),
            EnteringMode::Decimal(i, d) => EnteringState::Decimal(*i as nat, d@),
        }
    }
}

/// A key that the calculator takes as a digit: text that sorts between `"0"`
/// and `"9"` (so a text that starts with a digit below 9, or `"9"`).
pub open spec fn is_digit_key(k: Seq<char>) -> bool {
    k.len() > 0 && (('0' <= k[0] && k[0] < '9') || k == seq!['9'])
}

/// A digit key must read as a `u32`.
pub open spec fn digit_key_ok(k: Seq<char>) -> bool {
    is_digit_key(k) ==> all_digits(k) && digits_value(k) <= u32::MAX
}

/// The number text of what was entered, as it is pushed to the calculation.
pub open spec fn entered_number(e: EnteringState) -> Option<Seq<char>> {
    match e {
        EnteringState::Integer(i) => Some(decimal(i)),
        EnteringState::Decimal(i, d) => Some(decimal(i) + seq!['.'] + if d.len() == 0 { seq!['0'] } else { d }),
        _ => None,
    }
}

/// What a key does to the number being entered: the new state, and for a key
/// other than a digit or `.`, the number entered so far, to be pushed to the
/// calculation before the key.
pub open spec fn enter_key(e: EnteringState, k: Seq<char>) -> (EnteringState, Option<Seq<char>>) {
    if k == seq!['.'] {
        (match e {
            EnteringState::Not => EnteringState::Decimal(0, Seq::empty()),
            EnteringState::Integer(i) => EnteringState::Decimal(i, Seq::empty()),
            _ => e,
        }, None)
    } else if is_digit_key(k) {
        let digit = digits_value(k) as nat;
        (match e {
            EnteringState::Not => EnteringState::Integer(digit),
            EnteringState::Integer(i) => if i * 10 + digit <= u32::MAX {
                EnteringState::Integer(i * 10 + digit)
            } else {
                EnteringState::Error
            },
            EnteringState::Decimal(i, d) => EnteringState::Decimal(i, d + decimal(digit)),
            EnteringState::Error => EnteringState::Error,
        }, None)
    } else {
        (match e {
            EnteringState::Error => EnteringState::Error,
            _ => EnteringState::Not,
        }, entered_number(e))
    }
}

proof fn lemma_digits_prefix(s: Seq<char>, k: int)
    requires
        0 <= k <= s.len(),
        all_digits(s),
    ensures
        all_digits(s.subrange(0, k)),
        0 <= digits_value(s.subrange(0, k)) <= digits_value(s),
    decreases s.len() - k,
{
    if k < s.len() {
        lemma_digits_prefix(s, k + 1);
        assert(s.subrange(0, k + 1).drop_last() =~= s.subrange(0, k));
        assert(is_digit(s[k]));
    } else {
        assert(s.subrange(0, k) =~= s);
        lemma_digits_nonneg(s);
    }
}

proof fn lemma_digits_nonneg(s: Seq<char>)
    requires
        all_digits(s),
    ensures
        digits_value(s) >= 0,
    decreases s.len(),
{
    if s.len() > 0 {
        assert(all_digits(s.drop_last()));
        lemma_digits_nonneg(s.drop_last());
    }
}

/// The value of a digit key.
fn digit_key_value(k: &Vec<char>) -> (res: u32)
    requires
        all_digits(k@),
        digits_value(k@) <= u32::MAX,
    ensures
        res == digits_value(k@),
{
    let mut v: u32 = 0;
    let mut i: usize = 0;
    while i < k.len()
        invariant
            i <= k@.len(),
            all_digits(k@),
            digits_value(k@) <= u32::MAX,
            v == digits_value(k@.subrange(0, i as int)),
        decreases k@.len() - i,
    {
        proof {
            lemma_digits_prefix(k@, i + 1);
            assert(k@.subrange(0, i + 1).drop_last() =~= k@.subrange(0, i as int));
        }
        let d = (k[i] as u32) - ('0' as u32);
        v = v * 10 + d;
        i = i + 1;
    }
    assert(k@.subrange(0, i as int) =~= k@);
    v
}

/// The number text of what was entered.
fn entered_number_text(e: &EnteringMode) -> (res: Option<String>)
    ensures
        match res {
            Some(s) => entered_number(e@) == Some(s@),
            None => entered_number(e@) is None,
        },
{
    match e {
        EnteringMode::Integer(i) => Some(to_decimal(*i as u128)),
        EnteringMode::Decimal(i, d) => {
            let mut s = to_decimal(*i as u128);
            push_char(&mut s, '.');
            if d.unicode_len() == 0 {
                push_char(&mut s, '0');
            } else {
                push_str(&mut s, d.as_str());
            }
            Some(s)
        },
        _ => None,
    }
}

impl EnteringMode {
    /// What a key does to the number being entered (see [`enter_key`]): the new
    /// state, and the number text to push to the calculation before the key.
    pub fn enter(&self, key: &str) -> (res: (EnteringMode, Option<String>))
        requires
            digit_key_ok(key@),
        ensures
            res.0@ == enter_key(self@, key@).0,
            match res.1 {
                Some(s) => enter_key(self@, key@).1 == Some(s@),
                None => enter_key(self@, key@).1 is None,
            },
    {
        let k = chars_of(key);
        if k.len() == 1 && k[0] == '.' {
            assert(key@ =~= seq!['.']);
            let e = match self {
                EnteringMode::Not => EnteringMode::Decimal(0, String::new()),
                EnteringMode::Integer(i) => EnteringMode::Decimal(*i, String::new()),
                EnteringMode::Decimal(i, d) => EnteringMode::Decimal(*i, d.clone()),
                EnteringMode::Error => EnteringMode::Error,
            };
            return (e, None);
        }
        assert(key@ != seq!['.']) by {
            if key@ == seq!['.'] {
                assert(k@.len() == 1 && k@[0] == '.');
            }
        }
        let digit_key = k.len() > 0 && (('0' <= k[0] && k[0] < '9') || (k.len() == 1 && k[0] == '9'));
        assert(digit_key == is_digit_key(key@)) by {
            if k@.len() == 1 && k@[0] == '9' {
                assert(key@ =~= seq!['9']);
            }
        }
        if digit_key {
            let digit = digit_key_value(&k);
            let e = match self {
                EnteringMode::Not => EnteringMode::Integer(digit),
                EnteringMode::Integer(i) => {
                    if (*i as u64) * 10 + (digit as u64) <= u32::MAX as u64 {
                        EnteringMode::Integer(*i * 10 + digit)
                    } else {
                        EnteringMode::Error
                    }
                },
                EnteringMode::Decimal(i, d) => {
                    let mut nd = d.clone();
                    push_str(&mut nd, to_decimal(digit as u128).as_str());
                    EnteringMode::Decimal(*i, nd)
                },
                EnteringMode::Error => EnteringMode::Error,
            };
            (e, None)
        } else {
            let num = entered_number_text(self);
            let e = match self {
                EnteringMode::Error => EnteringMode::Error,
                _ => EnteringMode::Not,
            };
            (e, num)
        }
    }
}

} // verus!

verus! {

/// The error text that fits a display of width `w`.
pub open spec fn error_text(w: nat) -> Seq<char> {
    if w < 3 {
        repeat_char(' ', (w - 1) as nat) + seq!['E']
    } else if w < 5 {
        repeat_char(' ', (w - 3) as nat) + seq!['E', 'r', 'r']
    } else {
        repeat_char(' ', (w - 5) as nat) + seq!['E', 'r', 'r', 'o', 'r']
    }
}

/// A display text fitted to width `w`: `Error` as wide as it fits, a text that
/// fits pushed to the right, and one that does not fit shown as `~`s.
pub open spec fn fit_display_text(d: Seq<char>, w: nat) -> Seq<char> {
    let r = if d == seq!['E', 'r', 'r', 'o', 'r'] { error_text(w) } else { d };
    if r.len() <= w {
        repeat_char(' ', (w - r.len()) as nat) + r
    } else {
        repeat_char('~', w)
    }
}

/// Fits a display text to a width (the width must not be 0).
pub fn fit_display(display: &str, result_width: usize) -> (res: String)
    requires
        result_width > 0,
    ensures
        res@ == fit_display_text(display@, result_width as nat),
{
    let cs = chars_of(display);
    let is_error = cs.len() == 5 && cs[0] == 'E' && cs[1] == 'r' && cs[2] == 'r' && cs[3] == 'o' && cs[4] == 'r';
    assert(is_error == (display@ == seq!['E', 'r', 'r', 'o', 'r'])) by {
        if cs@.len() == 5 && cs@[0] == 'E' && cs@[1] == 'r' && cs@[2] == 'r' && cs@[3] == 'o' && cs@[4] == 'r' {
            assert(cs@ =~= seq!['E', 'r', 'r', 'o', 'r']);
        }
    }
    let r: String = if is_error {
        let w = result_width;
        if w < 3 {
            let mut s = repeat_string(' ', w - 1);
            push_char(&mut s, 'E');
            s
        } else if w < 5 {
            let mut s = repeat_string(' ', w - 3);
            push_char(&mut s, 'E');
            push_char(&mut s, 'r');
            push_char(&mut s, 'r');
            s
        } else {
            let mut s = repeat_string(' ', w - 5);
            push_char(&mut s, 'E');
            push_char(&mut s, 'r');
            push_char(&mut s, 'r');
            push_char(&mut s, 'o');
            push_char(&mut s, 'r');
            s
        }
    } else {
        string_from_chars(cs.as_slice())
    };
    assert(r@ =~= if is_error { error_text(result_width as nat) } else { display@ });
    let n = chars_of(r.as_str()).len();
    if n <= result_width {
        let mut s = repeat_string(' ', result_width - n);
        push_str(&mut s, r.as_str());
        s
    } else {
        repeat_string('~', result_width)
    }
}

} // verus!

verus! {

/// Where a part of the history expression starts.
#[derive(Debug, Clone, Copy, PartialEq, Eq, Structural)]
pub enum HistMarker {
    /// a number (or other unit) starts here
    NumberStart(usize),
    /// an open bracket is here
    OpenBracket(usize),
    /// everything so far is a finished calculation
    Finalized,
}

/// When a unary operator brackets what it applies to.
pub enum UnaryBracket {
    No,
    IfNeeded,
    IfNeededNotNum,
}

/// The state of writing the history as an expression.
pub struct HistState {
    pub hist: Seq<char>,
    pub markers: Seq<HistMarker>,
    pub prev_c: Option<char>,
    pub pop_marker: bool,
}

pub open spec fn hist_start() -> HistState {
    HistState { hist: Seq::empty(), markers: Seq::empty(), prev_c: None, pop_marker: false }
}

/// The last marker as where the operand starts and whether it may need
/// brackets.
pub open spec fn marker_start(ms: Seq<HistMarker>) -> Option<(nat, bool)> {
    if ms.len() == 0 {
        None
    } else {
        match ms.last() {
            HistMarker::NumberStart(s) => Some((s as nat, true)),
            HistMarker::OpenBracket(s) => Some((s as nat, false)),
            HistMarker::Finalized => Some((0, true)),
        }
    }
}

pub open spec fn pop_if(ms: Seq<HistMarker>, b: bool) -> Seq<HistMarker> {
    if b && ms.len() > 0 { ms.drop_last() } else { ms }
}

/// How a unary operator is written around its operand: before, after, and when
/// the operand gets brackets.
pub open spec fn unary_parts(h: Seq<char>, inside: Seq<char>, better: bool) -> (Seq<char>, Seq<char>, UnaryBracket) {
    if better && h == seq!['n', 'e', 'g'] {
        (seq!['-'], Seq::empty(), UnaryBracket::IfNeededNotNum)
    } else if better && h == seq!['%'] {
        if !is_f64_text(inside) {
            (Seq::empty(), seq!['/', '1', '0', '0'], UnaryBracket::IfNeeded)
        } else {
            (Seq::empty(), seq!['%'], UnaryBracket::No)
        }
    } else if better && h == seq!['s', 'q', 'u', 'a', 'r', 'e'] {
        (Seq::empty(), seq!['²'], UnaryBracket::IfNeededNotNum)
    } else if better && h == seq!['i', 'n', 'v'] {
        (seq!['1', '/'], Seq::empty(), UnaryBracket::IfNeededNotNum)
    } else if better && h == seq!['s', 'q', 'r', 't'] {
        (seq!['√'], Seq::empty(), UnaryBracket::IfNeededNotNum)
    } else if better && h == seq!['a', 'b', 's'] {
        (seq!['|'], seq!['|'], UnaryBracket::No)
    } else if better && h == seq!['p', 'o', 'w', '1', '0'] {
        (seq!['1', '0', '^'], Seq::empty(), UnaryBracket::No)
    } else if better && h == seq!['a', 's', 'i', 'n'] {
        (seq!['s', 'i', 'n', '⁻', '¹'], Seq::empty(), UnaryBracket::IfNeeded)
    } else if better && h == seq!['a', 'c', 'o', 's'] {
        (seq!['c', 'o', 's', '⁻', '¹'], Seq::empty(), UnaryBracket::IfNeeded)
    } else if better && h == seq!['a', 't', 'a', 'n'] {
        (seq!['t', 'a', 'n', '⁻', '¹'], Seq::empty(), UnaryBracket::IfNeeded)
    } else {
        (h, Seq::empty(), UnaryBracket::IfNeeded)
    }
}

/// Whether the operand gets brackets.
pub open spec fn use_bracket(ub: UnaryBracket, bracket: bool, inside: Seq<char>) -> bool {
    match ub {
        UnaryBracket::No => false,
        UnaryBracket::IfNeeded => bracket,
        UnaryBracket::IfNeededNotNum => bracket && inside != seq!['π'] && inside != seq!['e'] && !is_f64_text(inside),
    }
}

pub open spec fn bracketed(inside: Seq<char>, b: bool) -> Seq<char> {
    if b { seq!['('] + inside + seq![')'] } else { inside }
}

/// A unit as written with the better symbols, or as it is.
pub open spec fn shown_unit(h: Seq<char>, better: bool) -> Seq<char> {
    if !better {
        h
    } else if h == seq!['-'] {
        seq!['−']
    } else if h == seq!['*'] {
        seq!['×']
    } else if h == seq!['/'] {
        seq!['÷']
    } else if h == seq!['P', 'I'] {
        seq!['π']
    } else if h == seq!['E'] {
        seq!['e']
    } else {
        h
    }
}

/// The markers after a `)`: those above the last open bracket are dropped.
pub open spec fn close_markers(ms: Seq<HistMarker>) -> Seq<HistMarker>
    decreases ms.len(),
{
    if ms.len() == 0 {
        ms
    } else if ms.last() is OpenBracket {
        ms
    } else {
        close_markers(ms.drop_last())
    }
}

/// The history after a unary operator key.
pub open spec fn unary_hist(hist: Seq<char>, ms: Seq<HistMarker>, h: Seq<char>, better: bool) -> Seq<char> {
    if h == seq!['%'] && !better {
        hist.push('%')
    } else {
        match marker_start(ms) {
            Some((start, bracket)) => {
                let prefix = hist.subrange(0, start as int);
                let inside = hist.subrange(start as int, hist.len() as int);
                let (h1, h2, ub) = unary_parts(h, inside, better);
                prefix + h1 + bracketed(inside, use_bracket(ub, bracket, inside)) + h2
            },
            None => hist + seq!['_'] + h + seq!['_'],
        }
    }
}

/// The state after another key of the history.
pub open spec fn hist_step(st: HistState, h: Seq<char>, better: bool) -> HistState {
    if h == seq!['='] {
        HistState { hist: seq!['{'] + st.hist + seq!['}'], markers: seq![HistMarker::Finalized], prev_c: None, pop_marker: false }
    } else if op_named(h) matches Some(op) && !op_is_binary(op) {
        HistState {
            hist: unary_hist(st.hist, st.markers, h, better),
            markers: pop_if(st.markers, st.pop_marker),
            prev_c: None,
            pop_marker: false,
        }
    } else {
        let ms = pop_if(st.markers, st.pop_marker);
        let u = shown_unit(h, better);
        let n = st.hist.len();
        if u == seq!['('] {
            HistState { hist: st.hist + u, markers: ms.push(HistMarker::OpenBracket(n as usize)), prev_c: None, pop_marker: false }
        } else if u == seq![')'] {
            HistState { hist: st.hist + u, markers: close_markers(ms), prev_c: None, pop_marker: true }
        } else if u.len() > 0 {
            let c = u[0];
            let pc = if c == '.' || ('0' <= c && c <= '9') { Some(c) } else { None };
            let ms2 = if st.prev_c is None {
                (if ms.len() > 0 && ms.last() is NumberStart { ms.drop_last() } else { ms }).push(HistMarker::NumberStart(n as usize))
            } else {
                ms
            };
            HistState { hist: st.hist + u, markers: ms2, prev_c: pc, pop_marker: false }
        } else {
            HistState { hist: st.hist, markers: ms, prev_c: None, pop_marker: false }
        }
    }
}

/// The state after the keys of the history.
pub open spec fn hist_run(hs: Seq<Seq<char>>, better: bool) -> HistState
    decreases hs.len(),
{
    if hs.len() == 0 {
        hist_start()
    } else {
        hist_step(hist_run(hs.drop_last(), better), hs.last(), better)
    }
}

/// The history of keys written as an expression.
pub open spec fn history_text(hs: Seq<Seq<char>>, better: bool) -> Seq<char> {
    hist_run(hs, better).hist
}

} // verus!

verus! {

/// Whether the characters are those given.
fn is_chars(h: &Vec<char>, w: &Vec<char>) -> (res: bool)
    ensures
        res == (h@ == w@),
{
    if h.len() != w.len() {
        return false;
    }
    let mut i: usize = 0;
    while i < h.len()
        invariant
            i <= h@.len(),
            h@.len() == w@.len(),
            forall|j: int| 0 <= j < i ==> h@[j] == w@[j],
        decreases h@.len() - i,
    {
        if h[i] != w[i] {
            return false;
        }
        i = i + 1;
    }
    assert(h@ =~= w@);
    true
}

/// The characters from `a` up to `b`.
fn slice_chars(v: &Vec<char>, a: usize, b: usize) -> (res: Vec<char>)
    requires
        a <= b <= v@.len(),
    ensures
        res@ == v@.subrange(a as int, b as int),
{
    let mut res: Vec<char> = Vec::new();
    let mut i = a;
    while i < b
        invariant
            a <= i <= b <= v@.len(),
            res@ == v@.subrange(a as int, i as int),
        decreases b - i,
    {
        res.push(v[i]);
        i = i + 1;
        assert(res@ =~= v@.subrange(a as int, i as int));
    }
    res
}

/// Appends the characters of `src` to `dst`.
fn append_chars(dst: &mut Vec<char>, src: &Vec<char>)
    ensures
        final(dst)@ == old(dst)@ + src@,
{
    let mut i: usize = 0;
    while i < src.len()
        invariant
            i <= src@.len(),
            dst@ == old(dst)@ + src@.subrange(0, i as int),
        decreases src@.len() - i,
    {
        dst.push(src[i]);
        i = i + 1;
        assert(dst@ =~= old(dst)@ + src@.subrange(0, i as int));
    }
    assert(src@.subrange(0, i as int) =~= src@);
}

/// How a unary operator is written around its operand.
fn unary_parts_exec(h: &Vec<char>, inside: &Vec<char>, better: bool) -> (res: (Vec<char>, Vec<char>, UnaryBracket))
    ensures
        ({
            let (h1, h2, ub) = unary_parts(h@, inside@, better);
            res.0@ == h1 && res.1@ == h2 && res.2 == ub
        }),
{
    let neg = vec!['n', 'e', 'g'];
    let pct = vec!['%'];
    let square = vec!['s', 'q', 'u', 'a', 'r', 'e'];
    let inv = vec!['i', 'n', 'v'];
    let sqrt = vec!['s', 'q', 'r', 't'];
    let abs = vec!['a', 'b', 's'];
    let pow10 = vec!['p', 'o', 'w', '1', '0'];
    let asin = vec!['a', 's', 'i', 'n'];
    let acos = vec!['a', 'c', 'o', 's'];
    let atan = vec!['a', 't', 'a', 'n'];
    assert(neg@ =~= seq!['n', 'e', 'g']);
    assert(pct@ =~= seq!['%']);
    assert(square@ =~= seq!['s', 'q', 'u', 'a', 'r', 'e']);
    assert(inv@ =~= seq!['i', 'n', 'v']);
    assert(sqrt@ =~= seq!['s', 'q', 'r', 't']);
    assert(abs@ =~= seq!['a', 'b', 's']);
    assert(pow10@ =~= seq!['p', 'o', 'w', '1', '0']);
    assert(asin@ =~= seq!['a', 's', 'i', 'n']);
    assert(acos@ =~= seq!['a', 'c', 'o', 's']);
    assert(atan@ =~= seq!['a', 't', 'a', 'n']);
    let res = if better && is_chars(h, &neg) {
        (vec!['-'], Vec::new(), UnaryBracket::IfNeededNotNum)
    } else if better && is_chars(h, &pct) {
        if !f64_text(inside) {
            (Vec::new(), vec!['/', '1', '0', '0'], UnaryBracket::IfNeeded)
        } else {
            (Vec::new(), vec!['%'], UnaryBracket::No)
        }
    } else if better && is_chars(h, &square) {
        (Vec::new(), vec!['²'], UnaryBracket::IfNeededNotNum)
    } else if better && is_chars(h, &inv) {
        (vec!['1', '/'], Vec::new(), UnaryBracket::IfNeededNotNum)
    } else if better && is_chars(h, &sqrt) {
        (vec!['√'], Vec::new(), UnaryBracket::IfNeededNotNum)
    } else if better && is_chars(h, &abs) {
        (vec!['|'], vec!['|'], UnaryBracket::No)
    } else if better && is_chars(h, &pow10) {
        (vec!['1', '0', '^'], Vec::new(), UnaryBracket::No)
    } else if better && is_chars(h, &asin) {
        (vec!['s', 'i', 'n', '⁻', '¹'], Vec::new(), UnaryBracket::IfNeeded)
    } else if better && is_chars(h, &acos) {
        (vec!['c', 'o', 's', '⁻', '¹'], Vec::new(), UnaryBracket::IfNeeded)
    } else if better && is_chars(h, &atan) {
        (vec!['t', 'a', 'n', '⁻', '¹'], Vec::new(), UnaryBracket::IfNeeded)
    } else {
        (slice_chars(h, 0, h.len()), Vec::new(), UnaryBracket::IfNeeded)
    };
    assert(h@.subrange(0, h@.len() as int) =~= h@);
    assert(res.0@ =~= unary_parts(h@, inside@, better).0);
    assert(res.1@ =~= unary_parts(h@, inside@, better).1);
    res
}

/// Whether the operand gets brackets.
fn use_bracket_exec(ub: &UnaryBracket, bracket: bool, inside: &Vec<char>) -> (res: bool)
    ensures
        res == use_bracket(*ub, bracket, inside@),
{
    match ub {
        UnaryBracket::No => false,
        UnaryBracket::IfNeeded => bracket,
        UnaryBracket::IfNeededNotNum => {
            let pi = vec!['π'];
            let e = vec!['e'];
            assert(pi@ =~= seq!['π']);
            assert(e@ =~= seq!['e']);
            bracket && !is_chars(inside, &pi) && !is_chars(inside, &e) && !f64_text(inside)
        },
    }
}

/// The markers all stand within the history text.
pub open spec fn markers_within(ms: Seq<HistMarker>, n: nat) -> bool {
    forall|i: int| 0 <= i < ms.len() ==> match #[trigger] ms[i] {
        HistMarker::NumberStart(s) => s <= n,
        HistMarker::OpenBracket(s) => s <= n,
        HistMarker::Finalized => true,
    }
}

/// The history text after a unary operator key.
fn unary_hist_exec(hist: &Vec<char>, ms: &Vec<HistMarker>, h: &Vec<char>, better: bool) -> (res: Vec<char>)
    requires
        markers_within(ms@, hist@.len()),
    ensures
        res@ == unary_hist(hist@, ms@, h@, better),
        res@.len() >= hist@.len(),
{
    let pct = vec!['%'];
    assert(pct@ =~= seq!['%']);
    if is_chars(h, &pct) && !better {
        let mut r = slice_chars(hist, 0, hist.len());
        r.push('%');
        assert(hist@.subrange(0, hist@.len() as int) =~= hist@);
        return r;
    }
    let top: Option<(usize, bool)> = if ms.len() == 0 {
        None
    } else {
        match ms[ms.len() - 1] {
            HistMarker::NumberStart(s) => Some((s, true)),
            HistMarker::OpenBracket(s) => Some((s, false)),
            HistMarker::Finalized => Some((0, true)),
        }
    };
    match top {
        Some((start, bracket)) => {
            assert(start <= hist@.len()) by {
                assert(markers_within(ms@, hist@.len()));
                let m = ms@[ms@.len() - 1];
            }
            let prefix = slice_chars(hist, 0, start);
            let inside = slice_chars(hist, start, hist.len());
            let (h1, h2, ub) = unary_parts_exec(h, &inside, better);
            let b = use_bracket_exec(&ub, bracket, &inside);
            let mut r = prefix;
            append_chars(&mut r, &h1);
            if b {
                r.push('(');
            }
            append_chars(&mut r, &inside);
            if b {
                r.push(')');
            }
            append_chars(&mut r, &h2);
            assert(r@ =~= unary_hist(hist@, ms@, h@, better));
            r
        },
        None => {
            let mut r = slice_chars(hist, 0, hist.len());
            r.push('_');
            append_chars(&mut r, h);
            r.push('_');
            assert(hist@.subrange(0, hist@.len() as int) =~= hist@);
            assert(r@ =~= unary_hist(hist@, ms@, h@, better));
            r
        },
    }
}

} // verus!

verus! {

proof fn lemma_markers_within_grow(ms: Seq<HistMarker>, n: nat, m: nat)
    requires
        markers_within(ms, n),
        n <= m,
    ensures
        markers_within(ms, m),
{
    assert forall|i: int| 0 <= i < ms.len() implies match #[trigger] ms[i] {
        HistMarker::NumberStart(s) => s <= m,
        HistMarker::OpenBracket(s) => s <= m,
        HistMarker::Finalized => true,
    } by {
        assert(match ms[i] {
            HistMarker::NumberStart(s) => s <= n,
            HistMarker::OpenBracket(s) => s <= n,
            HistMarker::Finalized => true,
        });
    }
}

proof fn lemma_markers_within_prefix(ms: Seq<HistMarker>, k: int, n: nat)
    requires
        markers_within(ms, n),
        0 <= k <= ms.len(),
    ensures
        markers_within(ms.subrange(0, k), n),
{
    assert forall|i: int| 0 <= i < k implies match #[trigger] ms.subrange(0, k)[i] {
        HistMarker::NumberStart(s) => s <= n,
        HistMarker::OpenBracket(s) => s <= n,
        HistMarker::Finalized => true,
    } by {
        assert(ms.subrange(0, k)[i] == ms[i]);
        assert(match ms[i] {
            HistMarker::NumberStart(s) => s <= n,
            HistMarker::OpenBracket(s) => s <= n,
            HistMarker::Finalized => true,
        });
    }
}

proof fn lemma_close_markers_prefix(ms: Seq<HistMarker>)
    ensures
        exists|k: int| 0 <= k <= ms.len() && close_markers(ms) == ms.subrange(0, k),
    decreases ms.len(),
{
    if ms.len() == 0 || ms.last() is OpenBracket {
        assert(ms.subrange(0, ms.len() as int) =~= ms);
    } else {
        lemma_close_markers_prefix(ms.drop_last());
        let k = choose|k: int| 0 <= k <= ms.drop_last().len() && close_markers(ms.drop_last()) == ms.drop_last().subrange(0, k);
        assert(ms.drop_last().subrange(0, k) =~= ms.subrange(0, k));
    }
}

proof fn lemma_markers_push(ms: Seq<HistMarker>, m: HistMarker, n: nat)
    requires
        markers_within(ms, n),
        match m {
            HistMarker::NumberStart(s) => s <= n,
            HistMarker::OpenBracket(s) => s <= n,
            HistMarker::Finalized => true,
        },
    ensures
        markers_within(ms.push(m), n),
{
    assert forall|i: int| 0 <= i < ms.len() + 1 implies match #[trigger] ms.push(m)[i] {
        HistMarker::NumberStart(s) => s <= n,
        HistMarker::OpenBracket(s) => s <= n,
        HistMarker::Finalized => true,
    } by {
        if i < ms.len() {
            assert(ms.push(m)[i] == ms[i]);
            assert(match ms[i] {
                HistMarker::NumberStart(s) => s <= n,
                HistMarker::OpenBracket(s) => s <= n,
                HistMarker::Finalized => true,
            });
        }
    }
}

/// Writes the history as an expression, key by key.
struct HistWriter {
    hist: Vec<char>,
    markers: Vec<HistMarker>,
    prev_c: Option<char>,
    pop_marker: bool,
}

impl HistWriter {
    spec fn view(&self) -> HistState {
        HistState { hist: self.hist@, markers: self.markers@, prev_c: self.prev_c, pop_marker: self.pop_marker }
    }

    fn pop_if_needed(&mut self)
        ensures
            final(self).markers@ == pop_if(old(self).markers@, old(self).pop_marker),
            final(self).hist@ == old(self).hist@,
            final(self).prev_c == old(self).prev_c,
            final(self).pop_marker == old(self).pop_marker,
    {
        if self.pop_marker && self.markers.len() > 0 {
            self.markers.pop();
        }
    }

    /// Writes another key.
    fn step(&mut self, h: &Vec<char>, better: bool)
        requires
            markers_within(old(self).markers@, old(self).hist@.len()),
        ensures
            final(self)@ == hist_step(old(self)@, h@, better),
            markers_within(final(self).markers@, final(self).hist@.len()),
    {
        let eq = vec!['='];
        assert(eq@ =~= seq!['=']);
        if is_chars(h, &eq) {
            let mut nh = vec!['{'];
            append_chars(&mut nh, &self.hist);
            nh.push('}');
            self.hist = nh;
            self.markers = vec![HistMarker::Finalized];
            self.prev_c = None;
            self.pop_marker = false;
            assert(self.hist@ =~= seq!['{'] + old(self).hist@ + seq!['}']);
            assert(self.markers@ =~= seq![HistMarker::Finalized]);
            return;
        }
        let unary = DumbCalcProcessor::is_unary_operator(string_from_chars(h.as_slice()).as_str());
        if unary {
            let nh = unary_hist_exec(&self.hist, &self.markers, h, better);
            self.hist = nh;
            proof {
                lemma_markers_within_grow(self.markers@, old(self).hist@.len(), self.hist@.len());
                if old(self).pop_marker && self.markers@.len() > 0 {
                    lemma_markers_within_prefix(self.markers@, self.markers@.len() - 1, self.hist@.len());
                    assert(self.markers@.drop_last() =~= self.markers@.subrange(0, self.markers@.len() - 1));
                }
            }
            self.pop_if_needed();
            self.prev_c = None;
            self.pop_marker = false;
            return;
        }
        proof {
            if old(self).pop_marker && self.markers@.len() > 0 {
                lemma_markers_within_prefix(self.markers@, self.markers@.len() - 1, self.hist@.len());
                assert(self.markers@.drop_last() =~= self.markers@.subrange(0, self.markers@.len() - 1));
            }
        }
        self.pop_if_needed();
        let u = shown_unit_exec(h, better);
        let n = self.hist.len();
        if u.len() == 1 && u[0] == '(' {
            assert(u@ =~= seq!['(']);
            proof {
                lemma_markers_push(self.markers@, HistMarker::OpenBracket(n), n as nat);
            }
            self.markers.push(HistMarker::OpenBracket(n));
            append_chars(&mut self.hist, &u);
            proof {
                lemma_markers_within_grow(self.markers@, n as nat, self.hist@.len());
            }
            self.prev_c = None;
            self.pop_marker = false;
        } else if u.len() == 1 && u[0] == ')' {
            assert(u@ =~= seq![')']);
            assert(u@ != seq!['(']);
            proof {
                lemma_close_markers_prefix(self.markers@);
                let k = choose|k: int| 0 <= k <= self.markers@.len() && close_markers(self.markers@) == self.markers@.subrange(0, k);
                lemma_markers_within_prefix(self.markers@, k, n as nat);
            }
            close_markers_exec(&mut self.markers);
            append_chars(&mut self.hist, &u);
            proof {
                lemma_markers_within_grow(self.markers@, n as nat, self.hist@.len());
            }
            self.prev_c = None;
            self.pop_marker = true;
        } else if u.len() > 0 {
            assert(u@ != seq!['(']) by {
                if u@ == seq!['('] {
                    assert(u@.len() == 1 && u@[0] == '(');
                }
            }
            assert(u@ != seq![')']) by {
                if u@ == seq![')'] {
                    assert(u@.len() == 1 && u@[0] == ')');
                }
            }
            let c = u[0];
            let pc = if c == '.' || ('0' <= c && c <= '9') { Some(c) } else { None };
            if self.prev_c.is_none() {
                if self.markers.len() > 0 {
                    match self.markers[self.markers.len() - 1] {
                        HistMarker::NumberStart(_) => {
                            proof {
                                lemma_markers_within_prefix(self.markers@, self.markers@.len() - 1, n as nat);
                                assert(self.markers@.drop_last() =~= self.markers@.subrange(0, self.markers@.len() - 1));
                            }
                            self.markers.pop();
                        },
                        _ => {},
                    }
                }
                proof {
                    lemma_markers_push(self.markers@, HistMarker::NumberStart(n), n as nat);
                }
                self.markers.push(HistMarker::NumberStart(n));
            }
            append_chars(&mut self.hist, &u);
            proof {
                lemma_markers_within_grow(self.markers@, n as nat, self.hist@.len());
            }
            self.prev_c = pc;
            self.pop_marker = false;
        } else {
            self.prev_c = None;
            self.pop_marker = false;
        }
    }
}

/// A unit as written with the better symbols, or as it is.
fn shown_unit_exec(h: &Vec<char>, better: bool) -> (res: Vec<char>)
    ensures
        res@ == shown_unit(h@, better),
{
    let minus = vec!['-'];
    let times = vec!['*'];
    let div = vec!['/'];
    let pi = vec!['P', 'I'];
    let e = vec!['E'];
    assert(minus@ =~= seq!['-']);
    assert(times@ =~= seq!['*']);
    assert(div@ =~= seq!['/']);
    assert(pi@ =~= seq!['P', 'I']);
    assert(e@ =~= seq!['E']);
    let res = if !better {
        slice_chars(h, 0, h.len())
    } else if is_chars(h, &minus) {
        vec!['−']
    } else if is_chars(h, &times) {
        vec!['×']
    } else if is_chars(h, &div) {
        vec!['÷']
    } else if is_chars(h, &pi) {
        vec!['π']
    } else if is_chars(h, &e) {
        vec!['e']
    } else {
        slice_chars(h, 0, h.len())
    };
    assert(h@.subrange(0, h@.len() as int) =~= h@);
    assert(res@ =~= shown_unit(h@, better));
    res
}

/// Drops the markers above the last open bracket.
fn close_markers_exec(ms: &mut Vec<HistMarker>)
    ensures
        final(ms)@ == close_markers(old(ms)@),
{
    while ms.len() > 0
        invariant
            close_markers(ms@) == close_markers(old(ms)@),
        decreases ms@.len(),
    {
        match ms[ms.len() - 1] {
            HistMarker::OpenBracket(_) => {
                return;
            },
            _ => {
                let ghost before = ms@;
                ms.pop();
                assert(ms@ =~= before.drop_last());
            },
        }
    }
}

/// The history of keys written as an expression: numbers and binary operators as
/// they are (or with the better symbols), a unary operator around what it
/// applies to, and a finished calculation in `{` `}`.
fn history_string(history: &Vec<String>, better_symbols: bool) -> (res: String)
    ensures
        res@ == history_text(history@.map_values(|h: String| h@), better_symbols),
{
    let ghost hs = history@.map_values(|h: String| h@);
    let mut w = HistWriter { hist: Vec::new(), markers: Vec::new(), prev_c: None, pop_marker: false };
    assert(w@.hist =~= hist_start().hist);
    assert(w@.markers =~= hist_start().markers);
    let mut i: usize = 0;
    while i < history.len()
        invariant
            i <= history@.len(),
            hs == history@.map_values(|h: String| h@),
            w@ == hist_run(hs.subrange(0, i as int), better_symbols),
            markers_within(w.markers@, w.hist@.len()),
        decreases history@.len() - i,
    {
        let h = chars_of(history[i].as_str());
        w.step(&h, better_symbols);
        proof {
            assert(hs.subrange(0, i + 1).drop_last() =~= hs.subrange(0, i as int));
            assert(hs.subrange(0, i + 1).last() == h@);
        }
        i = i + 1;
    }
    assert(hs.subrange(0, i as int) =~= hs);
    string_from_chars(w.hist.as_slice())
}

} // verus!

verus! {

impl EnteringMode {
    /// A copy of the number being entered.
    pub fn duplicate(&self) -> (res: EnteringMode)
        ensures
            res@ == self@,
    {
        match self {
            EnteringMode::Not => EnteringMode::Not,
            EnteringMode::Error => EnteringMode::Error,
            EnteringMode::Integer(i) => EnteringMode::Integer(*i),
            EnteringMode::Decimal(i, d) => EnteringMode::Decimal(*i, d.clone()),
        }
    }
}

/// The settings of a [`DumbCalculator`].
pub struct DumbCalculatorSettings {
    /// whether key inputs can be undone
    pub enable_undo: bool,
    /// whether the key inputs are kept
    pub enable_history: bool,
}

impl Default for DumbCalculatorSettings {
    /// Undo and history enabled.
    fn default() -> (res: DumbCalculatorSettings)
        ensures
            res.enable_undo && res.enable_history,
    {
        DumbCalculatorSettings { enable_undo: true, enable_history: true }
    }
}

/// What undoing a key input goes back to.
enum UndoStep {
    EnteringBackup(EnteringMode),
    CalcBackup(CalcProcessorBackup, EnteringMode),
}

/// What undoing a key input goes back to, as plain values: the number being
/// entered, and for a key that reached the calculation, its state too.
pub enum UndoView {
    Entering(EnteringState),
    Calc(CalcView, EnteringState),
}

impl UndoStep {
    spec fn view(&self) -> UndoView {
        match self {
            UndoStep::EnteringBackup(e) => UndoView::Entering(e@),
            UndoStep::CalcBackup(b, e) => UndoView::Calc(b@, e@),
        }
    }
}

/// How angles are taken by the trigonometric operators: in degrees or in radians.
#[derive(Debug, Clone, Copy, PartialEq, Eq, Structural)]
pub enum AngleMode {
    Degrees,
    Radians,
}

/// The state of a calculator, as plain values: the number being entered, the
/// state of the calculation, what undo goes back to (if undo is enabled), the
/// keys input (if history is enabled), the operand held in memory, and the
/// angle mode.
pub struct CalculatorView {
    pub entering: EnteringState,
    pub calc: CalcView,
    pub undo: Option<Seq<UndoView>>,
    pub history: Option<Seq<Seq<char>>>,
    pub memory: Option<TermView>,
    pub angle_mode: AngleMode,
}

/// A key that builds the number being entered: a digit or `.`.
pub open spec fn is_number_key(k: Seq<char>) -> bool {
    k == seq!['.'] || is_digit_key(k)
}

/// Records a key input: in the history, and what undo goes back to (the
/// number being entered, and for a key that reaches the calculation, its state).
pub open spec fn record_key(c: CalculatorView, k: Seq<char>) -> CalculatorView {
    CalculatorView {
        entering: c.entering,
        calc: c.calc,
        memory: c.memory,
        angle_mode: c.angle_mode,
        undo: match c.undo {
            Some(u) => Some(u.push(if is_number_key(k) { UndoView::Entering(c.entering) } else { UndoView::Calc(c.calc, c.entering) })),
            None => None,
        },
        history: match c.history {
            Some(h) => Some(h.push(k)),
            None => None,
        },
    }
}

/// The memory keys: `ms` stores the operand shown, `m+` and `m-` add it to
/// and take it from the memory, `mr` recalls the memory as an operand, and
/// `mc` clears the memory.
pub open spec fn is_memory_key(k: Seq<char>) -> bool {
    k == seq!['m', 's'] || k == seq!['m', '+'] || k == seq!['m', '-'] || k == seq!['m', 'r'] || k == seq!['m', 'c']
}

/// The operand that the calculator shows: the number being entered, else the
/// operand scanned last, else the result; none while the number entered does
/// not fit.
pub open spec fn shown_term(c: CalculatorView) -> Option<TermView> {
    match entered_number(c.entering) {
        Some(n) => Some(TermView::Number(n)),
        None => if c.entering is Error {
            None
        } else if c.calc.scanned.len() > 0 {
            Some(c.calc.scanned.last())
        } else {
            Some(c.calc.result)
        },
    }
}

/// The operand held in memory, zero when the memory is clear.
pub open spec fn memory_term(c: CalculatorView) -> TermView {
    match c.memory {
        Some(t) => t,
        None => TermView::Zero,
    }
}

/// What a memory key does (they are not recorded for undo or history).
pub open spec fn memory_push(c: CalculatorView, k: Seq<char>) -> CalculatorView {
    if k == seq!['m', 'c'] {
        CalculatorView { memory: None, ..c }
    } else if k == seq!['m', 'r'] {
        CalculatorView {
            entering: if c.entering is Error { EnteringState::Error } else { EnteringState::Not },
            calc: push_unit(c.calc, PushUnit::Operand(memory_term(c)))->Some_0,
            ..c
        }
    } else {
        match shown_term(c) {
            None => c,
            Some(t) => CalculatorView {
                memory: Some(
                    if k == seq!['m', 's'] {
                        t
                    } else if k == seq!['m', '+'] {
                        TermView::Binary(Op::ADD, Box::new(memory_term(c)), Box::new(t))
                    } else {
                        TermView::Binary(Op::SUBTRACT, Box::new(memory_term(c)), Box::new(t))
                    },
                ),
                ..c
            },
        }
    }
}

/// The angle mode named `deg` (degrees) or `rad` (radians).
pub open spec fn angle_mode_named(s: Seq<char>) -> Option<AngleMode> {
    if s == seq!['d', 'e', 'g'] {
        Some(AngleMode::Degrees)
    } else if s == seq!['r', 'a', 'd'] {
        Some(AngleMode::Radians)
    } else {
        None
    }
}

/// The calculator with another angle mode.
pub open spec fn with_angle_mode(c: CalculatorView, a: AngleMode) -> CalculatorView {
    CalculatorView { angle_mode: a, ..c }
}

/// The key that undoes the last key input: `undo`.
pub open spec fn undo_key() -> Seq<char> {
    seq!['u', 'n', 'd', 'o']
}

/// What a key input does (see [`DumbCalculator::push`]): the new state and
/// the error message of a key that is not a unit; `None` where the calculator
/// cannot go on (a digit key that does not read as a `u32`, or a unit that
/// the calculation cannot take).
pub open spec fn calculator_push(c: CalculatorView, k: Seq<char>) -> Option<(CalculatorView, Option<Seq<char>>)> {
    let c1 = record_key(c, k);
    let (e, num) = enter_key(c.entering, k);
    if k == undo_key() {
        Some((calculator_undo(c), None))
    } else if is_memory_key(k) {
        Some((memory_push(c, k), None))
    } else if !digit_key_ok(k) {
        None
    } else if is_number_key(k) {
        Some((CalculatorView { entering: e, ..c1 }, None))
    } else {
        let calc0 = match num {
            Some(n) => match push_text(c.calc, n) {
                Some((w, None)) => Some(w),
                _ => None,
            },
            None => Some(c.calc),
        };
        match calc0 {
            Some(w) => match push_text(w, k) {
                Some((w2, err)) => Some((CalculatorView { entering: e, calc: w2, ..c1 }, err)),
                None => None,
            },
            None => None,
        }
    }
}

/// Pushes each character of the keys that is not a space, as a key, stopping
/// at the first error.
pub open spec fn calculator_push_chars(c: CalculatorView, ks: Seq<char>) -> Option<(CalculatorView, Option<Seq<char>>)>
    decreases ks.len(),
{
    if ks.len() == 0 {
        Some((c, None))
    } else if ks[0] == ' ' {
        calculator_push_chars(c, ks.drop_first())
    } else {
        match calculator_push(c, seq![ks[0]]) {
            Some((w, None)) => calculator_push_chars(w, ks.drop_first()),
            other => other,
        }
    }
}

/// A calculation reset for new input.
pub open spec fn calc_reset(v: CalcView) -> CalcView {
    CalcView { scanned: Seq::empty(), stack: Seq::empty(), last: v.last, result: TermView::Zero }
}

/// What undo does: the last key input leaves the history, and the state goes
/// back to what was recorded for it; with nothing recorded, the calculator
/// starts over. Without undo, only the history changes.
pub open spec fn calculator_undo(c: CalculatorView) -> CalculatorView {
    let h = match c.history {
        Some(h) => Some(if h.len() > 0 { h.drop_last() } else { h }),
        None => None,
    };
    match c.undo {
        Some(u) => if u.len() > 0 {
            match u.last() {
                UndoView::Entering(e) => CalculatorView { entering: e, calc: c.calc, undo: Some(u.drop_last()), history: h, ..c },
                UndoView::Calc(v, e) => CalculatorView { entering: e, calc: v, undo: Some(u.drop_last()), history: h, ..c },
            }
        } else {
            CalculatorView { entering: EnteringState::Not, calc: calc_reset(c.calc), undo: Some(u), history: h, ..c }
        },
        None => CalculatorView { history: h, ..c },
    }
}

/// A calculator that takes key inputs like a real one: digits and `.` build
/// the number being entered, and the other keys go, after that number, to a
/// [`DumbCalcProcessor`].
pub struct DumbCalculator {
    entering: EnteringMode,
    calc: DumbCalcProcessor,
    undo_stack: Option<Vec<UndoStep>>,
    history_stack: Option<Vec<String>>,
    memory: Option<CalcTerm>,
    angle_mode: AngleMode,
}

impl View for DumbCalculator {
    type V = CalculatorView;

    closed spec fn view(&self) -> CalculatorView {
        CalculatorView {
            entering: self.entering@,
            calc: self.calc@,
            undo: match self.undo_stack {
                Some(u) => Some(u@.map_values(|s: UndoStep| s.view())),
                None => None,
            },
            history: match self.history_stack {
                Some(h) => Some(h@.map_values(|s: String| s@)),
                None => None,
            },
            memory: match self.memory {
                Some(t) => Some(t@),
                None => None,
            },
            angle_mode: self.angle_mode,
        }
    }
}

} // verus!

verus! {

/// Whether the key, when it is a digit key, reads as a `u32`.
fn digit_key_reads(k: &Vec<char>) -> (res: bool)
    ensures
        res == digit_key_ok(k@),
{
    let digit_key = k.len() > 0 && (('0' <= k[0] && k[0] < '9') || (k.len() == 1 && k[0] == '9'));
    assert(digit_key == is_digit_key(k@)) by {
        if k@.len() == 1 && k@[0] == '9' {
            assert(k@ =~= seq!['9']);
        }
    }
    if !digit_key {
        return true;
    }
    let mut v: u64 = 0;
    let mut i: usize = 0;
    while i < k.len()
        invariant
            i <= k@.len(),
            is_digit_key(k@),
            all_digits(k@.subrange(0, i as int)),
            v == digits_value(k@.subrange(0, i as int)),
            v <= u32::MAX,
        decreases k@.len() - i,
    {
        let c = k[i];
        if !('0' <= c && c <= '9') {
            assert(!is_digit(k@[i as int]));
            return false;
        }
        proof {
            assert(k@.subrange(0, i + 1).drop_last() =~= k@.subrange(0, i as int));
            assert(k@.subrange(0, i + 1).last() == c);
        }
        v = v * 10 + ((c as u64) - ('0' as u64));
        i = i + 1;
        assert(all_digits(k@.subrange(0, i as int))) by {
            assert forall|j: int| 0 <= j < i implies is_digit(#[trigger] k@.subrange(0, i as int)[j]) by {
                if j < i - 1 {
                    assert(k@.subrange(0, i as int)[j] == k@.subrange(0, i - 1)[j]);
                }
            }
        }
        if v > 4294967295 {
            proof {
                if all_digits(k@) {
                    lemma_digits_prefix(k@, i as int);
                }
            }
            return false;
        }
    }
    assert(k@.subrange(0, i as int) =~= k@);
    true
}

/// Whether a key input can be taken does not depend on what is recorded for
/// undo and history; nor do the number entered and the calculation after it.
proof fn lemma_push_ok_without_records(a: CalculatorView, b: CalculatorView, k: Seq<char>)
    requires
        a.entering == b.entering,
        a.calc == b.calc,
        a.memory == b.memory,
    ensures
        calculator_push(a, k) is Some == calculator_push(b, k) is Some,
        calculator_push(a, k) is Some && k != undo_key() ==> {
            let (x, ex) = calculator_push(a, k)->Some_0;
            let (y, ey) = calculator_push(b, k)->Some_0;
            x.entering == y.entering && x.calc == y.calc && x.memory == y.memory && ex == ey
        },
{
}

/// Whether keys can be taken does not depend on what is recorded for undo and
/// history.
proof fn lemma_push_chars_ok_without_records(a: CalculatorView, b: CalculatorView, ks: Seq<char>)
    requires
        a.entering == b.entering,
        a.calc == b.calc,
        a.memory == b.memory,
    ensures
        calculator_push_chars(a, ks) is Some == calculator_push_chars(b, ks) is Some,
    decreases ks.len(),
{
    if ks.len() > 0 {
        if ks[0] == ' ' {
            lemma_push_chars_ok_without_records(a, b, ks.drop_first());
        } else {
            lemma_push_ok_without_records(a, b, seq![ks[0]]);
            match calculator_push(a, seq![ks[0]]) {
                Some((x, None)) => {
                    let (y, _) = calculator_push(b, seq![ks[0]])->Some_0;
                    lemma_push_chars_ok_without_records(x, y, ks.drop_first());
                },
                _ => {},
            }
        }
    }
}

impl DumbCalculator {
    /// A calculator with the settings: undo and history kept or not.
    pub fn new_with_settings(settings: DumbCalculatorSettings) -> (res: DumbCalculator)
        ensures
            res@.entering == EnteringState::Not,
            res@.calc == calc_start(),
            res@.memory is None,
            res@.angle_mode == AngleMode::Degrees,
            res@.undo == (if settings.enable_undo { Some(Seq::<UndoView>::empty()) } else { None }),
            res@.history == (if settings.enable_history { Some(Seq::<Seq<char>>::empty()) } else { None }),
    {
        let undo_stack = if settings.enable_undo { Some(Vec::new()) } else { None };
        let history_stack = if settings.enable_history { Some(Vec::new()) } else { None };
        let res = DumbCalculator {
            entering: EnteringMode::Not,
            calc: DumbCalcProcessor::new(),
            undo_stack,
            history_stack,
            memory: None,
            angle_mode: AngleMode::Degrees,
        };
        proof {
            if settings.enable_undo {
                assert(res.undo_stack->Some_0@.map_values(|s: UndoStep| s.view()) =~= Seq::<UndoView>::empty());
            }
            if settings.enable_history {
                assert(res.history_stack->Some_0@.map_values(|s: String| s@) =~= Seq::<Seq<char>>::empty());
            }
        }
        res
    }

    /// A calculator with undo and history.
    pub fn new() -> (res: DumbCalculator)
        ensures
            res@.entering == EnteringState::Not,
            res@.calc == calc_start(),
            res@.memory is None,
            res@.angle_mode == AngleMode::Degrees,
            res@.undo == Some(Seq::<UndoView>::empty()),
            res@.history == Some(Seq::<Seq<char>>::empty()),
    {
        DumbCalculator::new_with_settings(DumbCalculatorSettings { enable_undo: true, enable_history: true })
    }

    /// A calculator without undo and history.
    pub fn new_min() -> (res: DumbCalculator)
        ensures
            res@.entering == EnteringState::Not,
            res@.calc == calc_start(),
            res@.memory is None,
            res@.angle_mode == AngleMode::Degrees,
            res@.undo is None,
            res@.history is None,
    {
        DumbCalculator::new_with_settings(DumbCalculatorSettings { enable_undo: false, enable_history: false })
    }

    /// Records a key input (see [`record_key`]).
    fn record_undo(&mut self, key: &str, for_calc: bool)
        requires
            for_calc == !is_number_key(key@),
        ensures
            final(self)@ == record_key(old(self)@, key@),
    {
        match &mut self.history_stack {
            Some(h) => {
                let ghost before = h@.map_values(|s: String| s@);
                h.push(String::from_str(key));
                assert(h@.map_values(|s: String| s@) =~= before.push(key@));
            },
            None => {},
        }
        let ghost mid = self@;
        let step = if for_calc {
            UndoStep::CalcBackup(self.calc.backup(), self.entering.duplicate())
        } else {
            UndoStep::EnteringBackup(self.entering.duplicate())
        };
        match &mut self.undo_stack {
            Some(u) => {
                let ghost before = u@.map_values(|s: UndoStep| s.view());
                let ghost sv = step.view();
                u.push(step);
                assert(u@.map_values(|s: UndoStep| s.view()) =~= before.push(sv));
            },
            None => {},
        }
    }

    /// The operand that the calculator shows (see [`shown_term`]).
    fn shown(&self) -> (res: Option<CalcTerm>)
        ensures
            match res {
                Some(t) => shown_term(self@) == Some(t@),
                None => shown_term(self@) is None,
            },
    {
        match &self.entering {
            EnteringMode::Error => None,
            EnteringMode::Not => match self.calc.get_intermediate_term() {
                Some(t) => Some(t.duplicate()),
                None => Some(self.calc.get_result_term().duplicate()),
            },
            _ => {
                let key = String::from_str("=");
                proof {
                    reveal_strlit("=");
                }
                assert(key@ =~= seq!['=']);
                let (_, num) = self.entering.enter(key.as_str());
                match num {
                    Some(n) => Some(CalcTerm::Number(n)),
                    None => None,
                }
            },
        }
    }

    /// The memory operand (see [`memory_term`]).
    fn memory_operand(&self) -> (res: CalcTerm)
        ensures
            res@ == memory_term(self@),
    {
        match &self.memory {
            Some(t) => t.duplicate(),
            None => CalcTerm::Zero,
        }
    }

    /// Pushes the memory key `m` followed by `which` (see [`memory_push`]).
    fn push_memory_key(&mut self, which: char)
        requires
            which == 's' || which == '+' || which == '-' || which == 'r' || which == 'c',
        ensures
            final(self)@ == memory_push(old(self)@, seq!['m', which]),
    {
        let ghost k = seq!['m', which];
        if which == 'c' {
            self.memory = None;
        } else if which == 'r' {
            let t = self.memory_operand();
            if !matches!(self.entering, EnteringMode::Error) {
                self.entering = EnteringMode::Not;
            }
            self.calc.push_operand(t);
        } else {
            match self.shown() {
                None => {},
                Some(t) => {
                    let m = if which == 's' {
                        t
                    } else if which == '+' {
                        CalcTerm::Binary(Op::ADD, Box::new(self.memory_operand()), Box::new(t))
                    } else {
                        CalcTerm::Binary(Op::SUBTRACT, Box::new(self.memory_operand()), Box::new(t))
                    };
                    self.memory = Some(m);
                },
            }
        }
    }

    /// Uses an angle mode: `deg` for degrees or `rad` for radians; an error
    /// for any other.
    pub fn use_angle_mode(&mut self, angle_mode: &str) -> (res: Result<(), DumbError>)
        ensures
            match angle_mode_named(angle_mode@) {
                Some(a) => res is Ok && final(self)@ == with_angle_mode(old(self)@, a),
                None => res is Err && final(self)@ == old(self)@,
            },
    {
        let k = chars_of(angle_mode);
        if k.len() == 3 && k[0] == 'd' && k[1] == 'e' && k[2] == 'g' {
            assert(angle_mode@ =~= seq!['d', 'e', 'g']);
            self.angle_mode = AngleMode::Degrees;
            Ok(())
        } else if k.len() == 3 && k[0] == 'r' && k[1] == 'a' && k[2] == 'd' {
            assert(angle_mode@ =~= seq!['r', 'a', 'd']);
            self.angle_mode = AngleMode::Radians;
            Ok(())
        } else {
            assert(angle_mode@ != seq!['d', 'e', 'g'] && angle_mode@ != seq!['r', 'a', 'd']) by {
                if angle_mode@ == seq!['d', 'e', 'g'] {
                    assert(k@[0] == 'd' && k@[1] == 'e' && k@[2] == 'g');
                }
                if angle_mode@ == seq!['r', 'a', 'd'] {
                    assert(k@[0] == 'r' && k@[1] == 'a' && k@[2] == 'd');
                }
            }
            Err(DumbError::from_message(String::from_str("unknown angle mode")))
        }
    }

    /// The angle mode in use.
    pub fn get_angle_mode(&self) -> (res: AngleMode)
        ensures
            res == self@.angle_mode,
    {
        self.angle_mode
    }

    /// The operand held in memory, if any.
    pub fn get_memory(&self) -> (res: Option<&CalcTerm>)
        ensures
            match res {
                Some(t) => self@.memory == Some(t@),
                None => self@.memory is None,
            },
    {
        match &self.memory {
            Some(t) => Some(t),
            None => None,
        }
    }

    /// Pushes a key input (see [`calculator_push`]): `None` where the
    /// calculator cannot go on.
    fn push_checked(&mut self, key: &str) -> (res: Option<Result<(), DumbError>>)
        ensures
            res is None <==> calculator_push(old(self)@, key@) is None,
            res matches Some(r) ==> calculator_push(old(self)@, key@) == Some((final(self)@, match r {
                Ok(_) => None::<Seq<char>>,
                Err(e) => Some(e.spec_message()),
            })),
    {
        let k = chars_of(key);
        if k.len() == 4 && k[0] == 'u' && k[1] == 'n' && k[2] == 'd' && k[3] == 'o' {
            assert(key@ =~= undo_key());
            self.undo();
            return Some(Ok(()));
        }
        assert(key@ != undo_key()) by {
            if key@ == undo_key() {
                assert(k@[0] == 'u' && k@[1] == 'n' && k@[2] == 'd' && k@[3] == 'o');
            }
        }
        if k.len() == 2 && k[0] == 'm' && (k[1] == 's' || k[1] == '+' || k[1] == '-' || k[1] == 'r' || k[1] == 'c') {
            assert(is_memory_key(key@)) by {
                assert(key@ =~= seq!['m', k@[1]]);
            }
            self.push_memory_key(k[1]);
            return Some(Ok(()));
        }
        assert(!is_memory_key(key@)) by {
            if is_memory_key(key@) {
                assert(k@.len() == 2 && k@[0] == 'm');
            }
        }
        if !digit_key_reads(&k) {
            return None;
        }
        let digit_key = k.len() > 0 && (('0' <= k[0] && k[0] < '9') || (k.len() == 1 && k[0] == '9'));
        let is_dot = k.len() == 1 && k[0] == '.';
        let number_key = is_dot || digit_key;
        assert(number_key == is_number_key(key@)) by {
            if k@.len() == 1 && k@[0] == '9' {
                assert(k@ =~= seq!['9']);
            }
            if k@.len() == 1 && k@[0] == '.' {
                assert(k@ =~= seq!['.']);
            }
        }
        let ghost c = self@;
        self.record_undo(key, !number_key);
        let (entering, number) = self.entering.enter(key);
        if number_key {
            self.entering = entering;
            return Some(Ok(()));
        }
        match number {
            Some(n) => {
                match self.calc.push_text_checked(n.as_str()) {
                    Some(Ok(())) => {},
                    _ => {
                        return None;
                    },
                }
            },
            None => {},
        }
        match self.calc.push_text_checked(key) {
            None => None,
            Some(r) => {
                self.entering = entering;
                match r {
                    Ok(()) => Some(Ok(())),
                    Err(m) => Some(Err(DumbError::from_message(m))),
                }
            },
        }
    }

    /// Pushes a "key input" (see [`calculator_push`]): a digit or `.`, which
    /// build the number being entered; `undo`, which undoes the last key input
    /// (see [`DumbCalculator::undo`]); a memory key (`ms`, `m+`, `m-`, `mr`,
    /// `mc`, see [`memory_push`]); or, after that number, a bracket, an
    /// operator, a constant or `=`, as [`DumbCalcProcessor::push`] takes them.
    ///
    /// A digit key must read as a `u32`, and the calculation must be able to
    /// take the units; [`DumbCalculator::can_push`] tells.
    pub fn push(&mut self, key: &str) -> (res: Result<(), DumbError>)
        requires
            calculator_push(old(self)@, key@) is Some,
        ensures
            calculator_push(old(self)@, key@) == Some((final(self)@, match res {
                Ok(_) => None::<Seq<char>>,
                Err(e) => Some(e.spec_message()),
            })),
    {
        match self.push_checked(key) {
            Some(r) => r,
            None => Ok(()),
        }
    }

    /// A copy of the calculator, to try key inputs on.
    fn trial_copy(&self) -> (res: DumbCalculator)
        ensures
            res@.entering == self@.entering,
            res@.calc == self@.calc,
            res@.memory == self@.memory,
            res@.undo is None,
            res@.history is None,
    {
        let memory = match &self.memory {
            Some(t) => Some(t.duplicate()),
            None => None,
        };
        DumbCalculator {
            entering: self.entering.duplicate(),
            calc: self.calc.duplicate(),
            undo_stack: None,
            history_stack: None,
            memory,
            angle_mode: self.angle_mode,
        }
    }

    /// Whether the calculator can take the key input (see [`DumbCalculator::push`]).
    pub fn can_push(&self, key: &str) -> (res: bool)
        ensures
            res == calculator_push(self@, key@) is Some,
    {
        let mut c = self.trial_copy();
        proof {
            lemma_push_ok_without_records(self@, c@, key@);
        }
        c.push_checked(key).is_some()
    }

    /// Pushes each character of the keys that is not a space as a key input
    /// (see [`calculator_push_chars`]), stopping at the first error.
    fn push_chars_checked(&mut self, keys: &str) -> (res: Option<Result<(), DumbError>>)
        ensures
            res is None <==> calculator_push_chars(old(self)@, keys@) is None,
            res matches Some(r) ==> calculator_push_chars(old(self)@, keys@) == Some((final(self)@, match r {
                Ok(_) => None::<Seq<char>>,
                Err(e) => Some(e.spec_message()),
            })),
    {
        let ks = chars_of(keys);
        let mut i: usize = 0;
        assert(ks@.subrange(0, ks@.len() as int) =~= ks@);
        while i < ks.len()
            invariant
                i <= ks@.len(),
                ks@ == keys@,
                calculator_push_chars(self@, ks@.subrange(i as int, ks@.len() as int)) == calculator_push_chars(old(self)@, keys@),
            decreases ks@.len() - i,
        {
            let ghost rest = ks@.subrange(i as int, ks@.len() as int);
            assert(rest.drop_first() =~= ks@.subrange(i + 1, ks@.len() as int));
            assert(rest[0] == ks@[i as int]);
            let c = ks[i];
            if c != ' ' {
                let mut one: Vec<char> = Vec::new();
                one.push(c);
                let key = string_from_chars(one.as_slice());
                assert(key@ =~= seq![c]);
                match self.push_checked(key.as_str()) {
                    None => {
                        return None;
                    },
                    Some(Err(e)) => {
                        return Some(Err(e));
                    },
                    Some(Ok(())) => {},
                }
            }
            i = i + 1;
        }
        assert(ks@.subrange(i as int, ks@.len() as int) =~= Seq::<char>::empty());
        Some(Ok(()))
    }

    /// Pushes each character of the keys that is not a space as a key input,
    /// stopping at the first error (see [`calculator_push_chars`]).
    ///
    /// The calculator must be able to take each of those keys;
    /// [`DumbCalculator::can_push_chars`] tells.
    pub fn push_chars(&mut self, keys: &str) -> (res: Result<(), DumbError>)
        requires
            calculator_push_chars(old(self)@, keys@) is Some,
        ensures
            calculator_push_chars(old(self)@, keys@) == Some((final(self)@, match res {
                Ok(_) => None::<Seq<char>>,
                Err(e) => Some(e.spec_message()),
            })),
    {
        match self.push_chars_checked(keys) {
            Some(r) => r,
            None => Ok(()),
        }
    }

    /// Whether the calculator can take the keys (see [`DumbCalculator::push_chars`]).
    pub fn can_push_chars(&self, keys: &str) -> (res: bool)
        ensures
            res == calculator_push_chars(self@, keys@) is Some,
    {
        let mut c = self.trial_copy();
        proof {
            lemma_push_chars_ok_without_records(self@, c@, keys@);
        }
        c.push_chars_checked(keys).is_some()
    }

    /// Undoes the last key input, if undo is enabled (see [`calculator_undo`]);
    /// the key also leaves the history.
    pub fn undo(&mut self)
        ensures
            final(self)@ == calculator_undo(old(self)@),
    {
        match &mut self.history_stack {
            Some(h) => {
                let ghost before = h@.map_values(|s: String| s@);
                h.pop();
                assert(h@.map_values(|s: String| s@) =~= if before.len() > 0 { before.drop_last() } else { before });
            },
            None => {},
        }
        match &mut self.undo_stack {
            Some(u) => {
                let ghost before = u@.map_values(|s: UndoStep| s.view());
                match u.pop() {
                    Some(UndoStep::EnteringBackup(e)) => {
                        assert(u@.map_values(|s: UndoStep| s.view()) =~= before.drop_last());
                        self.entering = e;
                    },
                    Some(UndoStep::CalcBackup(b, e)) => {
                        assert(u@.map_values(|s: UndoStep| s.view()) =~= before.drop_last());
                        self.calc.restore(b);
                        self.entering = e;
                    },
                    None => {
                        self.entering = EnteringMode::Not;
                        self.calc.reset();
                    },
                }
            },
            None => {},
        }
    }

    /// Resets the calculator: no number entered, the calculation reset, and
    /// nothing to undo and no history (where they are enabled).
    pub fn reset(&mut self)
        ensures
            final(self)@ == (CalculatorView {
                entering: EnteringState::Not,
                calc: calc_reset(old(self)@.calc),
                undo: match old(self)@.undo {
                    Some(_) => Some(Seq::<UndoView>::empty()),
                    None => None,
                },
                history: match old(self)@.history {
                    Some(_) => Some(Seq::<Seq<char>>::empty()),
                    None => None,
                },
                memory: None,
                angle_mode: old(self)@.angle_mode,
            }),
    {
        self.entering = EnteringMode::Not;
        self.memory = None;
        self.calc.reset();
        match &mut self.undo_stack {
            Some(u) => {
                u.clear();
                assert(u@.map_values(|s: UndoStep| s.view()) =~= Seq::<UndoView>::empty());
            },
            None => {},
        }
        match &mut self.history_stack {
            Some(h) => {
                h.clear();
                assert(h@.map_values(|s: String| s@) =~= Seq::<Seq<char>>::empty());
            },
            None => {},
        }
    }

    /// The key inputs, if history is enabled.
    pub fn get_history(&self) -> (res: Option<&[String]>)
        ensures
            match res {
                Some(h) => self@.history == Some(h@.map_values(|s: String| s@)),
                None => self@.history is None,
            },
    {
        match &self.history_stack {
            Some(h) => Some(h.as_slice()),
            None => None,
        }
    }

    /// The key inputs written as an expression (see [`history_text`]), if
    /// history is enabled.
    pub fn get_history_string(&self, better_symbols: bool) -> (res: Option<String>)
        ensures
            match res {
                Some(s) => self@.history matches Some(h) && s@ == history_text(h, better_symbols),
                None => self@.history is None,
            },
    {
        match &self.history_stack {
            Some(h) => Some(history_string(h, better_symbols)),
            None => None,
        }
    }

    /// The name of the last unit pushed to the calculation, if it is an operator.
    pub fn get_last_operator(&self) -> (res: Option<String>)
        ensures
            match self@.calc.last {
                Some(LastUnit::Operator(op)) => res matches Some(s) && s@ == op_name(op),
                _ => res is None,
            },
    {
        self.calc.get_last_operator()
    }

    /// How many brackets of the calculation are open (the count as a `u16`).
    pub fn count_opened_brackets(&self) -> (res: u16)
        ensures
            res == open_count(self@.calc.stack) as u16,
    {
        self.calc.count_opened_brackets()
    }

    /// The number being entered.
    pub fn get_entering(&self) -> (res: &EnteringMode)
        ensures
            res@ == self@.entering,
    {
        &self.entering
    }

    /// The calculation.
    pub fn get_calc(&self) -> (res: &DumbCalcProcessor)
        ensures
            res@ == self@.calc,
    {
        &self.calc
    }
}

} // verus!

verus! {

/// With undo enabled, undo takes back a key input (other than `undo` itself
/// and the memory keys, which are not recorded): the number being entered, the
/// calculation, what undo goes back to and the history are all as they were
/// before the key.
pub proof fn lemma_undo_reverts_push(c: CalculatorView, k: Seq<char>)
    requires
        c.undo is Some,
        k != undo_key(),
        !is_memory_key(k),
        calculator_push(c, k) is Some,
    ensures
        calculator_undo(calculator_push(c, k)->Some_0.0) == c,
{
    let c2 = calculator_push(c, k)->Some_0.0;
    assert(c2.undo->Some_0.drop_last() =~= c.undo->Some_0);
    if c.history is Some {
        assert(c2.history->Some_0.drop_last() =~= c.history->Some_0);
    }
}

} // verus!

verus! {

/// The keys one after the other.
pub open spec fn keys_text(hs: Seq<Seq<char>>) -> Seq<char>
    decreases hs.len(),
{
    if hs.len() == 0 {
        Seq::empty()
    } else {
        keys_text(hs.drop_last()) + hs.last()
    }
}

/// Without unary operator keys and `=`, the history is written as the keys one
/// after the other (without the better symbols).
pub proof fn lemma_plain_history_is_keys(hs: Seq<Seq<char>>)
    requires
        forall|i: int|
            0 <= i < hs.len() ==> #[trigger] hs[i] != seq!['='] && !(op_named(hs[i]) matches Some(op)
                && !op_is_binary(op)),
    ensures
        history_text(hs, false) == keys_text(hs),
    decreases hs.len(),
{
    if hs.len() > 0 {
        let h = hs.last();
        assert(h == hs[hs.len() - 1]);
        lemma_plain_history_is_keys(hs.drop_last());
        let st = hist_run(hs.drop_last(), false);
        assert(shown_unit(h, false) == h);
        if h.len() == 0 {
            assert(st.hist + h =~= st.hist);
        }
    }
}

/// The non-space characters of the keys, each as a key, in order.
pub open spec fn char_keys(ks: Seq<char>) -> Seq<Seq<char>>
    decreases ks.len(),
{
    if ks.len() == 0 {
        Seq::empty()
    } else if ks[0] == ' ' {
        char_keys(ks.drop_first())
    } else {
        seq![seq![ks[0]]] + char_keys(ks.drop_first())
    }
}

/// Pushes the keys in order, stopping at the first error.
pub open spec fn calculator_push_keys(c: CalculatorView, keys: Seq<Seq<char>>) -> Option<(CalculatorView, Option<Seq<char>>)>
    decreases keys.len(),
{
    if keys.len() == 0 {
        Some((c, None))
    } else {
        match calculator_push(c, keys[0]) {
            Some((w, None)) => calculator_push_keys(w, keys.drop_first()),
            other => other,
        }
    }
}

/// Pushing characters is pushing each non-space character as a key, in order,
/// stopping at the first error.
pub proof fn lemma_push_chars_is_key_pushes(c: CalculatorView, ks: Seq<char>)
    ensures
        calculator_push_chars(c, ks) == calculator_push_keys(c, char_keys(ks)),
    decreases ks.len(),
{
    if ks.len() > 0 {
        if ks[0] == ' ' {
            lemma_push_chars_is_key_pushes(c, ks.drop_first());
        } else {
            let keys = seq![seq![ks[0]]] + char_keys(ks.drop_first());
            assert(keys[0] == seq![ks[0]]);
            assert(keys.drop_first() =~= char_keys(ks.drop_first()));
            match calculator_push(c, seq![ks[0]]) {
                Some((w, None)) => {
                    lemma_push_chars_is_key_pushes(w, ks.drop_first());
                },
                _ => {},
            }
        }
    }
}

} // verus!

verus! {

/// `ms` stores the operand the calculator shows, the one the display reads:
/// the number being entered; else the operand scanned last (the intermediate
/// result); else the last result; while the number entered does not fit,
/// nothing changes. `m+` and `m-` add that operand to the memory (zero when
/// clear) and take it from it.
pub proof fn lemma_memory_keys_take_the_shown_operand(c: CalculatorView)
    ensures
        ({
            let shown = match c.entering {
                EnteringState::Integer(i) => Some(TermView::Number(decimal(i))),
                EnteringState::Decimal(i, d) => Some(
                    TermView::Number(decimal(i) + seq!['.'] + if d.len() == 0 { seq!['0'] } else { d }),
                ),
                EnteringState::Not => Some(
                    if c.calc.scanned.len() > 0 { c.calc.scanned[c.calc.scanned.len() - 1] } else { c.calc.result },
                ),
                EnteringState::Error => None,
            };
            let mem = match c.memory { Some(m) => m, None => TermView::Zero };
            let ms = calculator_push(c, seq!['m', 's']);
            let mp = calculator_push(c, seq!['m', '+']);
            let mm = calculator_push(c, seq!['m', '-']);
            &&& ms is Some && mp is Some && mm is Some
            &&& ms->Some_0.0.entering == c.entering && ms->Some_0.0.calc == c.calc
            &&& ms->Some_0.0.memory == match shown { Some(t) => Some(t), None => c.memory }
            &&& mp->Some_0.0.memory == match shown {
                Some(t) => Some(TermView::Binary(Op::ADD, Box::new(mem), Box::new(t))),
                None => c.memory,
            }
            &&& mm->Some_0.0.memory == match shown {
                Some(t) => Some(TermView::Binary(Op::SUBTRACT, Box::new(mem), Box::new(t))),
                None => c.memory,
            }
        }),
{
    assert(seq!['m', 's'] != undo_key());
    assert(seq!['m', '+'] != undo_key());
    assert(seq!['m', '-'] != undo_key());
}

/// With the better symbols, an inverse trigonometric key (`asin`, `acos`,
/// `atan`) is written as its function with `⁻¹` after it: the history is the
/// one the function key would give, with `⁻¹` put in right after the
/// function's name; applied to nothing, the key is written by its own name.
pub proof fn lemma_inverse_trig_history(hs: Seq<Seq<char>>, f: Seq<char>)
    requires
        f == seq!['s', 'i', 'n'] || f == seq!['c', 'o', 's'] || f == seq!['t', 'a', 'n'],
    ensures
        ({
            let inv = seq!['a'] + f;
            let st = hist_run(hs, true);
            let t_inv = history_text(hs.push(inv), true);
            let t_f = history_text(hs.push(f), true);
            &&& marker_start(st.markers) is Some ==> exists|n: int|
                f.len() <= n <= t_f.len() && t_f.subrange(n - f.len(), n) == f && #[trigger] t_f.subrange(0, n)
                    + seq!['⁻', '¹'] + t_f.subrange(n, t_f.len() as int) == t_inv
            &&& marker_start(st.markers) is None ==> t_inv == st.hist + seq!['_'] + inv + seq!['_']
        }),
{
    let inv = seq!['a'] + f;
    lemma_trig_keys(f);
    assert(hs.push(inv).drop_last() =~= hs);
    assert(hs.push(f).drop_last() =~= hs);
    assert(hist_run(hs.push(inv), true) == hist_step(hist_run(hs, true), inv, true));
    assert(hist_run(hs.push(f), true) == hist_step(hist_run(hs, true), f, true));
    let st = hist_run(hs, true);
    if let Some((start, bracket)) = marker_start(st.markers) {
        let t_f = history_text(hs.push(f), true);
        let t_inv = history_text(hs.push(inv), true);
        let prefix = st.hist.subrange(0, start as int);
        let inside = st.hist.subrange(start as int, st.hist.len() as int);
        let n: int = (prefix.len() + f.len()) as int;
        let tail = bracketed(inside, use_bracket(UnaryBracket::IfNeeded, bracket, inside));
        assert(t_f == prefix + f + tail);
        assert(t_inv == prefix + (f + seq!['⁻', '¹']) + tail);
        assert(t_f.subrange(n - f.len(), n) =~= f);
        assert(t_f.subrange(0, n) + seq!['⁻', '¹'] + t_f.subrange(n, t_f.len() as int) =~= t_inv);
    }
}

/// The trigonometric keys and their inverses are unary operators, written
/// with the better symbols as the function, and the function with `⁻¹`.
#[verifier::rlimit(40)]
proof fn lemma_trig_keys(f: Seq<char>)
    requires
        f == seq!['s', 'i', 'n'] || f == seq!['c', 'o', 's'] || f == seq!['t', 'a', 'n'],
    ensures
        op_named(f) matches Some(op) && !op_is_binary(op),
        op_named(seq!['a'] + f) matches Some(op) && !op_is_binary(op),
        forall|x: Seq<char>| #[trigger] unary_parts(f, x, true) == (f, Seq::<char>::empty(), UnaryBracket::IfNeeded),
        forall|x: Seq<char>|
            #[trigger] unary_parts(seq!['a'] + f, x, true) == (f + seq!['⁻', '¹'], Seq::<char>::empty(), UnaryBracket::IfNeeded),
{
    if f == seq!['s', 'i', 'n'] {
        assert(seq!['a'] + f =~= seq!['a', 's', 'i', 'n']);
        assert(f + seq!['⁻', '¹'] =~= seq!['s', 'i', 'n', '⁻', '¹']);
    } else if f == seq!['c', 'o', 's'] {
        assert(seq!['a'] + f =~= seq!['a', 'c', 'o', 's']);
        assert(f + seq!['⁻', '¹'] =~= seq!['c', 'o', 's', '⁻', '¹']);
    } else {
        assert(seq!['a'] + f =~= seq!['a', 't', 'a', 'n']);
        assert(f + seq!['⁻', '¹'] =~= seq!['t', 'a', 'n', '⁻', '¹']);
    }
}

} // verus!
