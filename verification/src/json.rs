//! A streaming JSON processor: JSON text is pushed to it in pieces of any size,
//! and each value that it recognises is reported as a [`JsonEntry`] whose name
//! is the path to the value (`"nested.key"`, `"array.0"`).
//!
//! The processing is a character-by-character state machine ([`json_step`]);
//! the state lives in a [`ProcessJsonProgress`], so that pieces of one JSON
//! text can be pushed one after the other.

use vstd::prelude::*;
use vstd::utf8::*;
use vstd::string::StringSliceAdditionalSpecFns;
use crate::text::{
    chars_of, string_from_chars, trim_bounds, trim, is_whitespace, is_ws, parse_i32_text,
    parse_i32, float_literal, is_float_literal, to_decimal, decimal, i32_to_decimal,
    signed_decimal, push_str,
};

verus! {

broadcast use vstd::string::group_string_axioms;

/// The value of a JSON entry, as a plain value.
pub enum JsonValue {
    Str(Seq<char>),
    Whole(i32),
    Decimal(Seq<char>),
    Boolean(bool),
    Null,
}

/// A value of a JSON entry.
///
/// A number with a decimal point keeps the text it was written with
/// (`Decimal`): the library holds no floating-point number.
#[derive(Debug, Clone)]
pub enum JsonFieldValue {
    String(String),
    Whole(i32),
    Decimal(String),
    Boolean(bool),
    Null,
}

impl JsonFieldValue {
    pub open spec fn view(&self) -> JsonValue {
        match self {
            JsonFieldValue::String(s) => JsonValue::Str(s@),
            JsonFieldValue::Whole(v) => JsonValue::Whole(*v),
            JsonFieldValue::Decimal(s) => JsonValue::Decimal(s@),
            JsonFieldValue::Boolean(b) => JsonValue::Boolean(*b),
            JsonFieldValue::Null => JsonValue::Null,
        }
    }

    /// The value of an unquoted JSON value given its (trimmed) text: `null`,
    /// `true` or `false`; a number with a `.` that `f64::from_str` takes;
    /// a whole number that `i32::from_str` takes; else the text itself.
    pub fn new_none_str(v: String) -> (res: JsonFieldValue)
        ensures
            res@ == plain_value(v@),
    {
        let cs = chars_of(v.as_str());
        proof {
            reveal_strlit("null");
            reveal_strlit("true");
            reveal_strlit("false");
            assert("null"@ =~= seq!['n', 'u', 'l', 'l']);
            assert("true"@ =~= seq!['t', 'r', 'u', 'e']);
            assert("false"@ =~= seq!['f', 'a', 'l', 's', 'e']);
        }
        if is_word(&cs, "null") {
            JsonFieldValue::Null
        } else if is_word(&cs, "true") {
            JsonFieldValue::Boolean(true)
        } else if is_word(&cs, "false") {
            JsonFieldValue::Boolean(false)
        } else if has_dot(&cs) {
            if float_literal(&cs) {
                JsonFieldValue::Decimal(v)
            } else {
                JsonFieldValue::String(v)
            }
        } else {
            match parse_i32_text(&cs) {
                Some(n) => JsonFieldValue::Whole(n),
                None => JsonFieldValue::String(v),
            }
        }
    }

    /// The text of the value: a string as it is, a number in decimal (a decimal
    /// number as it was written), `true`/`false`, or `null`.
    pub fn to_string(&self) -> (res: String)
        ensures
            res@ == value_text(self@),
    {
        match self {
            JsonFieldValue::Null => {
                let s = String::from_str("null");
                proof {
                    reveal_strlit("null");
                    assert("null"@ =~= seq!['n', 'u', 'l', 'l']);
                }
                s
            },
            JsonFieldValue::Boolean(b) => {
                if *b {
                    let s = String::from_str("true");
                    proof {
                        reveal_strlit("true");
                        assert("true"@ =~= seq!['t', 'r', 'u', 'e']);
                    }
                    s
                } else {
                    let s = String::from_str("false");
                    proof {
                        reveal_strlit("false");
                        assert("false"@ =~= seq!['f', 'a', 'l', 's', 'e']);
                    }
                    s
                }
            },
            JsonFieldValue::Whole(v) => i32_to_decimal(*v),
            JsonFieldValue::Decimal(s) => s.clone(),
            JsonFieldValue::String(s) => s.clone(),
        }
    }
}

/// What an unquoted JSON value stands for, given its trimmed text.
pub open spec fn plain_value(v: Seq<char>) -> JsonValue {
    if v == seq!['n', 'u', 'l', 'l'] {
        JsonValue::Null
    } else if v == seq!['t', 'r', 'u', 'e'] {
        JsonValue::Boolean(true)
    } else if v == seq!['f', 'a', 'l', 's', 'e'] {
        JsonValue::Boolean(false)
    } else if v.contains('.') {
        if is_float_literal(v) {
            JsonValue::Decimal(v)
        } else {
            JsonValue::Str(v)
        }
    } else {
        match parse_i32(v) {
            Some(n) => JsonValue::Whole(n),
            None => JsonValue::Str(v),
        }
    }
}

/// The text of a value.
pub open spec fn value_text(v: JsonValue) -> Seq<char> {
    match v {
        JsonValue::Str(s) => s,
        JsonValue::Whole(n) => signed_decimal(n as int),
        JsonValue::Decimal(s) => s,
        JsonValue::Boolean(b) => if b { seq!['t', 'r', 'u', 'e'] } else { seq!['f', 'a', 'l', 's', 'e'] },
        JsonValue::Null => seq!['n', 'u', 'l', 'l'],
    }
}

/// Whether the characters are those of the word.
fn is_word(cs: &Vec<char>, w: &str) -> (res: bool)
    ensures
        res == (cs@ == w@),
{
    let ws = chars_of(w);
    if cs.len() != ws.len() {
        return false;
    }
    let mut i: usize = 0;
    while i < cs.len()
        invariant
            i <= cs@.len(),
            cs@.len() == ws@.len(),
            ws@ == w@,
            cs@.subrange(0, i as int) == ws@.subrange(0, i as int),
        decreases cs@.len() - i,
    {
        if cs[i] != ws[i] {
            assert(cs@[i as int] != w@[i as int]);
            return false;
        }
        i = i + 1;
        assert(cs@.subrange(0, i as int) =~= ws@.subrange(0, i as int)) by {
            assert(forall|j: int| 0 <= j < i - 1 ==> cs@.subrange(0, i - 1)[j] == cs@.subrange(0, i as int)[j]);
            assert(forall|j: int| 0 <= j < i - 1 ==> ws@.subrange(0, i - 1)[j] == ws@.subrange(0, i as int)[j]);
        }
    }
    assert(cs@ =~= cs@.subrange(0, i as int));
    assert(ws@ =~= ws@.subrange(0, i as int));
    true
}

/// Whether the characters hold a `.`.
fn has_dot(cs: &Vec<char>) -> (res: bool)
    ensures
        res == cs@.contains('.'),
{
    let mut i: usize = 0;
    while i < cs.len()
        invariant
            i <= cs@.len(),
            forall|j: int| 0 <= j < i ==> cs@[j] != '.',
        decreases cs@.len() - i,
    {
        if cs[i] == '.' {
            assert(cs@[i as int] == '.');
            return true;
        }
        i = i + 1;
    }
    false
}

} // verus!

verus! {

/// The most items an object or array may hold (the count of an `i16`).
pub const MAX_ITEMS: u16 = 32767;

/// Where the processing of one object or array stands.
#[derive(Clone, Copy, PartialEq, Eq, Structural, Debug)]
pub enum JsonPhase {
    /// Before the opening `{` of the outermost object.
    Start,
    /// Inside an object, before a key (or the closing `}`).
    Open,
    /// Inside the quotes of a key.
    Key,
    /// After a key, before its `:`.
    Colon,
    /// Before a value.
    Value,
    /// Inside a quoted string value.
    Str,
    /// Right after a `\` in a quoted string value.
    StrEscape,
    /// Inside an unquoted value (a number, `true`, `false`, `null`).
    Plain,
    /// After a value, before the `,` or the closing bracket.
    Sep,
}

/// One object or array being processed, as plain values.
pub struct FrameView {
    /// The path of the object or array (empty for the outermost object).
    pub name: Seq<char>,
    pub arr: bool,
    pub phase: JsonPhase,
    /// The key of the current item (for an array, its index in decimal).
    pub key: Seq<char>,
    /// The text of the key or value being read.
    pub acc: Seq<char>,
    /// How many items were read so far.
    pub count: nat,
}

/// The state of the processing, as plain values: the stack of objects and
/// arrays being read (the innermost last), whether the outermost object is
/// complete, whether the input was refused, and what came after the end.
pub struct JsonState {
    pub frames: Seq<FrameView>,
    pub done: bool,
    pub failed: bool,
    pub rest: Seq<char>,
}

/// A recognised entry: its path and its value.
pub type EntryView = (Seq<char>, JsonValue);

/// What a character does to the innermost object or array.
pub enum FrameStep {
    Stay(FrameView),
    Emit(FrameView, EntryView),
    Nest(FrameView, FrameView),
    Close,
    EmitClose(EntryView),
    Fail,
}

pub open spec fn start_frame() -> FrameView {
    FrameView { name: Seq::empty(), arr: false, phase: JsonPhase::Start, key: Seq::empty(), acc: Seq::empty(), count: 0 }
}

/// The state before any input.
pub open spec fn start_state() -> JsonState {
    JsonState { frames: seq![start_frame()], done: false, failed: false, rest: Seq::empty() }
}

/// The path of the current item of a frame.
pub open spec fn full_name(f: FrameView) -> Seq<char> {
    if f.name.len() == 0 {
        f.key
    } else {
        f.name + seq!['.'] + f.key
    }
}

pub open spec fn close_char(f: FrameView) -> char {
    if f.arr { ']' } else { '}' }
}

pub open spec fn with_phase(f: FrameView, p: JsonPhase) -> FrameView {
    FrameView { phase: p, ..f }
}

pub open spec fn with_acc(f: FrameView, p: JsonPhase, acc: Seq<char>) -> FrameView {
    FrameView { phase: p, acc: acc, ..f }
}

/// Ready for the next item: an object waits for a key, an array names the item
/// by its index and waits for the value.
pub open spec fn open_frame(f: FrameView) -> FrameView {
    if f.arr {
        FrameView { phase: JsonPhase::Value, key: decimal(f.count), acc: Seq::empty(), ..f }
    } else {
        FrameView { phase: JsonPhase::Open, acc: Seq::empty(), ..f }
    }
}

/// A nested object or array, named by the path of the item it is the value of.
pub open spec fn child_frame(name: Seq<char>, arr: bool) -> FrameView {
    open_frame(FrameView { name: name, arr: arr, phase: JsonPhase::Open, key: Seq::empty(), acc: Seq::empty(), count: 0 })
}

/// The end of an item: one more counted.
pub open spec fn counted(f: FrameView, p: JsonPhase) -> FrameView {
    FrameView { phase: p, acc: Seq::empty(), count: f.count + 1, ..f }
}

/// A character inside an unquoted value: a `,` or the closing bracket ends it,
/// and its trimmed text, when not empty, is an entry.
pub open spec fn plain_step(f: FrameView, c: char) -> FrameStep {
    if c == ',' || c == close_char(f) {
        if f.count >= MAX_ITEMS {
            FrameStep::Fail
        } else {
            let v = trim(f.acc);
            let e = (full_name(f), plain_value(v));
            if c == ',' {
                let g = open_frame(counted(f, JsonPhase::Sep));
                if v.len() > 0 { FrameStep::Emit(g, e) } else { FrameStep::Stay(g) }
            } else {
                if v.len() > 0 { FrameStep::EmitClose(e) } else { FrameStep::Close }
            }
        }
    } else {
        FrameStep::Stay(with_acc(f, JsonPhase::Plain, f.acc.push(c)))
    }
}

/// What one character does to the innermost object or array.
pub open spec fn frame_step(f: FrameView, c: char) -> FrameStep {
    match f.phase {
        JsonPhase::Start => if c == '{' { FrameStep::Stay(with_phase(f, JsonPhase::Open)) } else { FrameStep::Stay(f) },
        JsonPhase::Open => {
            if c == close_char(f) {
                FrameStep::Close
            } else if c == '"' {
                FrameStep::Stay(with_acc(f, JsonPhase::Key, Seq::empty()))
            } else {
                FrameStep::Stay(f)
            }
        },
        JsonPhase::Key => {
            if c == '"' {
                FrameStep::Stay(FrameView { phase: JsonPhase::Colon, key: f.acc, acc: Seq::empty(), ..f })
            } else {
                FrameStep::Stay(with_acc(f, JsonPhase::Key, f.acc.push(c)))
            }
        },
        JsonPhase::Colon => if c == ':' { FrameStep::Stay(with_phase(f, JsonPhase::Value)) } else { FrameStep::Stay(f) },
        JsonPhase::Value => {
            if is_ws(c) {
                FrameStep::Stay(f)
            } else if c == '{' || c == '[' {
                if f.count >= MAX_ITEMS {
                    FrameStep::Fail
                } else {
                    FrameStep::Nest(counted(f, JsonPhase::Sep), child_frame(full_name(f), c == '['))
                }
            } else if c == '"' {
                FrameStep::Stay(with_acc(f, JsonPhase::Str, Seq::empty()))
            } else {
                plain_step(with_acc(f, JsonPhase::Plain, Seq::empty()), c)
            }
        },
        JsonPhase::Str => {
            if c == '\\' {
                FrameStep::Stay(with_phase(f, JsonPhase::StrEscape))
            } else if c == '"' {
                if f.count >= MAX_ITEMS {
                    FrameStep::Fail
                } else {
                    FrameStep::Emit(counted(f, JsonPhase::Sep), (full_name(f), JsonValue::Str(f.acc)))
                }
            } else {
                FrameStep::Stay(with_acc(f, JsonPhase::Str, f.acc.push(c)))
            }
        },
        JsonPhase::StrEscape => FrameStep::Stay(with_acc(f, JsonPhase::Str, f.acc.push(c))),
        JsonPhase::Plain => plain_step(f, c),
        JsonPhase::Sep => {
            if c == ',' {
                FrameStep::Stay(open_frame(f))
            } else if c == close_char(f) {
                FrameStep::Close
            } else {
                FrameStep::Stay(f)
            }
        },
    }
}

pub open spec fn closed_state(st: JsonState, below: Seq<FrameView>) -> JsonState {
    JsonState { frames: below, done: below.len() == 0, ..st }
}

/// What one character does to the state, with the entry it completes, if any.
/// After the end of the outermost object characters are kept as the rest;
/// once refused, the input changes nothing.
pub open spec fn json_step(st: JsonState, c: char) -> (JsonState, Option<EntryView>) {
    if st.failed || st.frames.len() == 0 && !st.done {
        (st, None)
    } else if st.done {
        (JsonState { rest: st.rest.push(c), ..st }, None)
    } else {
        let f = st.frames.last();
        let below = st.frames.drop_last();
        match frame_step(f, c) {
            FrameStep::Stay(g) => (JsonState { frames: below.push(g), ..st }, None),
            FrameStep::Emit(g, e) => (JsonState { frames: below.push(g), ..st }, Some(e)),
            FrameStep::Nest(g, h) => (JsonState { frames: below.push(g).push(h), ..st }, None),
            FrameStep::Close => (closed_state(st, below), None),
            FrameStep::EmitClose(e) => (closed_state(st, below), Some(e)),
            FrameStep::Fail => (JsonState { frames: below, failed: true, ..st }, None),
        }
    }
}

pub open spec fn opt_seq(e: Option<EntryView>) -> Seq<EntryView> {
    match e {
        Some(x) => seq![x],
        None => Seq::empty(),
    }
}

/// The state after a sequence of characters, and the entries they complete, in order.
pub open spec fn json_run(st: JsonState, cs: Seq<char>) -> (JsonState, Seq<EntryView>)
    decreases cs.len(),
{
    if cs.len() == 0 {
        (st, Seq::empty())
    } else {
        let (s1, out1) = json_run(st, cs.drop_last());
        let (s2, e) = json_step(s1, cs.last());
        (s2, out1 + opt_seq(e))
    }
}

} // verus!

verus! {

/// Reading a text in two pieces goes as reading it whole: the state after both
/// is the state after the whole, and the entries are those of the first piece
/// followed by those of the second.
pub proof fn lemma_json_run_append(st: JsonState, a: Seq<char>, b: Seq<char>)
    ensures
        json_run(st, a + b) == (
            json_run(json_run(st, a).0, b).0,
            json_run(st, a).1 + json_run(json_run(st, a).0, b).1,
        ),
    decreases b.len(),
{
    if b.len() == 0 {
        assert(a + b =~= a);
        assert(json_run(st, a).1 + Seq::<EntryView>::empty() =~= json_run(st, a).1);
    } else {
        lemma_json_run_append(st, a, b.drop_last());
        assert((a + b).drop_last() =~= a + b.drop_last());
        assert((a + b).last() == b.last());
        let mid = json_run(st, a);
        let r = json_run(mid.0, b.drop_last());
        let e = json_step(r.0, b.last()).1;
        assert(mid.1 + r.1 + opt_seq(e) =~= mid.1 + (r.1 + opt_seq(e)));
    }
}

} // verus!

verus! {

/// A recognised JSON entry: the path to the value (keys and array indexes
/// joined by `.`) and the value.
#[derive(Debug, Clone)]
pub struct JsonEntry {
    pub field_name: String,
    pub field_value: JsonFieldValue,
}

impl JsonEntry {
    pub open spec fn view(&self) -> EntryView {
        (self.field_name@, self.field_value@)
    }
}

/// The entries as plain values.
pub open spec fn entries_view(es: Seq<JsonEntry>) -> Seq<EntryView> {
    es.map_values(|e: JsonEntry| e@)
}

/// One object or array being processed.
#[derive(Debug)]
struct JsonFrame {
    name: Vec<char>,
    for_array: bool,
    phase: JsonPhase,
    key: Vec<char>,
    acc: Vec<char>,
    count: u16,
}

impl JsonFrame {
    spec fn view(&self) -> FrameView {
        FrameView {
            name: self.name@,
            arr: self.for_array,
            phase: self.phase,
            key: self.key@,
            acc: self.acc@,
            count: self.count as nat,
        }
    }
}

/// What a character does to the innermost object or array.
enum StepOut {
    Stay(JsonFrame),
    Emit(JsonFrame, JsonEntry),
    Nest(JsonFrame, JsonFrame),
    Close,
    EmitClose(JsonEntry),
    Fail,
}

impl StepOut {
    spec fn view(&self) -> FrameStep {
        match self {
            StepOut::Stay(f) => FrameStep::Stay(f.view()),
            StepOut::Emit(f, e) => FrameStep::Emit(f.view(), e@),
            StepOut::Nest(f, g) => FrameStep::Nest(f.view(), g.view()),
            StepOut::Close => FrameStep::Close,
            StepOut::EmitClose(e) => FrameStep::EmitClose(e@),
            StepOut::Fail => FrameStep::Fail,
        }
    }
}

/// A copy of the characters.
fn copy_chars(v: &Vec<char>) -> (res: Vec<char>)
    ensures
        res@ == v@,
{
    let mut res: Vec<char> = Vec::new();
    let mut i: usize = 0;
    while i < v.len()
        invariant
            i <= v@.len(),
            res@ == v@.subrange(0, i as int),
        decreases v@.len() - i,
    {
        res.push(v[i]);
        i = i + 1;
        assert(res@ =~= v@.subrange(0, i as int));
    }
    assert(v@.subrange(0, i as int) =~= v@);
    res
}

/// The characters from `a` up to `b`.
fn sub_chars(v: &Vec<char>, a: usize, b: usize) -> (res: Vec<char>)
    requires
        a <= b <= v@.len(),
    ensures
        res@ == v@.subrange(a as int, b as int),
{
    let mut res: Vec<char> = Vec::new();
    let mut i: usize = a;
    while i < b
        invariant
            a <= i <= b <= v@.len(),
            res@ == v@.subrange(a as int, i as int),
        decreases b - i,
    {
        res.push(v[i]);
        i = i + 1;
        assert(res@ =~= v@.subrange(a as int, i as int));
    }
    res
}

/// Appends the characters of `src` to `dst`.
fn extend_chars(dst: &mut Vec<char>, src: &Vec<char>)
    ensures
        final(dst)@ == old(dst)@ + src@,
{
    let mut i: usize = 0;
    while i < src.len()
        invariant
            i <= src@.len(),
            dst@ == old(dst)@ + src@.subrange(0, i as int),
        decreases src@.len() - i,
    {
        dst.push(src[i]);
        i = i + 1;
        assert(dst@ =~= old(dst)@ + src@.subrange(0, i as int));
    }
    assert(src@.subrange(0, i as int) =~= src@);
}

/// The decimal text of a count.
fn count_text(n: u16) -> (res: Vec<char>)
    ensures
        res@ == decimal(n as nat),
{
    let s = to_decimal(n as u128);
    chars_of(s.as_str())
}

impl JsonFrame {
    /// The path of the current item.
    fn full_name(&self) -> (res: Vec<char>)
        ensures
            res@ == full_name(self.view()),
    {
        let mut res = copy_chars(&self.name);
        if self.name.len() > 0 {
            res.push('.');
            extend_chars(&mut res, &self.key);
        } else {
            res = copy_chars(&self.key);
        }
        res
    }

    fn close_char(&self) -> (res: char)
        ensures
            res == close_char(self.view()),
    {
        if self.for_array { ']' } else { '}' }
    }

    /// Ready for the next item.
    fn open(self) -> (res: JsonFrame)
        ensures
            res.view() == open_frame(self.view()),
    {
        if self.for_array {
            let key = count_text(self.count);
            JsonFrame { phase: JsonPhase::Value, key: key, acc: Vec::new(), ..self }
        } else {
            JsonFrame { phase: JsonPhase::Open, acc: Vec::new(), ..self }
        }
    }

    /// The end of an item.
    fn counted(self, p: JsonPhase) -> (res: JsonFrame)
        requires
            self.count < MAX_ITEMS,
        ensures
            res.view() == counted(self.view(), p),
    {
        JsonFrame { phase: p, acc: Vec::new(), count: self.count + 1, ..self }
    }

    /// The entry of the current item with the given value.
    fn entry(&self, v: JsonFieldValue) -> (res: JsonEntry)
        ensures
            res@ == (full_name(self.view()), v@),
    {
        let name = self.full_name();
        JsonEntry { field_name: string_from_chars(name.as_slice()), field_value: v }
    }
}

/// What a character inside an unquoted value does.
fn plain_step_exec(f: JsonFrame, c: char) -> (res: StepOut)
    ensures
        res.view() == plain_step(f.view(), c),
{
    let close = f.close_char();
    if c == ',' || c == close {
        if f.count >= MAX_ITEMS {
            StepOut::Fail
        } else {
            let (a, b) = trim_bounds(&f.acc);
            let text = sub_chars(&f.acc, a, b);
            let has_value = b > a;
            let e = f.entry(JsonFieldValue::new_none_str(string_from_chars(text.as_slice())));
            if c == ',' {
                let g = f.counted(JsonPhase::Sep).open();
                if has_value { StepOut::Emit(g, e) } else { StepOut::Stay(g) }
            } else {
                if has_value { StepOut::EmitClose(e) } else { StepOut::Close }
            }
        }
    } else {
        let mut f = f;
        f.acc.push(c);
        f.phase = JsonPhase::Plain;
        StepOut::Stay(f)
    }
}

} // verus!

verus! {

/// What one character does to the innermost object or array.
fn frame_step_exec(f: JsonFrame, c: char) -> (res: StepOut)
    ensures
        res.view() == frame_step(f.view(), c),
{
    let mut f = f;
    match f.phase {
        JsonPhase::Start => {
            if c == '{' {
                f.phase = JsonPhase::Open;
            }
            StepOut::Stay(f)
        },
        JsonPhase::Open => {
            if c == f.close_char() {
                StepOut::Close
            } else if c == '"' {
                f.phase = JsonPhase::Key;
                f.acc = Vec::new();
                StepOut::Stay(f)
            } else {
                StepOut::Stay(f)
            }
        },
        JsonPhase::Key => {
            if c == '"' {
                let mut key: Vec<char> = Vec::new();
                std::mem::swap(&mut key, &mut f.acc);
                f.key = key;
                f.phase = JsonPhase::Colon;
                StepOut::Stay(f)
            } else {
                f.acc.push(c);
                StepOut::Stay(f)
            }
        },
        JsonPhase::Colon => {
            if c == ':' {
                f.phase = JsonPhase::Value;
            }
            StepOut::Stay(f)
        },
        JsonPhase::Value => {
            if is_whitespace(c) {
                StepOut::Stay(f)
            } else if c == '{' || c == '[' {
                if f.count >= MAX_ITEMS {
                    StepOut::Fail
                } else {
                    let name = f.full_name();
                    let child = JsonFrame {
                        name: name,
                        for_array: c == '[',
                        phase: JsonPhase::Open,
                        key: Vec::new(),
                        acc: Vec::new(),
                        count: 0,
                    };
                    StepOut::Nest(f.counted(JsonPhase::Sep), child.open())
                }
            } else if c == '"' {
                f.phase = JsonPhase::Str;
                f.acc = Vec::new();
                StepOut::Stay(f)
            } else {
                f.phase = JsonPhase::Plain;
                f.acc = Vec::new();
                plain_step_exec(f, c)
            }
        },
        JsonPhase::Str => {
            if c == '\\' {
                f.phase = JsonPhase::StrEscape;
                StepOut::Stay(f)
            } else if c == '"' {
                if f.count >= MAX_ITEMS {
                    StepOut::Fail
                } else {
                    let text = string_from_chars(f.acc.as_slice());
                    let e = f.entry(JsonFieldValue::String(text));
                    StepOut::Emit(f.counted(JsonPhase::Sep), e)
                }
            } else {
                f.acc.push(c);
                StepOut::Stay(f)
            }
        },
        JsonPhase::StrEscape => {
            f.acc.push(c);
            f.phase = JsonPhase::Str;
            StepOut::Stay(f)
        },
        JsonPhase::Plain => plain_step_exec(f, c),
        JsonPhase::Sep => {
            if c == ',' {
                StepOut::Stay(f.open())
            } else if c == f.close_char() {
                StepOut::Close
            } else {
                StepOut::Stay(f)
            }
        },
    }
}

} // verus!

verus! {

/// Where the processing of a JSON text stands, kept between pieces.
///
/// Once the outermost object is complete, what came after it is kept as the
/// remaining text; the next piece pushed starts a new JSON text with that
/// remaining text in front of it.
#[derive(Debug)]
pub struct ProcessJsonProgress {
    frames: Vec<JsonFrame>,
    done: bool,
    failed: bool,
    remaining: Vec<char>,
    pending_bytes: Vec<u8>,
}

/// The state a piece is read from and the text that is read: after a complete
/// JSON text, a new one that starts with the remaining text.
pub open spec fn resume(st: JsonState, piece: Seq<char>) -> (JsonState, Seq<char>) {
    if st.done {
        (start_state(), st.rest + piece)
    } else {
        (st, piece)
    }
}

/// The state after a piece, and the entries it completes.
pub open spec fn process_piece(st: JsonState, piece: Seq<char>) -> (JsonState, Seq<EntryView>) {
    json_run(resume(st, piece).0, resume(st, piece).1)
}

impl ProcessJsonProgress {
    pub closed spec fn view(&self) -> JsonState {
        JsonState {
            frames: self.frames@.map_values(|f: JsonFrame| f.view()),
            done: self.done,
            failed: self.failed,
            rest: self.remaining@,
        }
    }

    /// The bytes of a character that was cut off at the end of the last piece of bytes.
    pub closed spec fn pending(&self) -> Seq<u8> {
        self.pending_bytes@
    }

    /// The progress before any input.
    pub fn new() -> (res: ProcessJsonProgress)
        ensures
            res@ == start_state(),
            res.pending() == Seq::<u8>::empty(),
    {
        let mut frames: Vec<JsonFrame> = Vec::new();
        frames.push(JsonFrame {
            name: Vec::new(),
            for_array: false,
            phase: JsonPhase::Start,
            key: Vec::new(),
            acc: Vec::new(),
            count: 0,
        });
        let res = ProcessJsonProgress {
            frames: frames,
            done: false,
            failed: false,
            remaining: Vec::new(),
            pending_bytes: Vec::new(),
        };
        assert(res@.frames =~= seq![start_frame()]);
        res
    }

    /// Whether the outermost object is complete.
    pub fn is_done(&self) -> (res: bool)
        ensures
            res == self@.done,
    {
        self.done
    }

    /// The text that came after the end of the outermost object.
    pub fn get_remaining(&self) -> (res: String)
        ensures
            res@ == self@.rest,
    {
        string_from_chars(self.remaining.as_slice())
    }

    /// Reads one character.
    fn step(&mut self, c: char) -> (res: Option<JsonEntry>)
        ensures
            final(self)@ == json_step(old(self)@, c).0,
            opt_seq(json_step(old(self)@, c).1) == (match res {
                Some(e) => seq![e@],
                None => Seq::<EntryView>::empty(),
            }),
            final(self).pending() == old(self).pending(),
    {
        if self.failed || self.frames.len() == 0 && !self.done {
            return None;
        }
        if self.done {
            self.remaining.push(c);
            return None;
        }
        let ghost st = self@;
        let f = self.frames.pop().unwrap();
        proof {
            assert(self.frames@.map_values(|f: JsonFrame| f.view()) =~= st.frames.drop_last());
        }
        match frame_step_exec(f, c) {
            StepOut::Stay(g) => {
                self.frames.push(g);
                assert(self@.frames =~= st.frames.drop_last().push(g.view()));
                None
            },
            StepOut::Emit(g, e) => {
                self.frames.push(g);
                assert(self@.frames =~= st.frames.drop_last().push(g.view()));
                Some(e)
            },
            StepOut::Nest(g, h) => {
                self.frames.push(g);
                self.frames.push(h);
                assert(self@.frames =~= st.frames.drop_last().push(g.view()).push(h.view()));
                None
            },
            StepOut::Close => {
                self.done = self.frames.len() == 0;
                None
            },
            StepOut::EmitClose(e) => {
                self.done = self.frames.len() == 0;
                Some(e)
            },
            StepOut::Fail => {
                self.failed = true;
                None
            },
        }
    }
}

} // verus!

verus! {

impl ProcessJsonProgress {
    /// Reads the characters in order, collecting the entries they complete.
    fn run(&mut self, cs: &Vec<char>) -> (res: Vec<JsonEntry>)
        ensures
            final(self)@ == json_run(old(self)@, cs@).0,
            entries_view(res@) == json_run(old(self)@, cs@).1,
            final(self).pending() == old(self).pending(),
    {
        let mut out: Vec<JsonEntry> = Vec::new();
        let mut i: usize = 0;
        while i < cs.len()
            invariant
                i <= cs@.len(),
                self@ == json_run(old(self)@, cs@.subrange(0, i as int)).0,
                entries_view(out@) == json_run(old(self)@, cs@.subrange(0, i as int)).1,
                self.pending() == old(self).pending(),
            decreases cs@.len() - i,
        {
            let ghost before = self@;
            let e = self.step(cs[i]);
            match e {
                Some(e) => {
                    out.push(e);
                },
                None => {},
            }
            proof {
                let pre = cs@.subrange(0, i as int);
                let next = cs@.subrange(0, i + 1);
                assert(next.drop_last() =~= pre);
                assert(next.last() == cs@[i as int]);
                assert(entries_view(out@) =~= json_run(old(self)@, pre).1 + opt_seq(json_step(before, cs@[i as int]).1));
            }
            i = i + 1;
        }
        assert(cs@.subrange(0, i as int) =~= cs@);
        out
    }

    /// Pushes a piece of JSON text: the characters are read after those pushed
    /// before, or, when the last JSON text is complete, a new JSON text that starts
    /// with the remaining text is read. Gives the entries completed by the piece,
    /// or an error when an object or array holds more than [`MAX_ITEMS`] items.
    pub fn process_piece(&mut self, piece: &str) -> (res: Result<Vec<JsonEntry>, String>)
        ensures
            final(self)@ == process_piece(old(self)@, piece@).0,
            final(self).pending() == old(self).pending(),
            match res {
                Ok(es) => !final(self)@.failed && entries_view(es@) == process_piece(old(self)@, piece@).1,
                Err(m) => final(self)@.failed && m@ == too_many_items_message(),
            },
    {
        let cs = chars_of(piece);
        self.process_chars(cs)
    }

    fn process_chars(&mut self, cs: Vec<char>) -> (res: Result<Vec<JsonEntry>, String>)
        ensures
            final(self)@ == process_piece(old(self)@, cs@).0,
            final(self).pending() == old(self).pending(),
            match res {
                Ok(es) => !final(self)@.failed && entries_view(es@) == process_piece(old(self)@, cs@).1,
                Err(m) => final(self)@.failed && m@ == too_many_items_message(),
            },
    {
        let input = if self.done {
            let mut input = Vec::new();
            std::mem::swap(&mut input, &mut self.remaining);
            extend_chars(&mut input, &cs);
            let mut pending: Vec<u8> = Vec::new();
            std::mem::swap(&mut pending, &mut self.pending_bytes);
            *self = ProcessJsonProgress::new();
            self.pending_bytes = pending;
            input
        } else {
            cs
        };
        let out = self.run(&input);
        if self.failed {
            Err(too_many_items())
        } else {
            Ok(out)
        }
    }
}

} // verus!

verus! {

/// The message of the error given when an object or array holds too many items.
pub open spec fn too_many_items_message() -> Seq<char> {
    "too many items in a JSON object or array"@
}

fn too_many_items() -> (res: String)
    ensures
        res@ == too_many_items_message(),
{
    String::from_str("too many items in a JSON object or array")
}

} // verus!

verus! {

/// Whether `up` is where the valid UTF-8 at the start of `bytes` ends: the bytes
/// before it are valid UTF-8, and no longer start of them is.
pub open spec fn valid_up_to(bytes: Seq<u8>, up: int) -> bool {
    &&& 0 <= up <= bytes.len()
    &&& valid_utf8(bytes.subrange(0, up))
    &&& forall|k: int| up < k <= bytes.len() ==> !valid_utf8(#[trigger] bytes.subrange(0, k))
}

/// Bytes that are the start of valid UTF-8: more bytes after them can make them
/// valid (such as the first bytes of a character that a piece cuts off).
pub open spec fn utf8_cut_short(bytes: Seq<u8>) -> bool {
    exists|more: Seq<u8>| #[trigger] valid_utf8(bytes + more)
}

/// Where the valid UTF-8 at the start of `bytes` ends (see [`valid_up_to`]).
pub open spec fn valid_end(bytes: Seq<u8>) -> int {
    choose|up: int| valid_up_to(bytes, up)
}

/// The longest valid start of bytes is one.
proof fn lemma_valid_up_to_unique(bytes: Seq<u8>, u1: int, u2: int)
    requires
        valid_up_to(bytes, u1),
        valid_up_to(bytes, u2),
    ensures
        u1 == u2,
{
    if u1 < u2 {
        assert(!valid_utf8(bytes.subrange(0, u2)));
    } else if u2 < u1 {
        assert(!valid_utf8(bytes.subrange(0, u1)));
    }
}

/// What pushing a piece of JSON bytes does, given the state before and the bytes
/// kept from the pieces before: the state after, the bytes kept, and the entries
/// recognised; `None` when the piece is refused. The kept bytes and the piece
/// are read together: as a whole when they are UTF-8; else up to where the
/// valid UTF-8 ends, keeping the rest, when more bytes could complete it (a
/// character that the piece cuts off); else the piece is refused.
pub open spec fn bytes_step(st: JsonState, kept: Seq<u8>, bytes: Seq<u8>) -> Option<
    (JsonState, Seq<u8>, Seq<EntryView>),
> {
    let all = kept + bytes;
    if valid_utf8(all) {
        let r = process_piece(st, decode_utf8(all));
        Some((r.0, Seq::empty(), r.1))
    } else {
        let up = valid_end(all);
        if utf8_cut_short(all.subrange(up, all.len() as int)) {
            let r = process_piece(st, decode_utf8(all.subrange(0, up)));
            Some((r.0, all.subrange(up, all.len() as int), r.1))
        } else {
            None
        }
    }
}

/// Decodes UTF-8 (`std::str::from_utf8`). The text when the bytes are valid
/// UTF-8; else what the `Utf8Error` tells: `valid_up_to`, the longest valid
/// start, and `error_len`, which is `None` exactly when the input ends
/// unexpectedly, that is when the 1 to 3 bytes after the valid start are the
/// start of a character that more bytes could complete, and `Some` when an
/// unexpected byte comes.
#[verifier::external_body]
fn decode_utf8_bytes(bytes: &[u8]) -> (res: Result<&str, (usize, Option<usize>)>)
    ensures
        match res {
            Ok(s) => valid_utf8(bytes@) && s.spec_bytes() == bytes@,
            Err((up, len)) => {
                &&& !valid_utf8(bytes@)
                &&& valid_up_to(bytes@, up as int)
                &&& up < bytes@.len()
                &&& (len is None ==> bytes@.len() - up <= 3)
                &&& (len is None <==> utf8_cut_short(bytes@.subrange(up as int, bytes@.len() as int)))
            },
        },
{
    match std::str::from_utf8(bytes) {
        Ok(s) => Ok(s),
        Err(e) => Err((e.valid_up_to(), e.error_len())),
    }
}

/// The message of the error given for bytes that are not UTF-8.
pub open spec fn invalid_utf8_message() -> Seq<char> {
    "invalid UTF-8 in the JSON bytes"@
}

fn invalid_utf8() -> (res: String)
    ensures
        res@ == invalid_utf8_message(),
{
    String::from_str("invalid UTF-8 in the JSON bytes")
}

/// The characters that valid UTF-8 bytes encode.
fn decoded_chars(bytes: &[u8]) -> (res: Vec<char>)
    requires
        valid_utf8(bytes@),
    ensures
        res@ == decode_utf8(bytes@),
{
    match decode_utf8_bytes(bytes) {
        Ok(s) => {
            proof {
                encode_utf8_decode_utf8(s@);
            }
            chars_of(s)
        },
        Err(_) => {
            assert(false);
            Vec::new()
        },
    }
}

impl ProcessJsonProgress {
    /// Pushes a piece of JSON text given as UTF-8 bytes (see [`bytes_step`]).
    /// The bytes of a character that the piece cuts off (at most 3) are kept
    /// for the next piece. Refused, with the progress unchanged, when the bytes
    /// are not UTF-8 and no more bytes could make them so.
    pub fn process_bytes(&mut self, bytes: &[u8]) -> (res: Result<Vec<JsonEntry>, String>)
        ensures
            match bytes_step(old(self)@, old(self).pending(), bytes@) {
                Some((st, kept, es)) => {
                    &&& final(self)@ == st
                    &&& final(self).pending() == kept
                    &&& kept.len() <= 3
                    &&& match res {
                        Ok(r) => !st.failed && entries_view(r@) == es,
                        Err(m) => st.failed && m@ == too_many_items_message(),
                    }
                },
                None => {
                    &&& final(self)@ == old(self)@
                    &&& final(self).pending() == old(self).pending()
                    &&& res matches Err(m) && m@ == invalid_utf8_message()
                },
            },
    {
        let mut all: Vec<u8> = Vec::new();
        std::mem::swap(&mut all, &mut self.pending_bytes);
        let ghost before = all@;
        let kept = all.len();
        all.extend_from_slice(bytes);
        proof {
            assert(all@ =~= before + bytes@);
        }
        match decode_utf8_bytes(all.as_slice()) {
            Ok(s) => {
                proof {
                    encode_utf8_decode_utf8(s@);
                }
                let cs = chars_of(s);
                self.process_chars(cs)
            },
            Err((up, None)) => {
                proof {
                    lemma_valid_up_to_unique(all@, up as int, valid_end(all@));
                }
                let tail = all.split_off(up);
                let cs = decoded_chars(all.as_slice());
                self.pending_bytes = tail;
                self.process_chars(cs)
            },
            Err((up, Some(_))) => {
                proof {
                    lemma_valid_up_to_unique(all@, up as int, valid_end(all@));
                }
                all.truncate(kept);
                self.pending_bytes = all;
                Err(invalid_utf8())
            },
        }
    }
}

} // verus!

verus! {

/// Receives the entries that a [`DumbJsonProcessor`] recognises, as soon as
/// they come.
pub trait JsonEntryHandler {
    fn handle_json_entry(&mut self, json_entry: &JsonEntry);
}

/// A streaming JSON processor: JSON text is pushed in pieces, and every value
/// recognised is handed to the handler as a [`JsonEntry`], named by its path:
/// for
/// ```json
/// { "simple_key": "simple_value", "nested": { "nested_key": "nested_value" },
///   "array": [ "item0", "item1" ], "obj_array": [ { "obj_key": "obj0" } ] }
/// ```
/// the entries are `simple_key`, `nested.nested_key`, `array.0`, `array.1` and
/// `obj_array.0.obj_key`.
pub struct DumbJsonProcessor<'a> {
    json_entry_handler: Box<&'a mut dyn JsonEntryHandler>,
    /// the entries handed to the handler so far, in order
    handed: Ghost<Seq<EntryView>>,
}

impl<'a> DumbJsonProcessor<'a> {
    /// The handler that the processor hands the entries to.
    pub closed spec fn handler(&self) -> Box<&'a mut dyn JsonEntryHandler> {
        self.json_entry_handler
    }

    /// The entries that the processor has handed to its handler so far, one
    /// call of [`JsonEntryHandler::handle_json_entry`] each, in order.
    pub closed spec fn handled(&self) -> Seq<EntryView> {
        self.handed@
    }

    /// A processor that hands the entries to the handler.
    pub fn new(json_entry_handler: Box<&'a mut dyn JsonEntryHandler>) -> (res: DumbJsonProcessor<'a>)
        ensures
            res.handler() == json_entry_handler,
            res.handled() == Seq::<EntryView>::empty(),
    {
        DumbJsonProcessor { json_entry_handler, handed: Ghost(Seq::empty()) }
    }

    /// Hands the entries to the handler, in order.
    fn deliver(&mut self, entries: Vec<JsonEntry>)
        ensures
            final(self).handled() == old(self).handled() + entries_view(entries@),
    {
        let mut i: usize = 0;
        while i < entries.len()
            invariant
                i <= entries@.len(),
                self.handled() == old(self).handled() + entries_view(entries@.subrange(0, i as int)),
            decreases entries@.len() - i,
        {
            self.json_entry_handler.handle_json_entry(&entries[i]);
            proof {
                self.handed@ = self.handed@.push(entries@[i as int]@);
            }
            assert(entries_view(entries@.subrange(0, i + 1)) =~= entries_view(entries@.subrange(0, i as int)).push(entries@[i as int]@));
            i = i + 1;
        }
        assert(entries@.subrange(0, i as int) =~= entries@);
    }

    /// Pushes a piece of JSON text (see [`ProcessJsonProgress::process_piece`]);
    /// the entries that it completes go to the handler in order.
    pub fn push_json_piece(&mut self, json_piece: &str, progress: &mut ProcessJsonProgress) -> (res: Result<(), String>)
        ensures
            final(progress)@ == process_piece(old(progress)@, json_piece@).0,
            final(progress).pending() == old(progress).pending(),
            match res {
                Ok(_) => !final(progress)@.failed,
                Err(m) => final(progress)@.failed && m@ == too_many_items_message(),
            },
            final(self).handled() == old(self).handled() + if res is Ok {
                process_piece(old(progress)@, json_piece@).1
            } else {
                Seq::<EntryView>::empty()
            },
    {
        match progress.process_piece(json_piece) {
            Ok(entries) => {
                self.deliver(entries);
                Ok(())
            },
            Err(m) => Err(m),
        }
    }

    /// Pushes a piece of JSON text given as UTF-8 bytes (see
    /// [`ProcessJsonProgress::process_bytes`]); the entries that it completes go to
    /// the handler in order.
    pub fn push_json_bytes(&mut self, json_bytes: &[u8], progress: &mut ProcessJsonProgress) -> (res: Result<(), String>)
        ensures
            match bytes_step(old(progress)@, old(progress).pending(), json_bytes@) {
                Some((st, kept, es)) => {
                    &&& final(progress)@ == st
                    &&& final(progress).pending() == kept
                    &&& kept.len() <= 3
                    &&& (res is Ok <==> !st.failed)
                    &&& res matches Err(m) ==> m@ == too_many_items_message()
                    &&& final(self).handled() == old(self).handled() + if res is Ok {
                        es
                    } else {
                        Seq::<EntryView>::empty()
                    }
                },
                None => {
                    &&& final(progress)@ == old(progress)@
                    &&& final(progress).pending() == old(progress).pending()
                    &&& res matches Err(m) && m@ == invalid_utf8_message()
                    &&& final(self).handled() == old(self).handled()
                },
            },
    {
        match progress.process_bytes(json_bytes) {
            Ok(entries) => {
                self.deliver(entries);
                Ok(())
            },
            Err(m) => Err(m),
        }
    }

    /// Processes a complete JSON text; gives the text that came after the end
    /// of it. An error when the text ends before the outermost object does, or
    /// when an object or array holds too many items.
    pub fn push_json(&mut self, json: &str) -> (res: Result<String, String>)
        ensures
            ({
                let r = json_run(start_state(), json@).0;
                match res {
                    Ok(rest) => r.done && !r.failed && rest@ == r.rest,
                    Err(m) => r.failed && m@ == too_many_items_message()
                        || !r.failed && !r.done && m@ == incomplete_message(),
                }
            }),
            final(self).handled() == old(self).handled() + if json_run(start_state(), json@).0.failed {
                Seq::<EntryView>::empty()
            } else {
                json_run(start_state(), json@).1
            },
    {
        let mut progress = ProcessJsonProgress::new();
        match self.push_json_piece(json, &mut progress) {
            Ok(_) => {
                if progress.is_done() {
                    Ok(progress.get_remaining())
                } else {
                    Err(incomplete())
                }
            },
            Err(m) => Err(m),
        }
    }
}

/// The message of the error given for a JSON text that ends too early.
pub open spec fn incomplete_message() -> Seq<char> {
    "the JSON text is not complete"@
}

fn incomplete() -> (res: String)
    ensures
        res@ == incomplete_message(),
{
    String::from_str("the JSON text is not complete")
}

} // verus!

verus! {

/// The last character boundary of valid UTF-8 at or before `i`: either `i`
/// itself, or a boundary whose character `i` falls inside.
proof fn lemma_boundary_below(b: Seq<u8>, i: int) -> (k: int)
    requires
        valid_utf8(b),
        0 <= i <= b.len(),
    ensures
        0 <= k <= i,
        is_char_boundary(b, k),
        k == i || (k < b.len() && valid_first_scalar(b.subrange(k, b.len() as int)) && i < k
            + length_of_first_scalar(b.subrange(k, b.len() as int))),
    decreases b.len(),
{
    if i == 0 {
        0
    } else {
        let w = length_of_first_scalar(b);
        assert(b.subrange(0, b.len() as int) =~= b);
        if i < w {
            0
        } else {
            let pop = pop_first_scalar(b);
            let k1 = lemma_boundary_below(pop, i - w);
            let k = k1 + w;
            assert(is_char_boundary(b, k) == is_char_boundary(pop, k1));
            assert(b.subrange(k, b.len() as int) =~= pop.subrange(k1, pop.len() as int));
            k
        }
    }
}

/// A proper start of the encoding of one character is not valid UTF-8.
proof fn lemma_cut_character_invalid(c: Seq<u8>, j: int)
    requires
        valid_first_scalar(c),
        0 < j < length_of_first_scalar(c),
    ensures
        !valid_utf8(c.subrange(0, j)),
{
    let d = c.subrange(0, j);
    assert(d[0] == c[0]);
}

/// Pushing the bytes of a UTF-8 text in two pieces, split anywhere (inside a
/// character too), goes as pushing the text whole: neither piece is refused,
/// the bytes of a character cut off are kept for the second piece and nothing
/// is kept after it, and the progress after and the entries of the two pushes,
/// in order, are those of the whole text (when no start of the text before the
/// split completes a JSON text).
pub proof fn lemma_bytes_in_pieces(st: JsonState, b: Seq<u8>, i: int)
    requires
        valid_utf8(b),
        0 <= i <= b.len(),
        forall|k: int|
            0 <= k <= i && #[trigger] valid_utf8(b.subrange(0, k)) ==> !process_piece(
                st,
                decode_utf8(b.subrange(0, k)),
            ).0.done,
    ensures
        bytes_step(st, Seq::empty(), b.subrange(0, i)) matches Some((st1, kept1, es1)) && (bytes_step(
            st1,
            kept1,
            b.subrange(i, b.len() as int),
        ) matches Some((st2, kept2, es2)) && st2 == process_piece(st, decode_utf8(b)).0 && kept2.len() == 0
            && es1 + es2 == process_piece(st, decode_utf8(b)).1),
{
    let n = b.len() as int;
    let k = lemma_boundary_below(b, i);
    valid_utf8_split(b, k);
    decode_utf8_split(b, k);
    let head = b.subrange(0, k);
    let c = b.subrange(k, n);
    let p = b.subrange(0, i);
    let rest = b.subrange(i, n);
    assert(Seq::<u8>::empty() + p =~= p);
    assert(!process_piece(st, decode_utf8(head)).0.done);
    lemma_push_in_pieces(st, decode_utf8(head), decode_utf8(c));
    if k == i {
        assert(Seq::<u8>::empty() + rest =~= rest);
    } else {
        let w = length_of_first_scalar(c);
        assert(p.subrange(0, k) =~= head);
        assert(p.subrange(k, i) =~= c.subrange(0, i - k));
        lemma_cut_character_invalid(c, i - k);
        partial_valid_partial_invalid_utf8(p, k);
        assert(p.subrange(k, p.len() as int) =~= p.subrange(k, i));
        assert forall|k2: int| k < k2 <= p.len() implies !valid_utf8(#[trigger] p.subrange(0, k2)) by {
            let q = p.subrange(0, k2);
            assert(q.subrange(0, k) =~= head);
            assert(q.subrange(k, q.len() as int) =~= c.subrange(0, k2 - k));
            lemma_cut_character_invalid(c, k2 - k);
            partial_valid_partial_invalid_utf8(q, k);
        }
        assert(valid_up_to(p, k));
        lemma_valid_up_to_unique(p, k, valid_end(p));
        assert(p.subrange(k, i) + rest =~= c);
        assert(utf8_cut_short(p.subrange(k, p.len() as int)));
    }
}

/// Pushing a JSON text in two pieces goes as pushing it in one, when the first
/// piece does not complete it: the same progress after, and the entries of the
/// first push followed by those of the second.
pub proof fn lemma_push_in_pieces(st: JsonState, a: Seq<char>, b: Seq<char>)
    requires
        !process_piece(st, a).0.done,
    ensures
        process_piece(process_piece(st, a).0, b).0 == process_piece(st, a + b).0,
        process_piece(st, a).1 + process_piece(process_piece(st, a).0, b).1 == process_piece(st, a + b).1,
{
    let (s0, input) = resume(st, a);
    lemma_json_run_append(s0, input, b);
    if st.done {
        assert(st.rest + (a + b) =~= (st.rest + a) + b);
    }
}

} // verus!
