//! The scanning side of a simple argument parser: given the arguments a
//! program accepts (positional ones by name, flag ones by their flags) and the
//! input arguments, which input goes to which argument, and what is wrong with
//! the input, if anything. (Turning the input texts into typed values, some of
//! them floating-point numbers, is not part of this library.)

use vstd::prelude::*;

use crate::text::{chars_of, string_from_chars, push_str, push_char};

verus! {

broadcast use vstd::string::group_string_axioms;

/// How an argument is named: a positional argument by its name, a flag argument
/// by its name and its flags (like `-v` and `--verbose`).
#[derive(Debug, Clone)]
pub enum ArgKey {
    Name(String),
    Flags(String, Vec<String>),
}

/// Whether an argument needs a value, has a default one, or is a flag whose
/// presence is its value.
#[derive(Debug, Clone, Copy, PartialEq, Eq, Structural)]
pub enum ArgNature {
    Regular,
    Optional,
    Fixed,
}

/// Whether an argument takes one value (`Single`) or also the input arguments
/// after it: all as more values of it (`Regular`), or all as they are (`Rest`).
#[derive(Debug, Clone, Copy, PartialEq, Eq, Structural)]
pub enum ArgMultiMode {
    Single,
    Regular,
    Rest,
}

/// Settings of an argument parser.
pub struct ArgParserSettings {
    pub program_name: Option<String>,
    pub description: Option<String>,
    pub allow_none: bool,
}

impl ArgParserSettings {
    pub fn default() -> (res: ArgParserSettings)
        ensures
            res.program_name is None,
            res.description is None,
            !res.allow_none,
    {
        ArgParserSettings { program_name: None, description: None, allow_none: false }
    }
}

/// An argument key as plain values.
pub enum KeyView {
    Name(Seq<char>),
    Flags(Seq<char>, Seq<Seq<char>>),
}

impl ArgKey {
    pub open spec fn view(&self) -> KeyView {
        match self {
            ArgKey::Name(n) => KeyView::Name(n@),
            ArgKey::Flags(n, fs) => KeyView::Flags(n@, fs@.map_values(|f: String| f@)),
        }
    }

    /// A flag argument has at least one flag.
    pub open spec fn wf(&self) -> bool {
        match self {
            ArgKey::Name(_) => true,
            ArgKey::Flags(_, fs) => fs@.len() > 0,
        }
    }

    /// The name that the argument is known by in messages: its name, or its first flag.
    pub fn get_a_name(&self) -> (res: String)
        requires
            self.wf(),
        ensures
            res@ == key_name(self@),
    {
        match self {
            ArgKey::Name(name) => name.clone(),
            ArgKey::Flags(_, flags) => flags[0].clone(),
        }
    }
}

pub open spec fn key_name(k: KeyView) -> Seq<char> {
    match k {
        KeyView::Name(n) => n,
        KeyView::Flags(_, fs) => fs[0],
    }
}

/// What the scanning needs to know of an argument.
pub struct ArgShape {
    pub key: ArgKey,
    pub nature: ArgNature,
    pub multi_mode: ArgMultiMode,
}

/// An argument as plain values.
pub struct ShapeView {
    pub key: KeyView,
    pub nature: ArgNature,
    pub multi_mode: ArgMultiMode,
}

impl ArgShape {
    pub open spec fn view(&self) -> ShapeView {
        ShapeView { key: self.key@, nature: self.nature, multi_mode: self.multi_mode }
    }
}

pub open spec fn shapes_view(shapes: Seq<ArgShape>) -> Seq<ShapeView> {
    shapes.map_values(|s: ArgShape| s@)
}

/// An input that goes to an argument: which argument, the input text of its
/// value (none for a flag whose presence is its value), and the inputs after it
/// that a multi-argument takes.
pub struct ScanStep {
    pub arg_idx: usize,
    pub value: Option<String>,
    pub rest: Vec<String>,
}

/// How the scanning ends: all inputs went to arguments, help was asked for, or
/// the input is wrong.
pub enum ScanEnd {
    Done,
    Help,
    Error(String),
}

/// The result of scanning the inputs: the inputs that go to arguments, in order,
/// then how the scanning ends.
pub struct ScanPlan {
    pub steps: Vec<ScanStep>,
    pub end: ScanEnd,
}

pub struct StepView {
    pub arg_idx: nat,
    pub value: Option<Seq<char>>,
    pub rest: Seq<Seq<char>>,
}

pub enum EndView {
    Done,
    Help,
    Error(Seq<char>),
}

impl ScanStep {
    pub open spec fn view(&self) -> StepView {
        StepView {
            arg_idx: self.arg_idx as nat,
            value: match self.value {
                Some(v) => Some(v@),
                None => None,
            },
            rest: self.rest@.map_values(|r: String| r@),
        }
    }
}

impl ScanEnd {
    pub open spec fn view(&self) -> EndView {
        match self {
            ScanEnd::Done => EndView::Done,
            ScanEnd::Help => EndView::Help,
            ScanEnd::Error(m) => EndView::Error(m@),
        }
    }
}

pub open spec fn steps_view(steps: Seq<ScanStep>) -> Seq<StepView> {
    steps.map_values(|s: ScanStep| s@)
}

/// The number of positional arguments among the first `i`.
pub open spec fn names_before(shapes: Seq<ShapeView>, i: int) -> nat
    decreases i,
{
    if i <= 0 {
        0
    } else {
        names_before(shapes, i - 1) + if shapes[i - 1].key is Name { 1nat } else { 0nat }
    }
}

/// Argument `i` is the one for the input text: a flag argument with the text as
/// one of its flags, or (for `pos >= 0`) the positional argument number `pos`.
pub open spec fn arg_matches(shapes: Seq<ShapeView>, text: Seq<char>, pos: int, i: int) -> bool {
    match shapes[i].key {
        KeyView::Name(_) => pos >= 0 && names_before(shapes, i) == pos,
        KeyView::Flags(_, fs) => fs.contains(text),
    }
}

/// The first argument from `i` on that is the one for the input text.
pub open spec fn arg_index_from(shapes: Seq<ShapeView>, text: Seq<char>, pos: int, i: int) -> Option<int>
    decreases shapes.len() - i,
{
    if i < 0 || i >= shapes.len() {
        None
    } else if arg_matches(shapes, text, pos, i) {
        Some(i)
    } else {
        arg_index_from(shapes, text, pos, i + 1)
    }
}

pub open spec fn message(a: Seq<char>, text: Seq<char>) -> Seq<char> {
    a + seq!['['] + text + seq![']']
}

/// The message for an unknown flag.
pub open spec fn unknown_message(text: Seq<char>) -> Seq<char> {
    message("unknown input argument "@, text)
}

/// The message for a flag at the end that needs a value.
pub open spec fn missing_after_message(text: Seq<char>) -> Seq<char> {
    message("missing input argument after "@, text)
}

/// The message for a positional input with no argument left for it.
pub open spec fn unacceptable_message(text: Seq<char>) -> Seq<char> {
    message("unacceptable input argument "@, text)
}

/// The message for an argument that needs a value and got none.
pub open spec fn not_provided_message(name: Seq<char>) -> Seq<char> {
    message("argument "@, name) + " not provided"@
}

pub open spec fn is_help(a: Seq<char>) -> bool {
    a == seq!['-', 'h'] || a == seq!['-', '-', 'h', 'e', 'l', 'p']
}

/// Scanning the inputs from `i` on, with `pos` positional inputs seen so far.
pub open spec fn scan_from(shapes: Seq<ShapeView>, ins: Seq<Seq<char>>, i: int, pos: nat) -> (Seq<StepView>, EndView)
    decreases ins.len() - i,
{
    if i < 0 || i >= ins.len() {
        (Seq::empty(), EndView::Done)
    } else {
        let a = ins[i];
        if is_help(a) {
            (Seq::empty(), EndView::Help)
        } else {
            let flag = a.len() > 0 && a[0] == '-';
            let found = arg_index_from(shapes, a, if flag { -1 } else { pos as int }, 0);
            match found {
                None => (Seq::empty(), EndView::Error(if flag { unknown_message(a) } else { unacceptable_message(a) })),
                Some(k) => {
                    if flag && shapes[k].nature != ArgNature::Fixed && i + 1 >= ins.len() {
                        (Seq::empty(), EndView::Error(missing_after_message(a)))
                    } else {
                        let value = if !flag { Some(a) } else if shapes[k].nature == ArgNature::Fixed { None } else { Some(ins[i + 1]) };
                        let next = if flag && shapes[k].nature != ArgNature::Fixed { i + 2 } else { i + 1 };
                        let next_pos = if flag { pos } else { pos + 1 };
                        let takes_rest = shapes[k].multi_mode != ArgMultiMode::Single;
                        let rest = if takes_rest { ins.subrange(next, ins.len() as int) } else { Seq::empty() };
                        let step = StepView { arg_idx: k as nat, value: value, rest: rest };
                        let r = if takes_rest { (Seq::<StepView>::empty(), EndView::Done) } else { scan_from(shapes, ins, next, next_pos) };
                        (seq![step] + r.0, r.1)
                    }
                },
            }
        }
    }
}

/// Argument `j` gets a value: one with a default, or one an input went to.
pub open spec fn has_value(shapes: Seq<ShapeView>, steps: Seq<StepView>, j: int) -> bool {
    shapes[j].nature == ArgNature::Optional || exists|s: int| 0 <= s < steps.len() && #[trigger] steps[s].arg_idx == j
}

/// The first argument from `j` on that needs a value and has none.
pub open spec fn first_unprovided(shapes: Seq<ShapeView>, steps: Seq<StepView>, j: int) -> Option<int>
    decreases shapes.len() - j,
{
    if j < 0 || j >= shapes.len() {
        None
    } else if shapes[j].nature != ArgNature::Fixed && !has_value(shapes, steps, j) {
        Some(j)
    } else {
        first_unprovided(shapes, steps, j + 1)
    }
}

/// The scan of the inputs: the inputs that go to arguments, and how it ends; when
/// all inputs went to arguments, an argument that needs a value and has none is
/// an error (unless missing arguments are allowed).
pub open spec fn scan(shapes: Seq<ShapeView>, ins: Seq<Seq<char>>, allow_none: bool) -> (Seq<StepView>, EndView) {
    let (steps, end) = scan_from(shapes, ins, 0, 0);
    match end {
        EndView::Done => if allow_none {
            (steps, end)
        } else {
            match first_unprovided(shapes, steps, 0) {
                Some(j) => (steps, EndView::Error(not_provided_message(key_name(shapes[j].key)))),
                None => (steps, end),
            }
        },
        _ => (steps, end),
    }
}

} // verus!

verus! {

/// The position sought, or -1 for a flag.
pub open spec fn pos_int(pos: Option<usize>) -> int {
    match pos {
        Some(p) => p as int,
        None => -1,
    }
}

/// Whether the text is one of the flags.
fn has_flag(flags: &Vec<String>, text: &str) -> (res: bool)
    ensures
        res == flags@.map_values(|f: String| f@).contains(text@),
{
    let ghost fv = flags@.map_values(|f: String| f@);
    let mut i: usize = 0;
    while i < flags.len()
        invariant
            i <= flags@.len(),
            fv == flags@.map_values(|f: String| f@),
            forall|j: int| 0 <= j < i ==> fv[j] != text@,
        decreases flags@.len() - i,
    {
        if crate::text::same_text(flags[i].as_str(), text) {
            assert(fv[i as int] == text@);
            return true;
        }
        i = i + 1;
    }
    false
}

/// The first argument that is the one for the input text (see [`arg_index_from`]).
fn arg_index(shapes: &Vec<ArgShape>, text: &str, pos: Option<usize>) -> (res: Option<usize>)
    ensures
        match res {
            Some(k) => arg_index_from(shapes_view(shapes@), text@, pos_int(pos), 0) == Some(k as int)
                && k < shapes@.len(),
            None => arg_index_from(shapes_view(shapes@), text@, pos_int(pos), 0) is None,
        },
{
    let ghost sv = shapes_view(shapes@);
    let mut names: usize = 0;
    let mut i: usize = 0;
    while i < shapes.len()
        invariant
            i <= shapes@.len(),
            sv == shapes_view(shapes@),
            names == names_before(sv, i as int),
            names <= i,
            arg_index_from(sv, text@, pos_int(pos), 0) == arg_index_from(sv, text@, pos_int(pos), i as int),
        decreases shapes@.len() - i,
    {
        let matched = match &shapes[i].key {
            ArgKey::Name(_) => match pos {
                Some(p) => names == p,
                None => false,
            },
            ArgKey::Flags(_, flags) => has_flag(flags, text),
        };
        assert(matched == arg_matches(sv, text@, pos_int(pos), i as int));
        if matched {
            return Some(i);
        }
        match &shapes[i].key {
            ArgKey::Name(_) => {
                names = names + 1;
            },
            _ => {},
        }
        i = i + 1;
    }
    None
}

fn bracketed_message(a: &str, text: &str) -> (res: String)
    ensures
        res@ == message(a@, text@),
{
    let mut m = String::new();
    push_str(&mut m, a);
    push_char(&mut m, '[');
    push_str(&mut m, text);
    push_char(&mut m, ']');
    m
}

/// Whether the text asks for help.
fn help_text(a: &str) -> (res: bool)
    ensures
        res == is_help(a@),
{
    let cs = chars_of(a);
    let short = cs.len() == 2 && cs[0] == '-' && cs[1] == 'h';
    let long = cs.len() == 6 && cs[0] == '-' && cs[1] == '-' && cs[2] == 'h' && cs[3] == 'e' && cs[4] == 'l' && cs[5] == 'p';
    assert(short == (a@ == seq!['-', 'h'])) by {
        if short {
            assert(cs@ =~= seq!['-', 'h']);
        }
    }
    assert(long == (a@ == seq!['-', '-', 'h', 'e', 'l', 'p'])) by {
        if long {
            assert(cs@ =~= seq!['-', '-', 'h', 'e', 'l', 'p']);
        }
    }
    short || long
}

/// The inputs from `from` on.
fn rest_of(ins: &Vec<String>, from: usize) -> (res: Vec<String>)
    requires
        from <= ins@.len(),
    ensures
        res@.map_values(|r: String| r@) == ins@.map_values(|r: String| r@).subrange(from as int, ins@.len() as int),
{
    let mut res: Vec<String> = Vec::new();
    let mut i = from;
    while i < ins.len()
        invariant
            from <= i <= ins@.len(),
            res@.map_values(|r: String| r@) == ins@.map_values(|r: String| r@).subrange(from as int, i as int),
        decreases ins@.len() - i,
    {
        let ghost before = res@.map_values(|r: String| r@);
        let item = ins[i].clone();
        assert(item@ == ins@[i as int]@);
        res.push(item);
        assert(res@.map_values(|r: String| r@) =~= before.push(ins@[i as int]@));
        i = i + 1;
        assert(res@.map_values(|r: String| r@) =~= ins@.map_values(|r: String| r@).subrange(from as int, i as int));
    }
    res
}

} // verus!

verus! {

/// Whether some input went to argument `j`.
fn assigned(steps: &Vec<ScanStep>, j: usize) -> (res: bool)
    ensures
        res == exists|s: int| 0 <= s < steps@.len() && #[trigger] steps_view(steps@)[s].arg_idx == j,
{
    let mut s: usize = 0;
    while s < steps.len()
        invariant
            s <= steps@.len(),
            forall|t: int| 0 <= t < s ==> steps_view(steps@)[t].arg_idx != j,
        decreases steps@.len() - s,
    {
        if steps[s].arg_idx == j {
            assert(steps_view(steps@)[s as int].arg_idx == j);
            return true;
        }
        s = s + 1;
    }
    false
}

/// The first argument that needs a value and has none.
fn unprovided(shapes: &Vec<ArgShape>, steps: &Vec<ScanStep>) -> (res: Option<usize>)
    ensures
        match res {
            Some(j) => first_unprovided(shapes_view(shapes@), steps_view(steps@), 0) == Some(j as int)
                && j < shapes@.len(),
            None => first_unprovided(shapes_view(shapes@), steps_view(steps@), 0) is None,
        },
{
    let ghost sv = shapes_view(shapes@);
    let ghost tv = steps_view(steps@);
    let mut j: usize = 0;
    while j < shapes.len()
        invariant
            j <= shapes@.len(),
            sv == shapes_view(shapes@),
            tv == steps_view(steps@),
            first_unprovided(sv, tv, 0) == first_unprovided(sv, tv, j as int),
        decreases shapes@.len() - j,
    {
        let nature = shapes[j].nature;
        let with_value = nature == ArgNature::Optional || assigned(steps, j);
        assert(with_value == has_value(sv, tv, j as int));
        if nature != ArgNature::Fixed && !with_value {
            return Some(j);
        }
        j = j + 1;
    }
    None
}

/// Scans the inputs: which input goes to which argument, in order, and how the
/// scanning ends (see [`scan`]).
pub fn scan_args(shapes: &Vec<ArgShape>, in_args: &Vec<String>, allow_none: bool) -> (res: ScanPlan)
    requires
        forall|i: int| 0 <= i < shapes@.len() ==> (#[trigger] shapes@[i]).key.wf(),
    ensures
        (steps_view(res.steps@), res.end@) == scan(shapes_view(shapes@), in_args@.map_values(|a: String| a@), allow_none),
{
    let ghost sv = shapes_view(shapes@);
    let ghost ins = in_args@.map_values(|a: String| a@);
    let ghost target = scan_from(sv, ins, 0, 0);
    let n = in_args.len();
    let mut steps: Vec<ScanStep> = Vec::new();
    let mut end = ScanEnd::Done;
    let mut stopped = false;
    let mut i: usize = 0;
    let mut pos: usize = 0;
    while !stopped && i < n
        invariant
            n == in_args@.len(),
            n == ins.len(),
            sv == shapes_view(shapes@),
            ins == in_args@.map_values(|a: String| a@),
            target == scan_from(sv, ins, 0, 0),
            i <= n,
            pos <= i,
            !stopped ==> steps_view(steps@) + scan_from(sv, ins, i as int, pos as nat).0 == target.0,
            !stopped ==> scan_from(sv, ins, i as int, pos as nat).1 == target.1,
            !stopped ==> end@ == EndView::Done,
            stopped ==> steps_view(steps@) == target.0 && end@ == target.1,
        decreases n - i, if stopped { 0int } else { 1int },
    {
        let a = in_args[i].as_str();
        let ghost here = scan_from(sv, ins, i as int, pos as nat);
        assert(ins[i as int] == a@);
        if help_text(a) {
            end = ScanEnd::Help;
            stopped = true;
            assert(steps_view(steps@) + Seq::<StepView>::empty() =~= steps_view(steps@));
        } else {
            let acs = chars_of(a);
            let flag = acs.len() > 0 && acs[0] == '-';
            let found = arg_index(shapes, a, if flag { None } else { Some(pos) });
            match found {
                None => {
                    end = if flag {
                        ScanEnd::Error(bracketed_message("unknown input argument ", a))
                    } else {
                        ScanEnd::Error(bracketed_message("unacceptable input argument ", a))
                    };
                    stopped = true;
                    assert(steps_view(steps@) + Seq::<StepView>::empty() =~= steps_view(steps@));
                },
                Some(k) => {
                    let nature = shapes[k].nature;
                    if flag && nature != ArgNature::Fixed && i + 1 >= n {
                        end = ScanEnd::Error(bracketed_message("missing input argument after ", a));
                        stopped = true;
                        assert(steps_view(steps@) + Seq::<StepView>::empty() =~= steps_view(steps@));
                    } else {
                        let value: Option<String> = if !flag {
                            Some(in_args[i].clone())
                        } else if nature == ArgNature::Fixed {
                            None
                        } else {
                            Some(in_args[i + 1].clone())
                        };
                        let next = if flag && nature != ArgNature::Fixed { i + 2 } else { i + 1 };
                        let next_pos = if flag { pos } else { pos + 1 };
                        let takes_rest = shapes[k].multi_mode != ArgMultiMode::Single;
                        let rest: Vec<String> = if takes_rest { rest_of(in_args, next) } else { Vec::new() };
                        let step = ScanStep { arg_idx: k, value: value, rest: rest };
                        let ghost before = steps_view(steps@);
                        steps.push(step);
                        assert(steps_view(steps@) =~= before.push(step@));
                        assert(step@.rest =~= (if takes_rest { ins.subrange(next as int, ins.len() as int) } else { Seq::empty() }));
                        if takes_rest {
                            stopped = true;
                            assert(before + here.0 =~= steps_view(steps@));
                        } else {
                            assert(before + here.0 =~= steps_view(steps@) + scan_from(sv, ins, next as int, next_pos as nat).0);
                            i = next;
                            pos = next_pos;
                        }
                    }
                },
            }
        }
    }
    if !stopped {
        assert(scan_from(sv, ins, i as int, pos as nat).0 =~= Seq::<StepView>::empty());
        assert(steps_view(steps@) + Seq::<StepView>::empty() =~= steps_view(steps@));
    }
    if !allow_none {
        match end {
            ScanEnd::Done => {
                match unprovided(shapes, &steps) {
                    Some(j) => {
                        let name = shapes[j].key.get_a_name();
                        let mut m = bracketed_message("argument ", name.as_str());
                        push_str(&mut m, " not provided");
                        end = ScanEnd::Error(m);
                    },
                    None => {},
                }
            },
            _ => {},
        }
    }
    ScanPlan { steps, end }
}

} // verus!

verus! {

pub open spec fn starts_dash(f: Seq<char>) -> bool {
    f.len() > 0 && f[0] == '-'
}

pub open spec fn starts_two_dashes(f: Seq<char>) -> bool {
    f.len() > 1 && f[0] == '-' && f[1] == '-'
}

pub open spec fn starts_three_dashes(f: Seq<char>) -> bool {
    f.len() > 2 && f[0] == '-' && f[1] == '-' && f[2] == '-'
}

/// What is wrong with a flag, if anything.
pub open spec fn flag_error(f: Seq<char>) -> Option<Seq<char>> {
    if !starts_dash(f) {
        Some(message("flag "@, f) + " must start with '-'"@)
    } else if starts_three_dashes(f) {
        Some(message("flag "@, f) + " cannot start with more than 2 '-'"@)
    } else {
        None
    }
}

/// The first fault among the flags from `i` on.
pub open spec fn flags_error(fs: Seq<Seq<char>>, i: int) -> Option<Seq<char>>
    decreases fs.len() - i,
{
    if i < 0 || i >= fs.len() {
        None
    } else if flag_error(fs[i]) is Some {
        flag_error(fs[i])
    } else {
        flags_error(fs, i + 1)
    }
}

/// The name taken from the flags from `i` on: the first `--` flag without its
/// dashes, else the first `-` flag without its dash.
pub open spec fn flags_name(fs: Seq<Seq<char>>, i: int, single: Option<Seq<char>>) -> Seq<char>
    decreases fs.len() - i,
{
    if i < 0 || i >= fs.len() {
        match single {
            Some(s) => s,
            None => Seq::empty(),
        }
    } else if starts_two_dashes(fs[i]) {
        fs[i].subrange(2, fs[i].len() as int)
    } else {
        flags_name(fs, i + 1, if single is None { Some(fs[i].subrange(1, fs[i].len() as int)) } else { single })
    }
}

/// The key of an argument given by its name or flags: a single text that does
/// not start with `-` is a name; else all must be flags.
pub open spec fn key_of(fs: Seq<Seq<char>>) -> Result<KeyView, Seq<char>> {
    if fs.len() == 0 {
        Err("must provide a name or some flags"@)
    } else if fs.len() == 1 && !starts_dash(fs[0]) {
        Ok(KeyView::Name(fs[0]))
    } else {
        match flags_error(fs, 0) {
            Some(e) => Err(e),
            None => Ok(KeyView::Flags(flags_name(fs, 0, None), fs)),
        }
    }
}

/// The text without its first `k` characters.
fn drop_chars(s: &str, k: usize) -> (res: String)
    requires
        k <= s@.len(),
    ensures
        res@ == s@.subrange(k as int, s@.len() as int),
{
    let cs = chars_of(s);
    let mut out: Vec<char> = Vec::new();
    let mut i = k;
    while i < cs.len()
        invariant
            k <= i <= cs@.len(),
            cs@ == s@,
            out@ == cs@.subrange(k as int, i as int),
        decreases cs@.len() - i,
    {
        out.push(cs[i]);
        i = i + 1;
        assert(out@ =~= cs@.subrange(k as int, i as int));
    }
    string_from_chars(out.as_slice())
}

/// The key of an argument given by its name or flags (see [`key_of`]).
pub fn arg_key_of(name_or_flags: &Vec<String>) -> (res: Result<ArgKey, String>)
    ensures
        match res {
            Ok(k) => key_of(name_or_flags@.map_values(|f: String| f@)) == Ok::<KeyView, Seq<char>>(k@) && k.wf(),
            Err(e) => key_of(name_or_flags@.map_values(|f: String| f@)) == Err::<KeyView, Seq<char>>(e@),
        },
{
    let ghost fs = name_or_flags@.map_values(|f: String| f@);
    let n = name_or_flags.len();
    if n == 0 {
        return Err(String::from_str("must provide a name or some flags"));
    }
    let first = chars_of(name_or_flags[0].as_str());
    assert(first@ == fs[0]);
    if n == 1 && !(first.len() > 0 && first[0] == '-') {
        return Ok(ArgKey::Name(name_or_flags[0].clone()));
    }
    let mut i: usize = 0;
    let mut double: Option<String> = None;
    let mut single: Option<String> = None;
    while i < n
        invariant
            n == name_or_flags@.len(),
            fs == name_or_flags@.map_values(|f: String| f@),
            i <= n,
            n > 0,
            !(n == 1 && !starts_dash(fs[0])),
            flags_error(fs, 0) == flags_error(fs, i as int),
            double is None ==> flags_name(fs, 0, None) == flags_name(fs, i as int, match single {
                Some(s) => Some(s@),
                None => None,
            }),
            double matches Some(d) ==> flags_name(fs, 0, None) == d@,
        decreases n - i,
    {
        let f = name_or_flags[i].as_str();
        let cs = chars_of(f);
        assert(cs@ == fs[i as int]);
        if !(cs.len() > 0 && cs[0] == '-') {
            let mut m = bracketed_message("flag ", f);
            push_str(&mut m, " must start with '-'");
            return Err(m);
        }
        if cs.len() > 2 && cs[1] == '-' && cs[2] == '-' {
            let mut m = bracketed_message("flag ", f);
            push_str(&mut m, " cannot start with more than 2 '-'");
            return Err(m);
        }
        if cs.len() > 1 && cs[1] == '-' {
            if double.is_none() {
                double = Some(drop_chars(f, 2));
            }
        } else {
            if single.is_none() && double.is_none() {
                single = Some(drop_chars(f, 1));
            }
        }
        i = i + 1;
    }
    let name = match double {
        Some(d) => d,
        None => match single {
            Some(s) => s,
            None => String::new(),
        },
    };
    Ok(ArgKey::Flags(name, name_or_flags.clone()))
}

} // verus!

verus! {

/// How a flag argument shows in the usage line.
pub open spec fn flag_usage(s: ShapeView) -> Seq<char> {
    match s.key {
        KeyView::Flags(name, fs) => {
            let f = if s.nature == ArgNature::Fixed { fs[0] } else { fs[0] + seq![' '] + name };
            if s.nature == ArgNature::Fixed || s.nature == ArgNature::Optional {
                seq![' ', '['] + f + seq![']']
            } else {
                seq![' '] + f
            }
        },
        KeyView::Name(_) => Seq::empty(),
    }
}

/// How a positional argument shows in the usage line.
pub open spec fn name_usage(s: ShapeView) -> Seq<char> {
    match s.key {
        KeyView::Name(name) => if s.nature == ArgNature::Optional {
            seq![' ', '['] + name + seq![']']
        } else {
            seq![' ', '<'] + name + seq!['>']
        },
        KeyView::Flags(_, _) => Seq::empty(),
    }
}

/// The usage of the first `k` flag arguments, in order.
pub open spec fn flags_usage(shapes: Seq<ShapeView>, k: int) -> Seq<char>
    decreases k,
{
    if k <= 0 { Seq::empty() } else { flags_usage(shapes, k - 1) + flag_usage(shapes[k - 1]) }
}

/// The usage of the first `k` positional arguments, in order.
pub open spec fn names_usage(shapes: Seq<ShapeView>, k: int) -> Seq<char>
    decreases k,
{
    if k <= 0 { Seq::empty() } else { names_usage(shapes, k - 1) + name_usage(shapes[k - 1]) }
}

/// The usage line: the program name, `[-h]`, the flag arguments, then the
/// positional ones (an optional argument in `[` `]`, a required one in `<` `>`).
pub open spec fn usage_line(program: Seq<char>, shapes: Seq<ShapeView>) -> Seq<char> {
    program + " [-h]"@ + flags_usage(shapes, shapes.len() as int) + names_usage(shapes, shapes.len() as int)
}

/// Composes the usage line of the arguments (see [`usage_line`]).
pub fn compose_usage(program_name: &str, shapes: &Vec<ArgShape>) -> (res: String)
    requires
        forall|i: int| 0 <= i < shapes@.len() ==> (#[trigger] shapes@[i]).key.wf(),
    ensures
        res@ == usage_line(program_name@, shapes_view(shapes@)),
{
    let ghost sv = shapes_view(shapes@);
    let mut usage = String::new();
    push_str(&mut usage, program_name);
    push_str(&mut usage, " [-h]");
    let ghost head = usage@;
    let mut i: usize = 0;
    while i < shapes.len()
        invariant
            i <= shapes@.len(),
            sv == shapes_view(shapes@),
            forall|j: int| 0 <= j < shapes@.len() ==> (#[trigger] shapes@[j]).key.wf(),
            usage@ == head + flags_usage(sv, i as int),
        decreases shapes@.len() - i,
    {
        let s = &shapes[i];
        match &s.key {
            ArgKey::Flags(name, flags) => {
                assert(s.key.wf());
                let fixed = s.nature == ArgNature::Fixed;
                let bracket = fixed || s.nature == ArgNature::Optional;
                push_char(&mut usage, ' ');
                if bracket {
                    push_char(&mut usage, '[');
                }
                push_str(&mut usage, flags[0].as_str());
                if !fixed {
                    push_char(&mut usage, ' ');
                    push_str(&mut usage, name.as_str());
                }
                if bracket {
                    push_char(&mut usage, ']');
                }
            },
            ArgKey::Name(_) => {},
        }
        assert(usage@ =~= head + flags_usage(sv, i + 1));
        i = i + 1;
    }
    let ghost mid = usage@;
    let mut i: usize = 0;
    while i < shapes.len()
        invariant
            i <= shapes@.len(),
            sv == shapes_view(shapes@),
            usage@ == mid + names_usage(sv, i as int),
        decreases shapes@.len() - i,
    {
        let s = &shapes[i];
        match &s.key {
            ArgKey::Name(name) => {
                push_char(&mut usage, ' ');
                if s.nature == ArgNature::Optional {
                    push_char(&mut usage, '[');
                    push_str(&mut usage, name.as_str());
                    push_char(&mut usage, ']');
                } else {
                    push_char(&mut usage, '<');
                    push_str(&mut usage, name.as_str());
                    push_char(&mut usage, '>');
                }
            },
            ArgKey::Flags(_, _) => {},
        }
        assert(usage@ =~= mid + names_usage(sv, i + 1));
        i = i + 1;
    }
    assert(usage@ =~= usage_line(program_name@, sv));
    usage
}

} // verus!

verus! {

/// Where the inputs from `o` on that the scan steps take end, when the steps
/// take them in order, each input going to one argument at most: a positional
/// input is the value of its step; a flag input names its argument (one of its
/// flags), and the input right after it is the value when the argument takes
/// one; an argument that takes the rest takes all the inputs that follow, and
/// is the last step. `None` where the steps do not take the inputs so.
pub open spec fn inputs_taken(shapes: Seq<ShapeView>, ins: Seq<Seq<char>>, steps: Seq<StepView>, o: int) -> Option<int>
    decreases steps.len(),
{
    if steps.len() == 0 {
        Some(o)
    } else if !(0 <= o < ins.len()) || !(steps[0].arg_idx < shapes.len()) {
        None
    } else {
        let st = steps[0];
        let a = ins[o];
        let k = st.arg_idx as int;
        let flag = a.len() > 0 && a[0] == '-';
        let w: int = if flag && shapes[k].nature != ArgNature::Fixed { 2 } else { 1 };
        let names_it = match shapes[k].key {
            KeyView::Flags(_, fs) => fs.contains(a),
            KeyView::Name(_) => false,
        };
        let value = if !flag { Some(a) } else if w == 1 { None } else { Some(ins[o + 1]) };
        if o + w > ins.len() || (flag && !names_it) || st.value != value {
            None
        } else if shapes[k].multi_mode != ArgMultiMode::Single {
            if steps.len() == 1 && st.rest == ins.subrange(o + w, ins.len() as int) {
                Some(ins.len() as int)
            } else {
                None
            }
        } else if st.rest.len() != 0 {
            None
        } else {
            inputs_taken(shapes, ins, steps.drop_first(), o + w)
        }
    }
}

proof fn lemma_arg_index_from(shapes: Seq<ShapeView>, text: Seq<char>, pos: int, i: int)
    ensures
        arg_index_from(shapes, text, pos, i) matches Some(k) ==> 0 <= i <= k < shapes.len() && arg_matches(
            shapes,
            text,
            pos,
            k,
        ),
    decreases shapes.len() - i,
{
    if 0 <= i < shapes.len() && !arg_matches(shapes, text, pos, i) {
        lemma_arg_index_from(shapes, text, pos, i + 1);
    }
}

proof fn lemma_scan_from_takes_inputs(shapes: Seq<ShapeView>, ins: Seq<Seq<char>>, i: int, pos: nat)
    requires
        0 <= i <= ins.len(),
    ensures
        inputs_taken(shapes, ins, scan_from(shapes, ins, i, pos).0, i) matches Some(e) && i <= e <= ins.len() && (
        scan_from(shapes, ins, i, pos).1 is Done ==> e == ins.len()),
    decreases ins.len() - i,
{
    if i < ins.len() {
        let a = ins[i];
        if !is_help(a) {
            let flag = a.len() > 0 && a[0] == '-';
            lemma_arg_index_from(shapes, a, if flag { -1 } else { pos as int }, 0);
            match arg_index_from(shapes, a, if flag { -1 } else { pos as int }, 0) {
                None => {},
                Some(k) => {
                    if !(flag && shapes[k].nature != ArgNature::Fixed && i + 1 >= ins.len()) {
                        let next = if flag && shapes[k].nature != ArgNature::Fixed { i + 2 } else { i + 1 };
                        let next_pos = if flag { pos } else { pos + 1 };
                        let steps = scan_from(shapes, ins, i, pos).0;
                        if shapes[k].multi_mode == ArgMultiMode::Single {
                            lemma_scan_from_takes_inputs(shapes, ins, next, next_pos);
                            assert(steps.drop_first() =~= scan_from(shapes, ins, next, next_pos).0);
                        }
                    }
                },
            }
        }
    }
}

/// Scanning takes the inputs in order, each going to one argument at most: a
/// flag's value input is taken with it and never goes to another argument, and
/// a scan that ends well has taken every input.
pub proof fn lemma_scan_takes_each_input_once(shapes: Seq<ShapeView>, ins: Seq<Seq<char>>)
    ensures
        inputs_taken(shapes, ins, scan_from(shapes, ins, 0, 0).0, 0) matches Some(e) && e <= ins.len() && (scan_from(
            shapes,
            ins,
            0,
            0,
        ).1 is Done ==> e == ins.len()),
{
    lemma_scan_from_takes_inputs(shapes, ins, 0, 0);
}

} // verus!
