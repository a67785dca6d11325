//! A terminal / text-based "screen" update helper -- [`DumbLineByLineScreen`]:
//! a few lines, each formatted by a [`DumbLineTemplate`], that are rewritten in
//! place; a line is rewritten only when its text changes.
//!
//! The screen does not print: it gathers the text to write to the terminal
//! (lines and cursor-control sequences), which is taken with
//! [`DumbLineByLineScreen::take_output`].

use vstd::prelude::*;
use vstd::std_specs::hash::{obeys_key_model, builds_valid_hashers, maps_borrowed_key_to_value, contains_borrowed_key};
use std::collections::hash_map::RandomState;
use vstd::string::*;

use crate::ltemp::{DumbLineTemplate, LineTempComp, result_view, text_width, lookup, lookup_value};
use crate::text::{push_str, push_char, repeat_char, to_decimal, decimal, chars_of, same_text};

verus! {

broadcast use vstd::string::group_string_axioms;

/// Settings of a [`DumbLineByLineScreen`]: the prefix and suffix written around
/// each formatted line, and the lines written above and below the formatted
/// lines (as they are, and they may hold newlines).
pub struct LBLScreenSettings {
    pub line_prefix: Option<String>,
    pub line_suffix: Option<String>,
    pub top_line: Option<String>,
    pub bottom_line: Option<String>,
}

impl Default for LBLScreenSettings {
    fn default() -> (res: Self)
        ensures
            res.line_prefix is None,
            res.line_suffix is None,
            res.top_line is None,
            res.bottom_line is None,
    {
        LBLScreenSettings { line_prefix: None, line_suffix: None, top_line: None, bottom_line: None }
    }
}

/// Gives the value of a key, with its width, for the lines of a screen.
pub trait LBLScreenMapValueTrait {
    fn map_value(&self, key: &str) -> Option<(String, u16)>;
}

/// A text-based "screen" of lines formatted by templates.
pub struct DumbLineByLineScreen {
    line_temps: Vec<DumbLineTemplate>,
    line_prefix: Option<String>,
    line_suffix: Option<String>,
    top_line: Option<String>,
    bottom_line: Option<String>,
    bottom_newlines: Option<usize>,
    line_keys: Vec<Vec<String>>,
    line_cache: Vec<Option<String>>,
    initialized: bool,
    output: String,
}

/// The number of newlines in a text.
pub open spec fn newline_count(s: Seq<char>) -> nat
    decreases s.len(),
{
    if s.len() == 0 {
        0
    } else {
        newline_count(s.drop_last()) + if s.last() == '\n' { 1nat } else { 0nat }
    }
}

/// How many terminal lines a text takes: one more than the newlines in it.
pub open spec fn line_height(s: Seq<char>) -> nat {
    1 + newline_count(s)
}

pub open spec fn opt_text(s: Option<String>) -> Seq<char> {
    match s {
        Some(t) => t@,
        None => Seq::empty(),
    }
}

pub open spec fn opt_view(s: Option<String>) -> Option<Seq<char>> {
    match s {
        Some(t) => Some(t@),
        None => None,
    }
}

/// A line of the screen is to be formatted again: always when no keys are given,
/// else when one of its keys is among them.
pub open spec fn refreshed(keys: Option<Seq<Seq<char>>>, line_keys: Seq<Seq<char>>) -> bool {
    match keys {
        None => true,
        Some(ks) => shares_a_key(ks, line_keys),
    }
}

/// Some key of `ks` is among `line_keys`.
pub open spec fn shares_a_key(ks: Seq<Seq<char>>, line_keys: Seq<Seq<char>>) -> bool {
    exists|j: int, l: int| #[trigger] key_shared(ks, line_keys, j, l)
}

/// Key `j` of `ks` is key `l` of `line_keys`.
pub open spec fn key_shared(ks: Seq<Seq<char>>, line_keys: Seq<Seq<char>>, j: int, l: int) -> bool {
    0 <= j < ks.len() && 0 <= l < line_keys.len() && ks[j] == line_keys[l]
}

/// The cursor-control sequence that moves the cursor `n` lines up.
pub open spec fn cursor_up(n: nat) -> Seq<char> {
    seq!['\x1B', '['] + decimal(n) + seq!['A']
}

/// The sequence that clears the rest of a terminal line.
pub open spec fn clear_line() -> Seq<char> {
    seq!['\x1B', '[', '0', 'K']
}

/// Line `i` gets a new text, different from the one it shows.
pub open spec fn line_changes(cache: Seq<Option<Seq<char>>>, new_lines: Seq<Option<Seq<char>>>, i: int) -> bool {
    new_lines[i] is Some && cache[i] != new_lines[i]
}

/// What is written for the first `k` lines: a changed line is cleared and
/// rewritten with its prefix and suffix; every line ends with `"\r\n"`.
pub open spec fn lines_text(
    prefix: Seq<char>,
    suffix: Seq<char>,
    cache: Seq<Option<Seq<char>>>,
    new_lines: Seq<Option<Seq<char>>>,
    k: int,
) -> Seq<char>
    decreases k,
{
    if k <= 0 {
        Seq::empty()
    } else {
        let prev = lines_text(prefix, suffix, cache, new_lines, k - 1);
        let body = if line_changes(cache, new_lines, k - 1) {
            clear_line() + prefix + new_lines[k - 1]->Some_0 + suffix
        } else {
            Seq::empty()
        };
        prev + body + seq!['\r', '\n']
    }
}

/// How many of the first `k` lines change.
pub open spec fn changed_count(cache: Seq<Option<Seq<char>>>, new_lines: Seq<Option<Seq<char>>>, k: int) -> nat
    decreases k,
{
    if k <= 0 {
        0
    } else {
        changed_count(cache, new_lines, k - 1) + if line_changes(cache, new_lines, k - 1) { 1nat } else { 0nat }
    }
}

/// The lines shown after an update: the new texts where there are some.
pub open spec fn updated_cache(cache: Seq<Option<Seq<char>>>, new_lines: Seq<Option<Seq<char>>>) -> Seq<Option<Seq<char>>> {
    Seq::new(cache.len(), |i: int| if new_lines[i] is Some { new_lines[i] } else { cache[i] })
}

impl DumbLineByLineScreen {
    pub closed spec fn spec_line_temps(&self) -> Seq<DumbLineTemplate> {
        self.line_temps@
    }

    pub closed spec fn spec_prefix(&self) -> Seq<char> {
        opt_text(self.line_prefix)
    }

    pub closed spec fn spec_suffix(&self) -> Seq<char> {
        opt_text(self.line_suffix)
    }

    pub closed spec fn spec_top_line(&self) -> Option<Seq<char>> {
        opt_view(self.top_line)
    }

    pub closed spec fn spec_bottom_line(&self) -> Option<Seq<char>> {
        opt_view(self.bottom_line)
    }

    /// How many terminal lines the bottom line takes (0 without one).
    pub closed spec fn spec_bottom_height(&self) -> nat {
        match self.bottom_newlines {
            Some(k) => (k + 1) as nat,
            None => 0,
        }
    }

    /// The keys of the templates of the lines.
    pub closed spec fn spec_line_keys(&self) -> Seq<Seq<Seq<char>>> {
        self.line_keys@.map_values(|ks: Vec<String>| ks@.map_values(|k: String| k@))
    }

    /// The text each line shows, if it was written.
    pub closed spec fn spec_cache(&self) -> Seq<Option<Seq<char>>> {
        self.line_cache@.map_values(|c: Option<String>| opt_view(c))
    }

    pub closed spec fn spec_initialized(&self) -> bool {
        self.initialized
    }

    /// The text gathered to be written to the terminal.
    pub closed spec fn spec_output(&self) -> Seq<char> {
        self.output@
    }

    pub closed spec fn wf(&self) -> bool {
        &&& self.line_keys@.len() == self.line_temps@.len()
        &&& self.line_cache@.len() == self.line_temps@.len()
        &&& forall|i: int| 0 <= i < self.line_temps@.len() ==> #[trigger] self.spec_line_keys()[i] == self.line_temps@[i].spec_keys()
    }

    /// A well-formed screen keeps, for each line, the keys of its template in
    /// component order, and one cached text per line.
    pub proof fn lemma_line_keys_are_template_keys(&self)
        requires
            self.wf(),
        ensures
            self.spec_line_keys().len() == self.spec_line_temps().len(),
            self.spec_cache().len() == self.spec_line_temps().len(),
            forall|i: int|
                0 <= i < self.spec_line_temps().len() ==> #[trigger] self.spec_line_keys()[i]
                    == self.spec_line_temps()[i].spec_keys(),
    {
    }

    /// What an update with the new texts of the lines writes: the cursor goes up
    /// over the lines and the bottom line, the lines are written, and the cursor
    /// goes down over the bottom line again.
    pub open spec fn update_text(&self, new_lines: Seq<Option<Seq<char>>>) -> Seq<char> {
        let n = self.spec_line_temps().len() as int;
        cursor_up((n + self.spec_bottom_height()) as nat)
            + lines_text(self.spec_prefix(), self.spec_suffix(), self.spec_cache(), new_lines, n)
            + repeat_char('\n', self.spec_bottom_height())
    }
}

} // verus!

verus! {

/// The number of newlines in the text.
fn count_newlines(line: &str) -> (res: usize)
    ensures
        res == newline_count(line@),
{
    let cs = chars_of(line);
    let mut count: usize = 0;
    let mut i: usize = 0;
    while i < cs.len()
        invariant
            i <= cs@.len(),
            cs@ == line@,
            count == newline_count(cs@.subrange(0, i as int)),
            count <= i,
        decreases cs@.len() - i,
    {
        assert(cs@.subrange(0, i + 1).drop_last() =~= cs@.subrange(0, i as int));
        if cs[i] == '\n' {
            count = count + 1;
        }
        i = i + 1;
    }
    assert(cs@.subrange(0, i as int) =~= cs@);
    count
}

/// A copy of an optional text.
fn copy_opt(s: &Option<String>) -> (res: Option<String>)
    ensures
        opt_view(res) == opt_view(*s),
{
    match s {
        Some(t) => Some(t.clone()),
        None => None,
    }
}

impl DumbLineByLineScreen {
    /// A screen of the lines formatted by the templates, in order, with the
    /// settings; nothing is written until [`DumbLineByLineScreen::init`].
    pub fn new(line_temps: Vec<DumbLineTemplate>, settings: LBLScreenSettings) -> (res: Self)
        ensures
            res.wf(),
            res.spec_line_temps() == line_temps@,
            res.spec_prefix() == opt_text(settings.line_prefix),
            res.spec_suffix() == opt_text(settings.line_suffix),
            res.spec_top_line() == opt_view(settings.top_line),
            res.spec_bottom_line() == opt_view(settings.bottom_line),
            res.spec_bottom_height() == match settings.bottom_line {
                Some(b) => line_height(b@),
                None => 0,
            },
            res.spec_cache() == Seq::new(line_temps@.len(), |i: int| None::<Seq<char>>),
            !res.spec_initialized(),
            res.spec_output() == Seq::<char>::empty(),
    {
        let mut line_keys: Vec<Vec<String>> = Vec::new();
        let mut line_cache: Vec<Option<String>> = Vec::new();
        let mut i: usize = 0;
        while i < line_temps.len()
            invariant
                i <= line_temps@.len(),
                line_keys@.len() == i,
                line_cache@.len() == i,
                forall|j: int| 0 <= j < i ==> (#[trigger] line_keys@[j])@.map_values(|k: String| k@) == line_temps@[j].spec_keys(),
                forall|j: int| 0 <= j < i ==> (#[trigger] line_cache@[j]) is None,
            decreases line_temps@.len() - i,
        {
            let keys = line_temps[i].scan_for_keys();
            line_keys.push(keys);
            line_cache.push(None);
            i = i + 1;
        }
        let bottom_newlines = match &settings.bottom_line {
            Some(b) => Some(count_newlines(b.as_str())),
            None => None,
        };
        let res = DumbLineByLineScreen {
            line_temps,
            line_prefix: settings.line_prefix,
            line_suffix: settings.line_suffix,
            top_line: settings.top_line,
            bottom_line: settings.bottom_line,
            bottom_newlines,
            line_keys,
            line_cache,
            initialized: false,
            output: String::new(),
        };
        assert(res.spec_cache() =~= Seq::new(res.line_temps@.len(), |i: int| None::<Seq<char>>));
        res
    }

    /// Gathers what starts the screen: the top line, an empty line for each
    /// formatted line, and the bottom line (each followed by a newline). Call it
    /// once, with the cursor at the start of a line.
    pub fn init(&mut self)
        requires
            !old(self).spec_initialized(),
        ensures
            final(self).spec_initialized(),
            final(self).spec_output() == old(self).spec_output() + old(self).init_text(),
            final(self).spec_line_temps() == old(self).spec_line_temps(),
            final(self).spec_cache() == old(self).spec_cache(),
            final(self).wf() == old(self).wf(),
            final(self).same_layout(*old(self)),
    {
        let mut out = String::new();
        match &self.top_line {
            Some(t) => {
                push_str(&mut out, t.as_str());
                push_char(&mut out, '\n');
            },
            None => {},
        }
        let ghost before = out@;
        let n = self.line_temps.len();
        let mut i: usize = 0;
        while i < n
            invariant
                i <= n,
                out@ == before + repeat_char('\n', i as nat),
            decreases n - i,
        {
            push_char(&mut out, '\n');
            i = i + 1;
            assert(out@ =~= before + repeat_char('\n', i as nat));
        }
        match &self.bottom_line {
            Some(b) => {
                push_str(&mut out, b.as_str());
                push_char(&mut out, '\n');
            },
            None => {},
        }
        push_str(&mut self.output, out.as_str());
        self.initialized = true;
        assert(self.spec_line_keys() == old(self).spec_line_keys());
    }

    /// What [`DumbLineByLineScreen::init`] writes.
    pub open spec fn init_text(&self) -> Seq<char> {
        (match self.spec_top_line() {
            Some(t) => t.push('\n'),
            None => Seq::empty(),
        }) + repeat_char('\n', self.spec_line_temps().len()) + (match self.spec_bottom_line() {
            Some(b) => b.push('\n'),
            None => Seq::empty(),
        })
    }

    /// The two screens have the same lines, prefix, suffix, top and bottom lines.
    pub open spec fn same_layout(&self, other: Self) -> bool {
        &&& self.spec_line_temps() == other.spec_line_temps()
        &&& self.spec_prefix() == other.spec_prefix()
        &&& self.spec_suffix() == other.spec_suffix()
        &&& self.spec_top_line() == other.spec_top_line()
        &&& self.spec_bottom_line() == other.spec_bottom_line()
        &&& self.spec_bottom_height() == other.spec_bottom_height()
        &&& self.spec_line_keys() == other.spec_line_keys()
    }

    /// Takes the text gathered so far, to be written to the terminal.
    pub fn take_output(&mut self) -> (res: String)
        ensures
            res@ == old(self).spec_output(),
            final(self).spec_output() == Seq::<char>::empty(),
            final(self).same_layout(*old(self)),
            final(self).spec_cache() == old(self).spec_cache(),
            final(self).spec_initialized() == old(self).spec_initialized(),
            final(self).wf() == old(self).wf(),
    {
        let mut out = String::new();
        std::mem::swap(&mut out, &mut self.output);
        assert(self.spec_line_keys() == old(self).spec_line_keys());
        out
    }
}

} // verus!

verus! {

/// The new texts of the lines as plain values.
pub open spec fn lines_view(lines: Seq<Option<String>>) -> Seq<Option<Seq<char>>> {
    lines.map_values(|l: Option<String>| opt_view(l))
}

/// Values resolved for the components of a template by the value mapper: one
/// call for each value-mapped component, with its key.
pub open spec fn values_from_mapper<T: LBLScreenMapValueTrait>(
    t: DumbLineTemplate,
    mapper: &T,
    vals: Seq<Option<(String, u16)>>,
) -> bool {
    &&& t.values_fit(vals)
    &&& forall|i: int|
        0 <= i < vals.len() ==> (#[trigger] t.spec_components()[i] matches LineTempComp::Mapped(m)
            ==> exists|k: &str| k@ == m.spec_key() && call_ensures(T::map_value, (mapper, k), vals[i]))
}

impl DumbLineByLineScreen {
    /// The keys, as plain values.
    pub open spec fn keys_view(keys: Option<&Vec<&str>>) -> Option<Seq<Seq<char>>> {
        match keys {
            Some(ks) => Some(ks@.map_values(|k: &str| k@)),
            None => None,
        }
    }

    /// Line `i` is formatted again for the keys.
    pub open spec fn line_refreshed(&self, keys: Option<Seq<Seq<char>>>, i: int) -> bool {
        refreshed(keys, self.spec_line_keys()[i])
    }

    /// Writes the lines that get new texts and differ from what they show; gives
    /// how many were written.
    fn apply_lines(&mut self, new_lines: Vec<Option<String>>) -> (res: usize)
        requires
            old(self).wf(),
            new_lines@.len() == old(self).spec_line_temps().len(),
        ensures
            res == changed_count(old(self).spec_cache(), lines_view(new_lines@), new_lines@.len() as int),
            final(self).spec_cache() == updated_cache(old(self).spec_cache(), lines_view(new_lines@)),
            final(self).spec_output() == old(self).spec_output() + old(self).update_text(lines_view(new_lines@)),
            final(self).same_layout(*old(self)),
            final(self).spec_initialized() == old(self).spec_initialized(),
            final(self).wf(),
    {
        let ghost nlv = lines_view(new_lines@);
        let ghost cache_v = self.spec_cache();
        let ghost prefix = self.spec_prefix();
        let ghost suffix = self.spec_suffix();
        let n = self.line_temps.len();
        let bottom: u128 = match self.bottom_newlines {
            Some(k) => k as u128 + 1,
            None => 0,
        };
        let mut out = String::new();
        push_str(&mut out, "\x1B[");
        push_str(&mut out, to_decimal(n as u128 + bottom).as_str());
        push_char(&mut out, 'A');
        proof {
            reveal_strlit("\x1B[");
        }
        let ghost head = out@;
        assert(head =~= cursor_up((n + self.spec_bottom_height()) as nat));
        let mut old_cache: Vec<Option<String>> = Vec::new();
        std::mem::swap(&mut old_cache, &mut self.line_cache);
        let mut new_cache: Vec<Option<String>> = Vec::new();
        let mut count: usize = 0;
        let mut i: usize = 0;
        while i < n
            invariant
                n == new_lines@.len(),
                n == old_cache@.len(),
                nlv == lines_view(new_lines@),
                cache_v == old_cache@.map_values(|c: Option<String>| opt_view(c)),
                prefix == opt_text(self.line_prefix),
                suffix == opt_text(self.line_suffix),
                i <= n,
                count <= i,
                count == changed_count(cache_v, nlv, i as int),
                out@ == head + lines_text(prefix, suffix, cache_v, nlv, i as int),
                new_cache@.len() == i,
                forall|j: int| 0 <= j < i ==> opt_view(#[trigger] new_cache@[j]) == updated_cache(cache_v, nlv)[j],
            decreases n - i,
        {
            let changed = match &new_lines[i] {
                Some(t) => match &old_cache[i] {
                    Some(c) => !c.eq(t),
                    None => true,
                },
                None => false,
            };
            assert(nlv[i as int] == opt_view(new_lines@[i as int]));
            assert(cache_v[i as int] == opt_view(old_cache@[i as int]));
            assert(changed == line_changes(cache_v, nlv, i as int));
            if changed {
                push_str(&mut out, "\x1B[0K");
                proof {
                    reveal_strlit("\x1B[0K");
                    assert("\x1B[0K"@ =~= clear_line());
                }
                match &self.line_prefix {
                    Some(p) => push_str(&mut out, p.as_str()),
                    None => {},
                }
                match &new_lines[i] {
                    Some(t) => push_str(&mut out, t.as_str()),
                    None => {},
                }
                match &self.line_suffix {
                    Some(s) => push_str(&mut out, s.as_str()),
                    None => {},
                }
                count = count + 1;
            }
            push_str(&mut out, "\r\n");
            proof {
                reveal_strlit("\r\n");
            }
            assert(out@ =~= head + lines_text(prefix, suffix, cache_v, nlv, i + 1));
            let kept = match &new_lines[i] {
                Some(t) => Some(t.clone()),
                None => match &old_cache[i] {
                    Some(c) => Some(c.clone()),
                    None => None,
                },
            };
            new_cache.push(kept);
            i = i + 1;
        }
        let ghost mid = out@;
        let mut b: u128 = 0;
        while b < bottom
            invariant
                b <= bottom,
                out@ == mid + repeat_char('\n', b as nat),
            decreases bottom - b,
        {
            push_char(&mut out, '\n');
            b = b + 1;
            assert(out@ =~= mid + repeat_char('\n', b as nat));
        }
        self.line_cache = new_cache;
        push_str(&mut self.output, out.as_str());
        assert(self.spec_cache() =~= updated_cache(cache_v, nlv));
        assert(self.spec_line_keys() == old(self).spec_line_keys());
        count
    }
}

} // verus!

verus! {

impl DumbLineByLineScreen {
    /// Whether line `i` is to be formatted again for the keys.
    fn line_wants(&self, keys: Option<&Vec<&str>>, i: usize) -> (res: bool)
        requires
            self.wf(),
            i < self.spec_line_temps().len(),
        ensures
            res == self.line_refreshed(Self::keys_view(keys), i as int),
    {
        match keys {
            None => true,
            Some(ks) => {
                let lks = &self.line_keys[i];
                let ghost kv = ks@.map_values(|k: &str| k@);
                let ghost lv = self.spec_line_keys()[i as int];
                assert(lv == lks@.map_values(|k: String| k@));
                assert(Self::keys_view(keys) == Some(kv));
                let mut j: usize = 0;
                while j < ks.len()
                    invariant
                        j <= ks@.len(),
                        kv == ks@.map_values(|k: &str| k@),
                        lv == lks@.map_values(|k: String| k@),
                        self.wf(),
                        i < self.spec_line_temps().len(),
                        Self::keys_view(keys) == Some(kv),
                        lv == self.spec_line_keys()[i as int],
                        forall|a: int, b: int| 0 <= a < j ==> !#[trigger] key_shared(kv, lv, a, b),
                    decreases ks@.len() - j,
                {
                    let mut l: usize = 0;
                    while l < lks.len()
                        invariant
                            j < ks@.len(),
                            l <= lks@.len(),
                            kv == ks@.map_values(|k: &str| k@),
                            lv == lks@.map_values(|k: String| k@),
                            self.wf(),
                            i < self.spec_line_temps().len(),
                            Self::keys_view(keys) == Some(kv),
                            lv == self.spec_line_keys()[i as int],
                            forall|a: int, b: int| 0 <= a < j ==> !#[trigger] key_shared(kv, lv, a, b),
                            forall|b: int| 0 <= b < l ==> !#[trigger] key_shared(kv, lv, j as int, b),
                        decreases lks@.len() - l,
                    {
                        if same_text(ks[j], lks[l].as_str()) {
                            assert(kv[j as int] == lv[l as int]);
                            assert(Self::keys_view(keys) == Some(kv));
                            assert(kv.len() == ks@.len());
                            assert(lv.len() == lks@.len());
                            assert(0 <= j < kv.len() && 0 <= l < lv.len());
                            assert(key_shared(kv, lv, j as int, l as int));
                            assert(shares_a_key(kv, lv));
                            return true;
                        }
                        l = l + 1;
                    }
                    j = j + 1;
                }
                false
            },
        }
    }
}

} // verus!

verus! {

/// The text that a template formats from the values a function gives.
pub open spec fn formats_by_fn<F: Fn(&str) -> Option<(String, u16)>>(
    t: DumbLineTemplate,
    f: F,
    line: Option<Seq<char>>,
) -> bool {
    exists|vals: Seq<Option<(String, u16)>>|
        #[trigger] t.values_from_fn(f, vals) && line == Some(t.spec_format(vals)->Ok_0) && t.spec_format(vals) is Ok
}

/// The text that a template formats from the values a value mapper gives.
pub open spec fn formats_by_mapper<T: LBLScreenMapValueTrait>(t: DumbLineTemplate, m: &T, line: Option<Seq<char>>) -> bool {
    exists|vals: Seq<Option<(String, u16)>>|
        #[trigger] values_from_mapper(t, m, vals) && line == Some(t.spec_format(vals)->Ok_0) && t.spec_format(vals) is Ok
}

impl DumbLineByLineScreen {
    /// Every line to be formatted again formats without fault from whatever
    /// values the function gives.
    pub open spec fn fn_formats_ok<F: Fn(&str) -> Option<(String, u16)>>(
        &self,
        keys: Option<Seq<Seq<char>>>,
        f: F,
    ) -> bool {
        forall|i: int, vals: Seq<Option<(String, u16)>>|
            0 <= i < self.spec_line_temps().len() && self.line_refreshed(keys, i)
                && #[trigger] self.spec_line_temps()[i].values_from_fn(f, vals) ==> {
                &&& self.spec_line_temps()[i].format_runs(vals)
                &&& self.spec_line_temps()[i].spec_format(vals) is Ok
            }
    }

    /// Every line to be formatted again formats without fault from whatever
    /// values the value mapper gives.
    pub open spec fn mapper_formats_ok<T: LBLScreenMapValueTrait>(
        &self,
        keys: Option<Seq<Seq<char>>>,
        m: &T,
    ) -> bool {
        forall|i: int, vals: Seq<Option<(String, u16)>>|
            0 <= i < self.spec_line_temps().len() && self.line_refreshed(keys, i)
                && #[trigger] values_from_mapper(self.spec_line_temps()[i], m, vals) ==> {
                &&& self.spec_line_temps()[i].format_runs(vals)
                &&& self.spec_line_temps()[i].spec_format(vals) is Ok
            }
    }

    /// The new texts of the lines: a line to be formatted again gets the text its
    /// template formats from the function's values; the others get none.
    pub open spec fn lines_from_fn<F: Fn(&str) -> Option<(String, u16)>>(
        &self,
        keys: Option<Seq<Seq<char>>>,
        f: F,
        nl: Seq<Option<Seq<char>>>,
    ) -> bool {
        &&& nl.len() == self.spec_line_temps().len()
        &&& forall|i: int|
            0 <= i < nl.len() ==> if self.line_refreshed(keys, i) {
                formats_by_fn(self.spec_line_temps()[i], f, #[trigger] nl[i])
            } else {
                nl[i] is None
            }
    }

    /// The new texts of the lines: a line to be formatted again gets the text its
    /// template formats from the value mapper's values; the others get none.
    pub open spec fn lines_from_mapper<T: LBLScreenMapValueTrait>(
        &self,
        keys: Option<Seq<Seq<char>>>,
        m: &T,
        nl: Seq<Option<Seq<char>>>,
    ) -> bool {
        &&& nl.len() == self.spec_line_temps().len()
        &&& forall|i: int|
            0 <= i < nl.len() ==> if self.line_refreshed(keys, i) {
                formats_by_mapper(self.spec_line_temps()[i], m, #[trigger] nl[i])
            } else {
                nl[i] is None
            }
    }

    /// The new texts of the lines, by a value-mapping function.
    fn new_lines_by_fn<F: Fn(&str) -> Option<(String, u16)>>(
        &self,
        keys: Option<&Vec<&str>>,
        map_value_fn: &F,
    ) -> (res: Vec<Option<String>>)
        requires
            self.wf(),
            forall|k: &str| call_requires(*map_value_fn, (k,)),
            self.fn_formats_ok(Self::keys_view(keys), *map_value_fn),
        ensures
            self.lines_from_fn(Self::keys_view(keys), *map_value_fn, lines_view(res@)),
    {
        let n = self.line_temps.len();
        let mut lines: Vec<Option<String>> = Vec::new();
        let mut i: usize = 0;
        while i < n
            invariant
                self.wf(),
                n == self.spec_line_temps().len(),
                forall|k: &str| call_requires(*map_value_fn, (k,)),
                self.fn_formats_ok(Self::keys_view(keys), *map_value_fn),
                i <= n,
                lines@.len() == i,
                forall|j: int|
                    0 <= j < i ==> if self.line_refreshed(Self::keys_view(keys), j) {
                        formats_by_fn(self.spec_line_temps()[j], *map_value_fn, #[trigger] opt_view(lines@[j]))
                    } else {
                        lines@[j] is None
                    },
            decreases n - i,
        {
            let line = if self.line_wants(keys, i) {
                let t = &self.line_temps[i];
                let vals = t.values_by_fn(map_value_fn);
                match t.format_values(&vals) {
                    Ok(s) => Some(s),
                    Err(_) => None,
                }
            } else {
                None
            };
            lines.push(line);
            i = i + 1;
        }
        assert(lines_view(lines@).len() == n);
        lines
    }

    /// The new texts of the lines, by a value-mapping function, or `None` where
    /// a line to be formatted again cannot be formatted from the values the
    /// function gives.
    fn checked_lines_by_fn<F: Fn(&str) -> Option<(String, u16)>>(
        &self,
        keys: Option<&Vec<&str>>,
        map_value_fn: &F,
    ) -> (res: Option<Vec<Option<String>>>)
        requires
            self.wf(),
            forall|k: &str| call_requires(*map_value_fn, (k,)),
        ensures
            match res {
                Some(lines) => self.lines_from_fn(Self::keys_view(keys), *map_value_fn, lines_view(lines@)),
                None => exists|i: int, vals: Seq<Option<(String, u16)>>|
                    0 <= i < self.spec_line_temps().len() && self.line_refreshed(Self::keys_view(keys), i)
                        && #[trigger] self.spec_line_temps()[i].values_from_fn(*map_value_fn, vals) && !(
                    self.spec_line_temps()[i].format_runs(vals) && self.spec_line_temps()[i].spec_format(vals) is Ok),
            },
    {
        let n = self.line_temps.len();
        let mut lines: Vec<Option<String>> = Vec::new();
        let mut i: usize = 0;
        while i < n
            invariant
                self.wf(),
                n == self.spec_line_temps().len(),
                forall|k: &str| call_requires(*map_value_fn, (k,)),
                i <= n,
                lines@.len() == i,
                forall|j: int|
                    0 <= j < i ==> if self.line_refreshed(Self::keys_view(keys), j) {
                        formats_by_fn(self.spec_line_temps()[j], *map_value_fn, #[trigger] opt_view(lines@[j]))
                    } else {
                        lines@[j] is None
                    },
            decreases n - i,
        {
            let line = if self.line_wants(keys, i) {
                let t = &self.line_temps[i];
                let vals = t.values_by_fn(map_value_fn);
                if !t.can_format_values(&vals) {
                    return None;
                }
                match t.format_values(&vals) {
                    Ok(s) => Some(s),
                    Err(_) => {
                        return None;
                    },
                }
            } else {
                None
            };
            lines.push(line);
            i = i + 1;
        }
        assert(lines_view(lines@).len() == n);
        Some(lines)
    }

    /// The new texts of the lines, by a value mapper, or `None` where a line to
    /// be formatted again cannot be formatted from the values the mapper gives.
    fn checked_lines_by_mapper<T: LBLScreenMapValueTrait>(&self, keys: Option<&Vec<&str>>, mapper: &T) -> (res:
        Option<Vec<Option<String>>>)
        requires
            self.wf(),
        ensures
            match res {
                Some(lines) => self.lines_from_mapper(Self::keys_view(keys), mapper, lines_view(lines@)),
                None => exists|i: int, vals: Seq<Option<(String, u16)>>|
                    0 <= i < self.spec_line_temps().len() && self.line_refreshed(Self::keys_view(keys), i)
                        && #[trigger] values_from_mapper(self.spec_line_temps()[i], mapper, vals) && !(
                    self.spec_line_temps()[i].format_runs(vals) && self.spec_line_temps()[i].spec_format(vals) is Ok),
            },
    {
        let n = self.line_temps.len();
        let mut lines: Vec<Option<String>> = Vec::new();
        let mut i: usize = 0;
        while i < n
            invariant
                self.wf(),
                n == self.spec_line_temps().len(),
                i <= n,
                lines@.len() == i,
                forall|j: int|
                    0 <= j < i ==> if self.line_refreshed(Self::keys_view(keys), j) {
                        formats_by_mapper(self.spec_line_temps()[j], mapper, #[trigger] opt_view(lines@[j]))
                    } else {
                        lines@[j] is None
                    },
            decreases n - i,
        {
            let line = if self.line_wants(keys, i) {
                let t = &self.line_temps[i];
                let vals = t.values_by_mapper(mapper);
                if !t.can_format_values(&vals) {
                    return None;
                }
                match t.format_values(&vals) {
                    Ok(s) => Some(s),
                    Err(_) => {
                        return None;
                    },
                }
            } else {
                None
            };
            lines.push(line);
            i = i + 1;
        }
        assert(lines_view(lines@).len() == n);
        Some(lines)
    }

    /// The new texts of the lines, by a value mapper.
    fn new_lines_by_mapper<T: LBLScreenMapValueTrait>(&self, keys: Option<&Vec<&str>>, mapper: &T) -> (res: Vec<
        Option<String>,
    >)
        requires
            self.wf(),
            self.mapper_formats_ok(Self::keys_view(keys), mapper),
        ensures
            self.lines_from_mapper(Self::keys_view(keys), mapper, lines_view(res@)),
    {
        let n = self.line_temps.len();
        let mut lines: Vec<Option<String>> = Vec::new();
        let mut i: usize = 0;
        while i < n
            invariant
                self.wf(),
                n == self.spec_line_temps().len(),
                self.mapper_formats_ok(Self::keys_view(keys), mapper),
                i <= n,
                lines@.len() == i,
                forall|j: int|
                    0 <= j < i ==> if self.line_refreshed(Self::keys_view(keys), j) {
                        formats_by_mapper(self.spec_line_temps()[j], mapper, #[trigger] opt_view(lines@[j]))
                    } else {
                        lines@[j] is None
                    },
            decreases n - i,
        {
            let line = if self.line_wants(keys, i) {
                let t = &self.line_temps[i];
                let vals = t.values_by_mapper(mapper);
                match t.format_values(&vals) {
                    Ok(s) => Some(s),
                    Err(_) => None,
                }
            } else {
                None
            };
            lines.push(line);
            i = i + 1;
        }
        assert(lines_view(lines@).len() == n);
        lines
    }
}

} // verus!

verus! {

impl DumbLineByLineScreen {
    /// Formats every line again with the values of the value mapper, and gathers
    /// the update of the screen: the lines whose text changed are rewritten.
    /// Gives how many lines were rewritten.
    pub fn refresh<T: LBLScreenMapValueTrait>(&mut self, value_mapper: &T) -> (res: usize)
        requires
            old(self).wf(),
            old(self).spec_initialized(),
            old(self).mapper_formats_ok(None, value_mapper),
        ensures
            exists|nl: Seq<Option<Seq<char>>>| {
                &&& #[trigger] old(self).lines_from_mapper(None, value_mapper, nl)
                &&& res == changed_count(old(self).spec_cache(), nl, nl.len() as int)
                &&& final(self).spec_cache() == updated_cache(old(self).spec_cache(), nl)
                &&& final(self).spec_output() == old(self).spec_output() + old(self).update_text(nl)
            },
            final(self).same_layout(*old(self)),
            final(self).spec_initialized(),
            final(self).wf(),
    {
        let lines = self.new_lines_by_mapper(None, value_mapper);
        self.apply_lines(lines)
    }

    /// Like [`DumbLineByLineScreen::refresh`], with a function that gives the
    /// value of a key together with its width.
    pub fn refresh_ex<F: Fn(&str) -> Option<(String, u16)>>(&mut self, map_value_fn: F) -> (res: usize)
        requires
            old(self).wf(),
            old(self).spec_initialized(),
            forall|k: &str| call_requires(map_value_fn, (k,)),
            old(self).fn_formats_ok(None, map_value_fn),
        ensures
            exists|nl: Seq<Option<Seq<char>>>| {
                &&& #[trigger] old(self).lines_from_fn(None, map_value_fn, nl)
                &&& res == changed_count(old(self).spec_cache(), nl, nl.len() as int)
                &&& final(self).spec_cache() == updated_cache(old(self).spec_cache(), nl)
                &&& final(self).spec_output() == old(self).spec_output() + old(self).update_text(nl)
            },
            final(self).same_layout(*old(self)),
            final(self).spec_initialized(),
            final(self).wf(),
    {
        let lines = self.new_lines_by_fn(None, &map_value_fn);
        self.apply_lines(lines)
    }

    /// Like [`DumbLineByLineScreen::refresh`], for any value mapper: where a
    /// line cannot be formatted from the values the mapper gives, nothing is
    /// written and `None` is given.
    pub fn try_refresh<T: LBLScreenMapValueTrait>(&mut self, value_mapper: &T) -> (res: Option<usize>)
        requires
            old(self).wf(),
            old(self).spec_initialized(),
        ensures
            match res {
                Some(count) => exists|nl: Seq<Option<Seq<char>>>| {
                    &&& #[trigger] old(self).lines_from_mapper(None, value_mapper, nl)
                    &&& count == changed_count(old(self).spec_cache(), nl, nl.len() as int)
                    &&& final(self).spec_cache() == updated_cache(old(self).spec_cache(), nl)
                    &&& final(self).spec_output() == old(self).spec_output() + old(self).update_text(nl)
                },
                None => {
                    &&& *final(self) == *old(self)
                    &&& exists|i: int, vals: Seq<Option<(String, u16)>>|
                        0 <= i < old(self).spec_line_temps().len() && #[trigger] values_from_mapper(
                            old(self).spec_line_temps()[i],
                            value_mapper,
                            vals,
                        ) && !(old(self).spec_line_temps()[i].format_runs(vals)
                            && old(self).spec_line_temps()[i].spec_format(vals) is Ok)
                },
            },
            final(self).same_layout(*old(self)),
            final(self).spec_initialized(),
            final(self).wf(),
    {
        match self.checked_lines_by_mapper(None, value_mapper) {
            Some(lines) => Some(self.apply_lines(lines)),
            None => None,
        }
    }

    /// Like [`DumbLineByLineScreen::refresh_ex`], for any value function: where a
    /// line cannot be formatted from the values the function gives, nothing is
    /// written and `None` is given.
    pub fn try_refresh_ex<F: Fn(&str) -> Option<(String, u16)>>(&mut self, map_value_fn: F) -> (res: Option<usize>)
        requires
            old(self).wf(),
            old(self).spec_initialized(),
            forall|k: &str| call_requires(map_value_fn, (k,)),
        ensures
            match res {
                Some(count) => exists|nl: Seq<Option<Seq<char>>>| {
                    &&& #[trigger] old(self).lines_from_fn(None, map_value_fn, nl)
                    &&& count == changed_count(old(self).spec_cache(), nl, nl.len() as int)
                    &&& final(self).spec_cache() == updated_cache(old(self).spec_cache(), nl)
                    &&& final(self).spec_output() == old(self).spec_output() + old(self).update_text(nl)
                },
                None => {
                    &&& *final(self) == *old(self)
                    &&& exists|i: int, vals: Seq<Option<(String, u16)>>|
                        0 <= i < old(self).spec_line_temps().len()
                            && #[trigger] old(self).spec_line_temps()[i].values_from_fn(map_value_fn, vals) && !(
                        old(self).spec_line_temps()[i].format_runs(vals)
                            && old(self).spec_line_temps()[i].spec_format(vals) is Ok)
                },
            },
            final(self).same_layout(*old(self)),
            final(self).spec_initialized(),
            final(self).wf(),
    {
        match self.checked_lines_by_fn(None, &map_value_fn) {
            Some(lines) => Some(self.apply_lines(lines)),
            None => None,
        }
    }

    /// Like [`DumbLineByLineScreen::refresh`], but formats again only the lines
    /// with one of the keys given (the values of the others are taken as
    /// unchanged).
    pub fn refresh_for_keys<T: LBLScreenMapValueTrait>(&mut self, keys: &Vec<&str>, value_mapper: &T) -> (res: usize)
        requires
            old(self).wf(),
            old(self).spec_initialized(),
            old(self).mapper_formats_ok(Self::keys_view(Some(keys)), value_mapper),
        ensures
            exists|nl: Seq<Option<Seq<char>>>| {
                &&& #[trigger] old(self).lines_from_mapper(Self::keys_view(Some(keys)), value_mapper, nl)
                &&& res == changed_count(old(self).spec_cache(), nl, nl.len() as int)
                &&& final(self).spec_cache() == updated_cache(old(self).spec_cache(), nl)
                &&& final(self).spec_output() == old(self).spec_output() + old(self).update_text(nl)
            },
            final(self).same_layout(*old(self)),
            final(self).spec_initialized(),
            final(self).wf(),
    {
        let lines = self.new_lines_by_mapper(Some(keys), value_mapper);
        self.apply_lines(lines)
    }

    /// Like [`DumbLineByLineScreen::refresh_for_keys`], for any value mapper:
    /// where a line to be formatted again cannot be formatted from the values the
    /// mapper gives, nothing is written and `None` is given.
    pub fn try_refresh_for_keys<T: LBLScreenMapValueTrait>(&mut self, keys: &Vec<&str>, value_mapper: &T) -> (res:
        Option<usize>)
        requires
            old(self).wf(),
            old(self).spec_initialized(),
        ensures
            match res {
                Some(count) => exists|nl: Seq<Option<Seq<char>>>| {
                    &&& #[trigger] old(self).lines_from_mapper(Self::keys_view(Some(keys)), value_mapper, nl)
                    &&& count == changed_count(old(self).spec_cache(), nl, nl.len() as int)
                    &&& final(self).spec_cache() == updated_cache(old(self).spec_cache(), nl)
                    &&& final(self).spec_output() == old(self).spec_output() + old(self).update_text(nl)
                },
                None => {
                    &&& *final(self) == *old(self)
                    &&& exists|i: int, vals: Seq<Option<(String, u16)>>|
                        0 <= i < old(self).spec_line_temps().len() && old(self).line_refreshed(
                            Self::keys_view(Some(keys)),
                            i,
                        ) && #[trigger] values_from_mapper(old(self).spec_line_temps()[i], value_mapper, vals) && !(
                        old(self).spec_line_temps()[i].format_runs(vals)
                            && old(self).spec_line_temps()[i].spec_format(vals) is Ok)
                },
            },
            final(self).same_layout(*old(self)),
            final(self).spec_initialized(),
            final(self).wf(),
    {
        match self.checked_lines_by_mapper(Some(keys), value_mapper) {
            Some(lines) => Some(self.apply_lines(lines)),
            None => None,
        }
    }

    /// Like [`DumbLineByLineScreen::refresh_for_keys_ex`], for any value
    /// function: where a line to be formatted again cannot be formatted from the
    /// values the function gives, nothing is written and `None` is given.
    pub fn try_refresh_for_keys_ex<F: Fn(&str) -> Option<(String, u16)>>(
        &mut self,
        keys: &Vec<&str>,
        map_value_fn: F,
    ) -> (res: Option<usize>)
        requires
            old(self).wf(),
            old(self).spec_initialized(),
            forall|k: &str| call_requires(map_value_fn, (k,)),
        ensures
            match res {
                Some(count) => exists|nl: Seq<Option<Seq<char>>>| {
                    &&& #[trigger] old(self).lines_from_fn(Self::keys_view(Some(keys)), map_value_fn, nl)
                    &&& count == changed_count(old(self).spec_cache(), nl, nl.len() as int)
                    &&& final(self).spec_cache() == updated_cache(old(self).spec_cache(), nl)
                    &&& final(self).spec_output() == old(self).spec_output() + old(self).update_text(nl)
                },
                None => {
                    &&& *final(self) == *old(self)
                    &&& exists|i: int, vals: Seq<Option<(String, u16)>>|
                        0 <= i < old(self).spec_line_temps().len() && old(self).line_refreshed(
                            Self::keys_view(Some(keys)),
                            i,
                        ) && #[trigger] old(self).spec_line_temps()[i].values_from_fn(map_value_fn, vals) && !(
                        old(self).spec_line_temps()[i].format_runs(vals)
                            && old(self).spec_line_temps()[i].spec_format(vals) is Ok)
                },
            },
            final(self).same_layout(*old(self)),
            final(self).spec_initialized(),
            final(self).wf(),
    {
        match self.checked_lines_by_fn(Some(keys), &map_value_fn) {
            Some(lines) => Some(self.apply_lines(lines)),
            None => None,
        }
    }

    /// Like [`DumbLineByLineScreen::refresh_for_keys`], with a function that
    /// gives the value of a key together with its width.
    pub fn refresh_for_keys_ex<F: Fn(&str) -> Option<(String, u16)>>(&mut self, keys: &Vec<&str>, map_value_fn: F) -> (res: usize)
        requires
            old(self).wf(),
            old(self).spec_initialized(),
            forall|k: &str| call_requires(map_value_fn, (k,)),
            old(self).fn_formats_ok(Self::keys_view(Some(keys)), map_value_fn),
        ensures
            exists|nl: Seq<Option<Seq<char>>>| {
                &&& #[trigger] old(self).lines_from_fn(Self::keys_view(Some(keys)), map_value_fn, nl)
                &&& res == changed_count(old(self).spec_cache(), nl, nl.len() as int)
                &&& final(self).spec_cache() == updated_cache(old(self).spec_cache(), nl)
                &&& final(self).spec_output() == old(self).spec_output() + old(self).update_text(nl)
            },
            final(self).same_layout(*old(self)),
            final(self).spec_initialized(),
            final(self).wf(),
    {
        let lines = self.new_lines_by_fn(Some(keys), &map_value_fn);
        self.apply_lines(lines)
    }
}

} // verus!

verus! {

/// The value of a key in a map, with its width in bytes.
impl<'a> LBLScreenMapValueTrait for std::collections::HashMap<&'a str, String> {
    /// The value that the map holds for the key (a copy), with its width (its
    /// length in bytes, as a `u16`); `None` where the map holds no value for the key.
    fn map_value(&self, key: &str) -> (res: Option<(String, u16)>)
        ensures
            res matches Some((v, w)) ==> w == text_width(v@),
            obeys_key_model::<&'a str>() && builds_valid_hashers::<RandomState>() ==> match res {
                Some((v, _)) => maps_borrowed_key_to_value(self@, key, v),
                None => !contains_borrowed_key(self@, key),
            },
    {
        match self.get(key) {
            Some(v) => {
                let w = v.as_str().as_bytes().len();
                Some((v.clone(), w as u16))
            },
            None => None,
        }
    }
}

/// The value of a key in a list of key/value pairs, with its width in bytes.
impl LBLScreenMapValueTrait for Vec<(String, String)> {
    /// The value of the first pair with the key (a copy), with its width (its
    /// length in bytes, as a `u16`); `None` where no pair has the key.
    fn map_value(&self, key: &str) -> (res: Option<(String, u16)>)
        ensures
            res == lookup_value(self@, key@),
    {
        let k = String::from_str(key);
        lookup(self, &k)
    }
}

/// The value of a key in a map, with its width in bytes.
impl<'a, 'b> LBLScreenMapValueTrait for std::collections::HashMap<&'a str, &'b str> {
    /// The value that the map holds for the key (as a `String`), with its
    /// width (its length in bytes, as a `u16`); `None` where the map holds no value for
    /// the key.
    fn map_value(&self, key: &str) -> (res: Option<(String, u16)>)
        ensures
            res matches Some((v, w)) ==> w == text_width(v@),
            obeys_key_model::<&'a str>() && builds_valid_hashers::<RandomState>() ==> match res {
                Some((v, _)) => exists|t: &'b str| maps_borrowed_key_to_value(self@, key, t) && t@ == v@,
                None => !contains_borrowed_key(self@, key),
            },
    {
        match self.get(key) {
            Some(v) => {
                let w = v.as_bytes().len();
                Some((String::from_str(*v), w as u16))
            },
            None => None,
        }
    }
}

} // verus!

verus! {

/// Lines are cached: once the screen shows the new texts of an update, the same
/// update rewrites no line and leaves the screen as it is.
pub proof fn lemma_same_update_rewrites_nothing(cache: Seq<Option<Seq<char>>>, new_lines: Seq<Option<Seq<char>>>, k: int)
    requires
        new_lines.len() == cache.len(),
        0 <= k <= cache.len(),
    ensures
        changed_count(updated_cache(cache, new_lines), new_lines, k) == 0,
        updated_cache(updated_cache(cache, new_lines), new_lines) == updated_cache(cache, new_lines),
    decreases k,
{
    if k > 0 {
        lemma_same_update_rewrites_nothing(cache, new_lines, k - 1);
        assert(!line_changes(updated_cache(cache, new_lines), new_lines, k - 1));
    }
    assert(updated_cache(updated_cache(cache, new_lines), new_lines) =~= updated_cache(cache, new_lines));
}

/// A list of key/value pairs gives a template one set of values: the value of
/// each value-mapped component is that of the first pair with its key.
proof fn lemma_pairs_values_unique(t: DumbLineTemplate, map: &Vec<(String, String)>, vals: Seq<Option<(String, u16)>>)
    requires
        values_from_mapper(t, map, vals),
    ensures
        vals == t.values_from_map(map@),
{
    let target = t.values_from_map(map@);
    assert forall|i: int| 0 <= i < vals.len() implies vals[i] == target[i] by {
        match t.spec_components()[i] {
            LineTempComp::Mapped(m) => {
                let k = choose|k: &str|
                    k@ == m.spec_key() && call_ensures(
                        <Vec<(String, String)> as LBLScreenMapValueTrait>::map_value,
                        (map, k),
                        vals[i],
                    );
                assert(vals[i] == lookup_value(map@, k@));
            },
            LineTempComp::Fixed(_, _) => {},
        }
    }
    assert(vals =~= target);
}

/// Refreshing twice with the same key/value pairs: the pairs give the same new
/// lines both times, so the second refresh rewrites no line and leaves the
/// lines shown as they are.
pub proof fn lemma_refresh_with_pairs_twice(
    s1: DumbLineByLineScreen,
    s2: DumbLineByLineScreen,
    map: &Vec<(String, String)>,
    nl1: Seq<Option<Seq<char>>>,
    nl2: Seq<Option<Seq<char>>>,
)
    requires
        s1.wf(),
        s2.same_layout(s1),
        s1.lines_from_mapper(None, map, nl1),
        s2.lines_from_mapper(None, map, nl2),
        s2.spec_cache() == updated_cache(s1.spec_cache(), nl1),
    ensures
        nl2 == nl1,
        changed_count(s2.spec_cache(), nl2, nl2.len() as int) == 0,
        updated_cache(s2.spec_cache(), nl2) == s2.spec_cache(),
{
    assert forall|i: int| 0 <= i < nl1.len() implies nl2[i] == nl1[i] by {
        let t = s1.spec_line_temps()[i];
        assert(formats_by_mapper(t, map, nl1[i]));
        assert(formats_by_mapper(t, map, nl2[i]));
        let v1 = choose|vals: Seq<Option<(String, u16)>>|
            #[trigger] values_from_mapper(t, map, vals) && nl1[i] == Some(t.spec_format(vals)->Ok_0)
                && t.spec_format(vals) is Ok;
        let v2 = choose|vals: Seq<Option<(String, u16)>>|
            #[trigger] values_from_mapper(t, map, vals) && nl2[i] == Some(t.spec_format(vals)->Ok_0)
                && t.spec_format(vals) is Ok;
        lemma_pairs_values_unique(t, map, v1);
        lemma_pairs_values_unique(t, map, v2);
    }
    assert(nl2 =~= nl1);
    lemma_same_update_rewrites_nothing(s1.spec_cache(), nl1, nl1.len() as int);
}

} // verus!
