//! A simple line template for formatting a line, which might be helpful in
//! creating a terminal-oriented UI -- [`DumbLineTemplate`].
//!
//! The width of a text is its length in bytes (what `str::len` gives); a value
//! cut short is cut at that many bytes, which must fall on a character boundary.

use vstd::prelude::*;
use vstd::string::*;

use crate::text::{repeat_char, repeat_string, push_str, to_decimal, decimal, utf8_len, chars_in_bytes, chars_in_first_bytes, lemma_chars_in_bytes, lemma_utf8_len_append, lemma_utf8_len_spaces};
use crate::lblscreen::{LBLScreenMapValueTrait, values_from_mapper};

verus! {

broadcast use vstd::string::group_string_axioms;

/// for internal use only: the template spreads extra (or missing) width over
/// the value-mapped components in proportion to their width ranges
pub const FLEXIBLE_WIDTH_EX: bool = true;

/// Settings of a value-mapped component.
#[derive(Debug, Clone)]
pub struct MappedLineTempCompSettings {
    pub min_width: u16,
    pub max_width: u16,
    pub align: char,
    pub optional: bool,
}

impl Default for MappedLineTempCompSettings {
    fn default() -> (res: Self)
        ensures
            res.min_width == 1,
            res.max_width == u16::MAX,
            res.align == 'L',
            !res.optional,
    {
        MappedLineTempCompSettings { min_width: 1, max_width: u16::MAX, align: 'L', optional: false }
    }
}

/// A value-mapped component of a [`DumbLineTemplate`]: its value is looked up by key
/// when the line is formatted.
#[derive(Debug, Clone)]
pub struct MappedLineTempComp {
    key: String,
    min_width: u16,
    max_width: u16,
    align: char,
    optional: bool,
}

/// A component of a [`DumbLineTemplate`]: either value-mapped, or a fixed text with
/// its "visual" width (which may differ from its length for ASCII-escaped text).
#[derive(Debug, Clone)]
pub enum LineTempComp {
    Mapped(MappedLineTempComp),
    Fixed(String, u16),
}

/// A fixed component of ASCII-escaped text, given with its "visual" width.
pub struct EscapedLineTempComp {
    value: String,
    width: u16,
}

/// A builder of a value-mapped component of a [`DumbLineTemplate`].
pub struct MappedLineTempCompBuilder {
    key: String,
    min_width: u16,
    max_width: u16,
    align: char,
    optional: bool,
}

/// A simple line template for formatting a line, say for use of terminal-oriented UI.
#[derive(Debug)]
pub struct DumbLineTemplate {
    min_width: u16,
    max_width: u16,
    components: Vec<LineTempComp>,
}

impl MappedLineTempComp {
    pub closed spec fn spec_key(&self) -> Seq<char> {
        self.key@
    }

    pub closed spec fn spec_min_width(&self) -> u16 {
        self.min_width
    }

    pub closed spec fn spec_max_width(&self) -> u16 {
        self.max_width
    }

    pub closed spec fn spec_align(&self) -> char {
        self.align
    }

    pub closed spec fn spec_optional(&self) -> bool {
        self.optional
    }

    /// A component can be formatted: its widths are ordered and its alignment known.
    pub open spec fn wf(&self) -> bool {
        &&& self.spec_min_width() <= self.spec_max_width()
        &&& (self.spec_align() == 'L' || self.spec_align() == 'R' || self.spec_align() == 'C')
    }

    /// create a value-mapped component from its key and settings
    pub fn new(key: &str, settings: &MappedLineTempCompSettings) -> (res: Self)
        ensures
            res.spec_key() == key@,
            res.spec_min_width() == settings.min_width,
            res.spec_max_width() == settings.max_width,
            res.spec_align() == settings.align,
            res.spec_optional() == settings.optional,
    {
        MappedLineTempComp {
            key: key.to_owned(),
            min_width: settings.min_width,
            max_width: settings.max_width,
            align: settings.align,
            optional: settings.optional,
        }
    }

    fn get_min_width(&self) -> (res: u16)
        ensures
            res == self.spec_min_width(),
    {
        self.min_width
    }

    fn get_max_width(&self) -> (res: u16)
        ensures
            res == self.spec_max_width(),
    {
        self.max_width
    }

    fn is_optional(&self) -> (res: bool)
        ensures
            res == self.spec_optional(),
    {
        self.optional
    }

    pub(crate) fn get_map_key(&self) -> (res: &str)
        ensures
            res@ == self.spec_key(),
    {
        self.key.as_str()
    }

    fn duplicate(&self) -> (res: Self)
        ensures
            res == *self,
    {
        MappedLineTempComp {
            key: self.key.clone(),
            min_width: self.min_width,
            max_width: self.max_width,
            align: self.align,
            optional: self.optional,
        }
    }
}

impl LineTempComp {
    fn duplicate(&self) -> (res: Self)
        ensures
            res == *self,
    {
        match self {
            LineTempComp::Mapped(m) => LineTempComp::Mapped(m.duplicate()),
            LineTempComp::Fixed(s, w) => LineTempComp::Fixed(s.clone(), *w),
        }
    }
}

fn duplicate_comps(comps: &Vec<LineTempComp>) -> (res: Vec<LineTempComp>)
    ensures
        res@ == comps@,
{
    let mut res: Vec<LineTempComp> = Vec::new();
    let mut i: usize = 0;
    while i < comps.len()
        invariant
            i <= comps@.len(),
            res@ == comps@.subrange(0, i as int),
        decreases comps@.len() - i,
    {
        res.push(comps[i].duplicate());
        i = i + 1;
        assert(res@ =~= comps@.subrange(0, i as int));
    }
    assert(comps@.subrange(0, i as int) =~= comps@);
    res
}

impl EscapedLineTempComp {
    pub closed spec fn spec_value(&self) -> Seq<char> {
        self.value@
    }

    pub closed spec fn spec_width(&self) -> u16 {
        self.width
    }

    /// an escaped text with the "visual" width given
    pub fn new(value: String, width: u16) -> (res: Self)
        ensures
            res.spec_value() == value@,
            res.spec_width() == width,
    {
        EscapedLineTempComp { value, width }
    }
}

impl MappedLineTempCompBuilder {
    pub closed spec fn spec_key(&self) -> Seq<char> {
        self.key@
    }

    pub closed spec fn spec_min_width(&self) -> u16 {
        self.min_width
    }

    pub closed spec fn spec_max_width(&self) -> u16 {
        self.max_width
    }

    pub closed spec fn spec_align(&self) -> char {
        self.align
    }

    pub closed spec fn spec_optional(&self) -> bool {
        self.optional
    }

    /// start building a component for the key; it is required, left-aligned,
    /// at least 1 and at most `u16::MAX` wide
    pub fn new(key: &str) -> (res: Self)
        ensures
            res.spec_key() == key@,
            res.spec_min_width() == 1,
            res.spec_max_width() == u16::MAX,
            res.spec_align() == 'L',
            !res.spec_optional(),
    {
        MappedLineTempCompBuilder {
            key: key.to_owned(),
            min_width: 1,
            max_width: u16::MAX,
            align: 'L',
            optional: false,
        }
    }

    /// set the component to be optional
    pub fn optional(&mut self, optional: bool) -> (res: &mut MappedLineTempCompBuilder)
        ensures
            *final(self) == *final(res),
            res.spec_optional() == optional,
            res.spec_key() == old(self).spec_key(),
            res.spec_min_width() == old(self).spec_min_width(),
            res.spec_max_width() == old(self).spec_max_width(),
            res.spec_align() == old(self).spec_align(),
    {
        self.optional = optional;
        self
    }

    /// set the min and max widths of the component to be the same fixed width
    pub fn fixed_width(&mut self, fixed_width: u16) -> (res: &mut MappedLineTempCompBuilder)
        ensures
            *final(self) == *final(res),
            res.spec_min_width() == fixed_width,
            res.spec_max_width() == fixed_width,
            res.spec_key() == old(self).spec_key(),
            res.spec_optional() == old(self).spec_optional(),
            res.spec_align() == old(self).spec_align(),
    {
        self.min_width = fixed_width;
        self.max_width = fixed_width;
        self
    }

    /// set the min width of the component, keeping the max width unchanged
    pub fn min_width(&mut self, min_width: u16) -> (res: &mut MappedLineTempCompBuilder)
        ensures
            *final(self) == *final(res),
            res.spec_min_width() == min_width,
            res.spec_max_width() == old(self).spec_max_width(),
            res.spec_key() == old(self).spec_key(),
            res.spec_optional() == old(self).spec_optional(),
            res.spec_align() == old(self).spec_align(),
    {
        self.min_width = min_width;
        self
    }

    /// set the max width of the component, keeping the min width unchanged
    pub fn max_width(&mut self, max_width: u16) -> (res: &mut MappedLineTempCompBuilder)
        ensures
            *final(self) == *final(res),
            res.spec_max_width() == max_width,
            res.spec_min_width() == old(self).spec_min_width(),
            res.spec_key() == old(self).spec_key(),
            res.spec_optional() == old(self).spec_optional(),
            res.spec_align() == old(self).spec_align(),
    {
        self.max_width = max_width;
        self
    }

    /// set the alignment of the component: 'L' for left, 'R' for right, 'C' for center
    pub fn align(&mut self, align: char) -> (res: &mut MappedLineTempCompBuilder)
        ensures
            *final(self) == *final(res),
            res.spec_align() == align,
            res.spec_min_width() == old(self).spec_min_width(),
            res.spec_max_width() == old(self).spec_max_width(),
            res.spec_key() == old(self).spec_key(),
            res.spec_optional() == old(self).spec_optional(),
    {
        self.align = align;
        self
    }

    /// the component built from the settings so far
    pub fn build(&self) -> (res: MappedLineTempComp)
        ensures
            res.spec_key() == self.spec_key(),
            res.spec_min_width() == self.spec_min_width(),
            res.spec_max_width() == self.spec_max_width(),
            res.spec_align() == self.spec_align(),
            res.spec_optional() == self.spec_optional(),
    {
        MappedLineTempComp {
            key: self.key.clone(),
            min_width: self.min_width,
            max_width: self.max_width,
            align: self.align,
            optional: self.optional,
        }
    }
}

/// The width of a text: the length in bytes of its UTF-8 encoding (what
/// `str::len` gives), as a `u16` (wrapping as `as u16` does).
pub open spec fn text_width(s: Seq<char>) -> u16 {
    (utf8_len(s) as int) as u16
}

/// Conversion of a value into a component of a [`DumbLineTemplate`].
pub trait LineTempCompTrait {
    fn to_line_temp_comp(&self) -> LineTempComp;
}

impl LineTempCompTrait for MappedLineTempCompBuilder {
    fn to_line_temp_comp(&self) -> (res: LineTempComp)
        ensures
            res matches LineTempComp::Mapped(m) && m.spec_key() == self.spec_key()
                && m.spec_min_width() == self.spec_min_width()
                && m.spec_max_width() == self.spec_max_width() && m.spec_align()
                == self.spec_align() && m.spec_optional() == self.spec_optional(),
    {
        LineTempComp::Mapped(self.build())
    }
}

impl LineTempCompTrait for EscapedLineTempComp {
    fn to_line_temp_comp(&self) -> (res: LineTempComp)
        ensures
            res matches LineTempComp::Fixed(s, w) && s@ == self.spec_value() && w
                == self.spec_width(),
    {
        LineTempComp::Fixed(self.value.clone(), self.width)
    }
}

impl LineTempCompTrait for String {
    fn to_line_temp_comp(&self) -> (res: LineTempComp)
        ensures
            res matches LineTempComp::Fixed(s, w) && s@ == self@ && w == text_width(self@),
    {
        let n = self.as_str().as_bytes().len();
        LineTempComp::Fixed(self.clone(), n as u16)
    }
}

impl LineTempCompTrait for &str {
    fn to_line_temp_comp(&self) -> (res: LineTempComp)
        ensures
            res matches LineTempComp::Fixed(s, w) && s@ == self@ && w == text_width(self@),
    {
        let n = self.as_bytes().len();
        LineTempComp::Fixed((*self).to_owned(), n as u16)
    }
}

impl LineTempCompTrait for (String, usize) {
    fn to_line_temp_comp(&self) -> (res: LineTempComp)
        ensures
            res matches LineTempComp::Fixed(s, w) && s@ == self.0@ && w == self.1 as u16,
    {
        LineTempComp::Fixed(self.0.clone(), self.1 as u16)
    }
}

impl LineTempCompTrait for (&str, usize) {
    fn to_line_temp_comp(&self) -> (res: LineTempComp)
        ensures
            res matches LineTempComp::Fixed(s, w) && s@ == self.0@ && w == self.1 as u16,
    {
        LineTempComp::Fixed(self.0.to_owned(), self.1 as u16)
    }
}


// ---------------------------------------------------------------------------
// The meaning of formatting a line, stated over the components and the values
// resolved for them (`None` for fixed components and for missing values).
// ---------------------------------------------------------------------------

/// `w` brought into `[lo, hi]`.
pub open spec fn clamp(w: int, lo: int, hi: int) -> int {
    if w < lo {
        lo
    } else if w > hi {
        hi
    } else {
        w
    }
}

pub open spec fn min_int(a: int, b: int) -> int {
    if a < b {
        a
    } else {
        b
    }
}

pub open spec fn max_int(a: int, b: int) -> int {
    if a > b {
        a
    } else {
        b
    }
}

/// `a / b` rounded up (for `a >= 0`, `b > 0`).
pub open spec fn ceil_div(a: int, b: int) -> int {
    if a % b == 0 {
        a / b
    } else {
        a / b + 1
    }
}

/// The sum of a sequence of integers.
pub open spec fn seq_sum(s: Seq<int>) -> int
    decreases s.len(),
{
    if s.len() == 0 {
        0
    } else {
        seq_sum(s.drop_last()) + s.last()
    }
}

/// The width a value-mapped component needs for a value of width `vw`.
pub open spec fn needed_width(m: MappedLineTempComp, vw: u16) -> int {
    clamp(vw as int, m.spec_min_width() as int, m.spec_max_width() as int)
}

/// The value-mapped components among the first `k` that got a value, each with
/// the width of its value, in order.
pub open spec fn present(
    comps: Seq<LineTempComp>,
    vals: Seq<Option<(String, u16)>>,
    k: int,
) -> Seq<(MappedLineTempComp, u16)>
    decreases k,
{
    if k <= 0 {
        seq![]
    } else {
        let prev = present(comps, vals, k - 1);
        match comps[k - 1] {
            LineTempComp::Mapped(m) => match vals[k - 1] {
                Some(v) => prev.push((m, v.1)),
                None => prev,
            },
            LineTempComp::Fixed(_, _) => prev,
        }
    }
}

/// The total width of the fixed components among the first `k`.
pub open spec fn fixed_sum(comps: Seq<LineTempComp>, k: int) -> int
    decreases k,
{
    if k <= 0 {
        0
    } else {
        fixed_sum(comps, k - 1) + match comps[k - 1] {
            LineTempComp::Fixed(_, w) => w as int,
            LineTempComp::Mapped(_) => 0,
        }
    }
}

pub open spec fn mins_of(ps: Seq<(MappedLineTempComp, u16)>) -> Seq<int> {
    ps.map_values(|p: (MappedLineTempComp, u16)| p.0.spec_min_width() as int)
}

pub open spec fn maxs_of(ps: Seq<(MappedLineTempComp, u16)>) -> Seq<int> {
    ps.map_values(|p: (MappedLineTempComp, u16)| p.0.spec_max_width() as int)
}

pub open spec fn neededs_of(ps: Seq<(MappedLineTempComp, u16)>) -> Seq<int> {
    ps.map_values(|p: (MappedLineTempComp, u16)| needed_width(p.0, p.1))
}

/// Component `i` is a required value-mapped component without a value.
pub open spec fn missing_at(
    comps: Seq<LineTempComp>,
    vals: Seq<Option<(String, u16)>>,
    i: int,
) -> bool {
    match comps[i] {
        LineTempComp::Mapped(m) => !m.spec_optional() && vals[i] is None,
        LineTempComp::Fixed(_, _) => false,
    }
}

/// The index of the first required component without a value at or after `i`,
/// or the number of components if there is none.
pub open spec fn first_missing(
    comps: Seq<LineTempComp>,
    vals: Seq<Option<(String, u16)>>,
    i: int,
) -> int
    decreases comps.len() - i,
{
    if i < 0 || i >= comps.len() {
        comps.len() as int
    } else if missing_at(comps, vals, i) {
        i
    } else {
        first_missing(comps, vals, i + 1)
    }
}

/// One step of spreading extra width: the new width of a component.
pub open spec fn add_step(max: int, w: int, remain: int, room: int, total: int) -> int {
    let add = if room == 0 {
        0
    } else {
        min_int(ceil_div(max * total, room), remain)
    };
    min_int(w + add, max)
}

/// One pass of spreading `remain` extra width over the components from `i` on,
/// stopping as soon as nothing remains; gives the widths and what remains.
pub open spec fn add_pass(
    maxs: Seq<int>,
    ws: Seq<int>,
    remain: int,
    room: int,
    total: int,
    i: int,
) -> (Seq<int>, int)
    decreases ws.len() - i,
{
    if i < 0 || i >= ws.len() || i >= maxs.len() {
        (ws, remain)
    } else {
        let nw = add_step(maxs[i], ws[i], remain, room, total);
        let ws2 = ws.update(i, nw);
        let r2 = remain - (nw - ws[i]);
        if r2 == 0 {
            (ws2, 0)
        } else {
            add_pass(maxs, ws2, r2, room, total, i + 1)
        }
    }
}

/// Passes of spreading extra width until none remains (`Ok` with the widths), or a
/// pass adds nothing (`Err` with what remains).
pub open spec fn add_rounds(maxs: Seq<int>, ws: Seq<int>, remain: int, room: int) -> Result<
    Seq<int>,
    int,
>
    decreases remain,
{
    if remain <= 0 {
        Ok(ws)
    } else {
        let (ws2, r2) = add_pass(maxs, ws, remain, room, remain, 0);
        if r2 == 0 {
            Ok(ws2)
        } else if r2 >= remain || r2 < 0 {
            Err(r2)
        } else {
            add_rounds(maxs, ws2, r2, room - (remain - r2))
        }
    }
}

/// One step of taking away width: the new width of a component.
pub open spec fn reduce_step(min: int, w: int, remain: int, room: int, total: int) -> int {
    let r0: int = if room == 0 {
        0
    } else {
        (ceil_div(min * total, room) as u16) as int
    };
    let r1 = min_int(r0, remain);
    let r2 = min_int(r1, w);
    max_int(w - r2, min)
}

/// One pass of taking away `remain` width from the components from `i` on.
pub open spec fn reduce_pass(
    mins: Seq<int>,
    ws: Seq<int>,
    remain: int,
    room: int,
    total: int,
    i: int,
) -> (Seq<int>, int)
    decreases ws.len() - i,
{
    if i < 0 || i >= ws.len() || i >= mins.len() {
        (ws, remain)
    } else {
        let nw = reduce_step(mins[i], ws[i], remain, room, total);
        let ws2 = ws.update(i, nw);
        let r2 = remain - (ws[i] - nw);
        if r2 == 0 {
            (ws2, 0)
        } else {
            reduce_pass(mins, ws2, r2, room, total, i + 1)
        }
    }
}

/// Passes of taking away width until none remains, or a pass takes nothing.
pub open spec fn reduce_rounds(mins: Seq<int>, ws: Seq<int>, remain: int, room: int) -> Result<
    Seq<int>,
    int,
>
    decreases remain,
{
    if remain <= 0 {
        Ok(ws)
    } else {
        let (ws2, r2) = reduce_pass(mins, ws, remain, room, remain, 0);
        if r2 == 0 {
            Ok(ws2)
        } else if r2 >= remain || r2 < 0 {
            Err(r2)
        } else {
            reduce_rounds(mins, ws2, r2, room - (remain - r2))
        }
    }
}

pub open spec fn too_big_message(extra: int, min_width: int) -> Seq<char> {
    "too big a line ... "@ + decimal(extra as nat) + " extra, on top of min "@ + decimal(
        min_width as nat,
    )
}

pub open spec fn too_small_message(missing: int, max_width: int) -> Seq<char> {
    "too small a line ... still need "@ + decimal(missing as nat) + ", on top of max "@
        + decimal(max_width as nat)
}

/// The widths assigned to the value-mapped components (in order), given the total
/// width of the fixed components, or the error message when the line cannot be
/// made at least `tmin` and at most `tmax` wide.
pub open spec fn allocate(
    fixed: int,
    mins: Seq<int>,
    maxs: Seq<int>,
    needed: Seq<int>,
    tmin: int,
    tmax: int,
) -> Result<Seq<int>, Seq<char>> {
    let total = fixed + seq_sum(needed);
    let room = seq_sum(maxs) - seq_sum(mins);
    if total < tmin {
        match add_rounds(maxs, needed, tmin - total, room) {
            Ok(ws) => Ok(ws),
            Err(r) => Err(too_big_message(r, tmin)),
        }
    } else if total > tmax {
        match reduce_rounds(mins, needed, total - tmax, room) {
            Ok(ws) => Ok(ws),
            Err(r) => Err(too_small_message(r, tmax)),
        }
    } else {
        Ok(needed)
    }
}

/// Spaces on the left of a centered value with `d` spare width.
pub open spec fn center_left(d: int) -> int {
    if d <= 0 {
        0
    } else {
        (d + 1) / 2
    }
}

/// Spaces on the right of a centered value with `d` spare width.
pub open spec fn center_right(d: int) -> int {
    if d <= 0 {
        0
    } else {
        d / 2
    }
}

/// The text of a value-mapped component whose value (of width `vw`) gets `assigned` width.
pub open spec fn piece(m: MappedLineTempComp, value: Seq<char>, vw: u16, assigned: int) -> Seq<
    char,
> {
    let needed = needed_width(m, vw);
    if assigned < needed {
        value.take(chars_in_bytes(value, assigned)->Some_0)
    } else if m.spec_align() == 'L' {
        value + repeat_char(' ', (assigned - vw) as nat)
    } else if m.spec_align() == 'R' {
        repeat_char(' ', (assigned - vw) as nat) + value
    } else {
        repeat_char(' ', center_left(assigned - vw) as nat) + value + repeat_char(
            ' ',
            center_right(assigned - vw) as nat,
        )
    }
}

/// The component cannot render its value in the assigned width: a value to be cut
/// short must be as long (in bytes) as its width says, and the cut must fall on
/// a character boundary of it; a left or right aligned value must fit.
pub open spec fn piece_fails(m: MappedLineTempComp, value: Seq<char>, vw: u16, assigned: int) -> bool {
    let needed = needed_width(m, vw);
    if assigned < needed {
        vw != text_width(value) || chars_in_bytes(value, assigned) is None
    } else {
        !(m.spec_align() == 'L' || m.spec_align() == 'R' || m.spec_align() == 'C') || ((m.spec_align() == 'L' || m.spec_align()
            == 'R') && assigned < vw)
    }
}

/// The formatted text of the first `k` components, the value-mapped ones with a value
/// taking the widths `ws` in order.
pub open spec fn line(
    comps: Seq<LineTempComp>,
    vals: Seq<Option<(String, u16)>>,
    ws: Seq<int>,
    k: int,
) -> Seq<char>
    decreases k,
{
    if k <= 0 {
        seq![]
    } else {
        let prev = line(comps, vals, ws, k - 1);
        match comps[k - 1] {
            LineTempComp::Fixed(s, _) => prev + s@,
            LineTempComp::Mapped(m) => match vals[k - 1] {
                Some(v) => prev + piece(m, v.0@, v.1, ws[present(comps, vals, k - 1).len() as int]),
                None => prev,
            },
        }
    }
}

/// Component `i` is value-mapped, has a value, and cannot render it in its width.
pub open spec fn comp_fails_at(
    comps: Seq<LineTempComp>,
    vals: Seq<Option<(String, u16)>>,
    ws: Seq<int>,
    i: int,
) -> bool {
    match comps[i] {
        LineTempComp::Mapped(m) => match vals[i] {
            Some(v) => piece_fails(m, v.0@, v.1, ws[present(comps, vals, i).len() as int]),
            None => false,
        },
        LineTempComp::Fixed(_, _) => false,
    }
}

/// Some component among the first `k` cannot render its value in its width.
pub open spec fn line_fails(
    comps: Seq<LineTempComp>,
    vals: Seq<Option<(String, u16)>>,
    ws: Seq<int>,
    k: int,
) -> bool {
    exists|i: int| 0 <= i < k && #[trigger] comp_fails_at(comps, vals, ws, i)
}

impl DumbLineTemplate {
    pub closed spec fn spec_min_width(&self) -> u16 {
        self.min_width
    }

    pub closed spec fn spec_max_width(&self) -> u16 {
        self.max_width
    }

    pub closed spec fn spec_components(&self) -> Seq<LineTempComp> {
        self.components@
    }

    /// Values resolved for the components: one per component, `None` for the fixed ones.
    pub open spec fn values_fit(&self, vals: Seq<Option<(String, u16)>>) -> bool {
        &&& vals.len() == self.spec_components().len()
        &&& forall|i: int|
            0 <= i < vals.len() ==> (#[trigger] self.spec_components()[i] is Fixed ==> vals[i] is None)
    }

    /// What formatting the line with the resolved values gives: the line, or the
    /// error message.
    pub open spec fn spec_format(&self, vals: Seq<Option<(String, u16)>>) -> Result<Seq<char>, Seq<char>> {
        let comps = self.spec_components();
        let n = comps.len() as int;
        let fm = first_missing(comps, vals, 0);
        if fm < n {
            Err("missing required key: "@ + comps[fm]->Mapped_0.spec_key())
        } else {
            let ps = present(comps, vals, n);
            match allocate(
                fixed_sum(comps, n),
                mins_of(ps),
                maxs_of(ps),
                neededs_of(ps),
                self.spec_min_width() as int,
                self.spec_max_width() as int,
            ) {
                Ok(ws) => Ok(line(comps, vals, ws, n)),
                Err(e) => Err(e),
            }
        }
    }

    /// Formatting the line with the resolved values stays within the machine's
    /// limits and every component can render its value: the running totals of
    /// widths fit in a `u16`, the width ranges of the components with a value are
    /// ordered, and the values fit the widths they get.
    pub open spec fn format_runs(&self, vals: Seq<Option<(String, u16)>>) -> bool {
        let comps = self.spec_components();
        let n = comps.len() as int;
        let fm = first_missing(comps, vals, 0);
        &&& self.bounds_ok(vals)
        &&& fm == n ==> {
            let ps = present(comps, vals, n);
            match allocate(
                fixed_sum(comps, n),
                mins_of(ps),
                maxs_of(ps),
                neededs_of(ps),
                self.spec_min_width() as int,
                self.spec_max_width() as int,
            ) {
                Ok(ws) => !line_fails(comps, vals, ws, n),
                Err(_) => true,
            }
        }
    }

    /// The totals of widths that formatting adds up fit in a `u16`, and the
    /// width ranges of the components with a value are ordered (up to the
    /// first required component without a value, where formatting stops).
    pub open spec fn bounds_ok(&self, vals: Seq<Option<(String, u16)>>) -> bool {
        let comps = self.spec_components();
        let n = comps.len() as int;
        let fm = first_missing(comps, vals, 0);
        let ps_stop = present(comps, vals, fm);
        &&& n < 0x1_0000_0000_0000
        &&& fixed_sum(comps, fm) <= u16::MAX
        &&& seq_sum(neededs_of(ps_stop)) <= u16::MAX
        &&& forall|j: int| 0 <= j < ps_stop.len() ==> (#[trigger] ps_stop[j]).0.spec_min_width() <= ps_stop[j].0.spec_max_width()
        &&& fm == n ==> fixed_sum(comps, n) + seq_sum(neededs_of(present(comps, vals, n))) <= u16::MAX
    }
}

pub open spec fn result_view(r: Result<String, String>) -> Result<Seq<char>, Seq<char>> {
    match r {
        Ok(s) => Ok(s@),
        Err(e) => Err(e@),
    }
}


// ---------------------------------------------------------------------------
// Sums
// ---------------------------------------------------------------------------

pub open spec fn to_ints(s: Seq<u16>) -> Seq<int> {
    s.map_values(|w: u16| w as int)
}

proof fn lemma_sum_push(s: Seq<int>, x: int)
    ensures
        seq_sum(s.push(x)) == seq_sum(s) + x,
{
    assert(s.push(x).drop_last() =~= s);
}

proof fn lemma_sum_update(s: Seq<int>, i: int, v: int)
    requires
        0 <= i < s.len(),
    ensures
        seq_sum(s.update(i, v)) == seq_sum(s) - s[i] + v,
    decreases s.len(),
{
    if i == s.len() - 1 {
        assert(s.update(i, v).drop_last() =~= s.drop_last());
    } else {
        lemma_sum_update(s.drop_last(), i, v);
        assert(s.update(i, v).drop_last() =~= s.drop_last().update(i, v));
    }
}

proof fn lemma_sum_le(a: Seq<int>, b: Seq<int>)
    requires
        a.len() == b.len(),
        forall|i: int| 0 <= i < a.len() ==> a[i] <= b[i],
    ensures
        seq_sum(a) <= seq_sum(b),
    decreases a.len(),
{
    if a.len() > 0 {
        lemma_sum_le(a.drop_last(), b.drop_last());
    }
}

proof fn lemma_to_ints_update(s: Seq<u16>, i: int, v: u16)
    requires
        0 <= i < s.len(),
    ensures
        to_ints(s.update(i, v)) == to_ints(s).update(i, v as int),
{
    assert(to_ints(s.update(i, v)) =~= to_ints(s).update(i, v as int));
}

fn ceil_div_u64(a: u64, b: u64) -> (r: u64)
    requires
        b > 0,
        a <= 0x1_0000_0000,
    ensures
        r as int == ceil_div(a as int, b as int),
{
    assert(a / b <= a) by (nonlinear_arith)
        requires
            b > 0,
    ;
    if a % b == 0 {
        a / b
    } else {
        a / b + 1
    }
}

fn mul_widths(x: u16, y: u16) -> (r: u64)
    ensures
        r as int == x as int * y as int,
        r <= 0x1_0000_0000,
{
    assert(x as int * y as int <= 0xffff * 0xffff) by (nonlinear_arith)
        requires
            x <= 0xffff,
            y <= 0xffff,
    ;
    (x as u64) * (y as u64)
}

/// Spreads `remain0` extra width over the components with the widths `ws`.
fn add_widths(maxs: &Vec<u16>, mins: &Vec<u16>, init: Vec<u16>, remain0: u16, room0: u64) -> (res:
    Result<Vec<u16>, u16>)
    requires
        maxs@.len() == init@.len(),
        mins@.len() == init@.len(),
        forall|i: int| 0 <= i < init@.len() ==> mins@[i] <= #[trigger] init@[i] <= maxs@[i],
        room0 as int == seq_sum(to_ints(maxs@)) - seq_sum(to_ints(mins@)),
        remain0 > 0,
    ensures
        res matches Ok(w) ==> add_rounds(to_ints(maxs@), to_ints(init@), remain0 as int, room0 as int)
            == Ok::<Seq<int>, int>(to_ints(w@)),
        res matches Ok(w) ==> w@.len() == init@.len(),
        res matches Ok(w) ==> forall|i: int| 0 <= i < w@.len() ==> mins@[i] <= #[trigger] w@[i] <= maxs@[i],
        res matches Err(r) ==> add_rounds(to_ints(maxs@), to_ints(init@), remain0 as int, room0 as int)
            == Err::<Seq<int>, int>(r as int),
{
    let ghost target = add_rounds(to_ints(maxs@), to_ints(init@), remain0 as int, room0 as int);
    let ghost init_v = init@;
    let n = init.len();
    let mut ws = init;
    let mut remain = remain0;
    let mut loop_room = room0;
    proof {
        lemma_sum_le(to_ints(mins@), to_ints(ws@));
        lemma_sum_le(to_ints(ws@), to_ints(maxs@));
    }
    loop
        invariant
            init_v.len() == n,
            init@ == init_v,
            target == add_rounds(to_ints(maxs@), to_ints(init_v), remain0 as int, room0 as int),
            n == ws@.len(),
            maxs@.len() == n,
            mins@.len() == n,
            forall|i: int| 0 <= i < n ==> mins@[i] <= #[trigger] ws@[i] <= maxs@[i],
            remain > 0,
            loop_room as int >= seq_sum(to_ints(maxs@)) - seq_sum(to_ints(ws@)),
            add_rounds(to_ints(maxs@), to_ints(ws@), remain as int, loop_room as int) == target,
        decreases remain,
    {
        let loop_total = remain;
        let ghost ws_start = ws@;
        let mut i: usize = 0;
        while i < n && remain > 0
            invariant
                n == ws@.len(),
                maxs@.len() == n,
                mins@.len() == n,
                i <= n,
                forall|j: int| 0 <= j < n ==> mins@[j] <= #[trigger] ws@[j] <= maxs@[j],
                remain <= loop_total,
                loop_total > 0,
                seq_sum(to_ints(ws@)) - seq_sum(to_ints(ws_start)) == loop_total - remain,
                (if remain == 0 {
                    (to_ints(ws@), 0int)
                } else {
                    add_pass(to_ints(maxs@), to_ints(ws@), remain as int, loop_room as int, loop_total as int, i as int)
                }) == add_pass(to_ints(maxs@), to_ints(ws_start), loop_total as int, loop_room as int, loop_total as int, 0),
            decreases n - i,
        {
            let max = maxs[i];
            let assigned = ws[i];
            let add: u16 = if loop_room == 0 {
                0
            } else {
                let q = ceil_div_u64(mul_widths(max, loop_total), loop_room);
                if q < remain as u64 {
                    q as u16
                } else {
                    remain
                }
            };
            let sum: u32 = assigned as u32 + add as u32;
            let new_w: u16 = if sum < max as u32 {
                sum as u16
            } else {
                max
            };
            assert(new_w as int == add_step(maxs@[i as int] as int, ws@[i as int] as int, remain as int, loop_room as int, loop_total as int));
            proof {
                lemma_to_ints_update(ws@, i as int, new_w);
                lemma_sum_update(to_ints(ws@), i as int, new_w as int);
            }
            if new_w != assigned {
                ws.set(i, new_w);
                remain = remain - (new_w - assigned);
            } else {
                assert(ws@.update(i as int, new_w) =~= ws@);
            }
            i = i + 1;
        }
        proof {
            lemma_sum_le(to_ints(ws@), to_ints(maxs@));
            if remain > 0 {
                assert(i == n);
                assert(add_pass(to_ints(maxs@), to_ints(ws@), remain as int, loop_room as int, loop_total as int, i as int)
                    == (to_ints(ws@), remain as int));
            }
            assert(add_pass(to_ints(maxs@), to_ints(ws_start), loop_total as int, loop_room as int, loop_total as int, 0)
                == (to_ints(ws@), remain as int));
        }
        assert(add_rounds(to_ints(maxs@), to_ints(ws_start), loop_total as int, loop_room as int) == (
            if remain == 0 { Ok(to_ints(ws@)) } else if remain >= loop_total { Err(remain as int) }
            else { add_rounds(to_ints(maxs@), to_ints(ws@), remain as int, loop_room - (loop_total - remain)) }));
        if remain == 0 {
            assert(target == Ok::<Seq<int>, int>(to_ints(ws@)));
            return Ok(ws);
        }
        if loop_total == remain {
            return Err(remain);
        }
        loop_room = loop_room - (loop_total - remain) as u64;
    }
}

/// Takes away `remain0` width from the components with the widths `ws`.
fn reduce_widths(maxs: &Vec<u16>, mins: &Vec<u16>, init: Vec<u16>, remain0: u16, room0: u64) -> (res:
    Result<Vec<u16>, u16>)
    requires
        maxs@.len() == init@.len(),
        mins@.len() == init@.len(),
        forall|i: int| 0 <= i < init@.len() ==> mins@[i] <= #[trigger] init@[i] <= maxs@[i],
        room0 as int == seq_sum(to_ints(maxs@)) - seq_sum(to_ints(mins@)),
        remain0 > 0,
    ensures
        res matches Ok(w) ==> reduce_rounds(to_ints(mins@), to_ints(init@), remain0 as int, room0 as int)
            == Ok::<Seq<int>, int>(to_ints(w@)),
        res matches Ok(w) ==> w@.len() == init@.len(),
        res matches Ok(w) ==> forall|i: int| 0 <= i < w@.len() ==> mins@[i] <= #[trigger] w@[i] <= maxs@[i],
        res matches Err(r) ==> reduce_rounds(to_ints(mins@), to_ints(init@), remain0 as int, room0 as int)
            == Err::<Seq<int>, int>(r as int),
{
    let ghost target = reduce_rounds(to_ints(mins@), to_ints(init@), remain0 as int, room0 as int);
    let ghost init_v = init@;
    let n = init.len();
    let mut ws = init;
    let mut remain = remain0;
    let mut loop_room = room0;
    proof {
        lemma_sum_le(to_ints(mins@), to_ints(ws@));
        lemma_sum_le(to_ints(ws@), to_ints(maxs@));
    }
    loop
        invariant
            init_v.len() == n,
            init@ == init_v,
            target == reduce_rounds(to_ints(mins@), to_ints(init_v), remain0 as int, room0 as int),
            n == ws@.len(),
            maxs@.len() == n,
            mins@.len() == n,
            forall|i: int| 0 <= i < n ==> mins@[i] <= #[trigger] ws@[i] <= maxs@[i],
            remain > 0,
            loop_room as int >= seq_sum(to_ints(ws@)) - seq_sum(to_ints(mins@)),
            reduce_rounds(to_ints(mins@), to_ints(ws@), remain as int, loop_room as int) == target,
        decreases remain,
    {
        let loop_total = remain;
        let ghost ws_start = ws@;
        let mut i: usize = 0;
        while i < n && remain > 0
            invariant
                n == ws@.len(),
                maxs@.len() == n,
                mins@.len() == n,
                i <= n,
                forall|j: int| 0 <= j < n ==> mins@[j] <= #[trigger] ws@[j] <= maxs@[j],
                remain <= loop_total,
                loop_total > 0,
                seq_sum(to_ints(ws_start)) - seq_sum(to_ints(ws@)) == loop_total - remain,
                (if remain == 0 {
                    (to_ints(ws@), 0int)
                } else {
                    reduce_pass(to_ints(mins@), to_ints(ws@), remain as int, loop_room as int, loop_total as int, i as int)
                }) == reduce_pass(to_ints(mins@), to_ints(ws_start), loop_total as int, loop_room as int, loop_total as int, 0),
            decreases n - i,
        {
            let min = mins[i];
            let assigned = ws[i];
            let r0: u16 = if loop_room == 0 {
                0
            } else {
                let q = ceil_div_u64(mul_widths(min, loop_total), loop_room);
                q as u16
            };
            let r1: u16 = if r0 < remain {
                r0
            } else {
                remain
            };
            let r2: u16 = if r1 < assigned {
                r1
            } else {
                assigned
            };
            let new_w: u16 = if assigned - r2 > min {
                assigned - r2
            } else {
                min
            };
            assert(new_w as int == reduce_step(mins@[i as int] as int, ws@[i as int] as int, remain as int, loop_room as int, loop_total as int));
            proof {
                lemma_to_ints_update(ws@, i as int, new_w);
                lemma_sum_update(to_ints(ws@), i as int, new_w as int);
            }
            if new_w != assigned {
                ws.set(i, new_w);
                remain = remain - (assigned - new_w);
            } else {
                assert(ws@.update(i as int, new_w) =~= ws@);
            }
            i = i + 1;
        }
        proof {
            lemma_sum_le(to_ints(mins@), to_ints(ws@));
            if remain > 0 {
                assert(i == n);
                assert(reduce_pass(to_ints(mins@), to_ints(ws@), remain as int, loop_room as int, loop_total as int, i as int)
                    == (to_ints(ws@), remain as int));
            }
            assert(reduce_pass(to_ints(mins@), to_ints(ws_start), loop_total as int, loop_room as int, loop_total as int, 0)
                == (to_ints(ws@), remain as int));
        }
        assert(reduce_rounds(to_ints(mins@), to_ints(ws_start), loop_total as int, loop_room as int) == (
            if remain == 0 { Ok(to_ints(ws@)) } else if remain >= loop_total { Err(remain as int) }
            else { reduce_rounds(to_ints(mins@), to_ints(ws@), remain as int, loop_room - (loop_total - remain)) }));
        if remain == 0 {
            assert(target == Ok::<Seq<int>, int>(to_ints(ws@)));
            return Ok(ws);
        }
        if loop_total == remain {
            return Err(remain);
        }
        loop_room = loop_room - (loop_total - remain) as u64;
    }
}


// ---------------------------------------------------------------------------
// Facts about prefixes of the components
// ---------------------------------------------------------------------------

proof fn lemma_first_missing_skip(
    comps: Seq<LineTempComp>,
    vals: Seq<Option<(String, u16)>>,
    i: int,
    j: int,
)
    requires
        0 <= i <= j <= comps.len(),
        forall|m: int| i <= m < j ==> !#[trigger] missing_at(comps, vals, m),
    ensures
        first_missing(comps, vals, i) == first_missing(comps, vals, j),
    decreases j - i,
{
    if i < j {
        lemma_first_missing_skip(comps, vals, i + 1, j);
    }
}

proof fn lemma_first_missing_bounds(
    comps: Seq<LineTempComp>,
    vals: Seq<Option<(String, u16)>>,
    i: int,
)
    requires
        0 <= i <= comps.len(),
    ensures
        i <= first_missing(comps, vals, i) <= comps.len(),
    decreases comps.len() - i,
{
    if i < comps.len() {
        lemma_first_missing_bounds(comps, vals, i + 1);
    }
}

proof fn lemma_fixed_sum_mono(comps: Seq<LineTempComp>, k: int, j: int)
    requires
        0 <= k <= j,
    ensures
        fixed_sum(comps, k) <= fixed_sum(comps, j),
    decreases j - k,
{
    if k < j {
        lemma_fixed_sum_mono(comps, k, j - 1);
    }
}

proof fn lemma_present_prefix(
    comps: Seq<LineTempComp>,
    vals: Seq<Option<(String, u16)>>,
    k: int,
    j: int,
)
    requires
        0 <= k <= j,
    ensures
        present(comps, vals, k).len() <= present(comps, vals, j).len(),
        present(comps, vals, j).subrange(0, present(comps, vals, k).len() as int) == present(
            comps,
            vals,
            k,
        ),
    decreases j - k,
{
    if k == j {
        assert(present(comps, vals, j).subrange(0, present(comps, vals, k).len() as int)
            =~= present(comps, vals, k));
    } else {
        lemma_present_prefix(comps, vals, k, j - 1);
        let a = present(comps, vals, k);
        let b = present(comps, vals, j - 1);
        let c = present(comps, vals, j);
        assert(c.subrange(0, a.len() as int) =~= b.subrange(0, a.len() as int));
    }
}

proof fn lemma_sum_prefix(s: Seq<int>, m: int)
    requires
        0 <= m <= s.len(),
        forall|i: int| 0 <= i < s.len() ==> s[i] >= 0,
    ensures
        seq_sum(s.subrange(0, m)) <= seq_sum(s),
    decreases s.len(),
{
    if m == s.len() {
        assert(s.subrange(0, m) =~= s);
    } else {
        lemma_sum_prefix(s.drop_last(), m);
        assert(s.drop_last().subrange(0, m) =~= s.subrange(0, m));
    }
}

proof fn lemma_neededs_nonneg(ps: Seq<(MappedLineTempComp, u16)>)
    ensures
        forall|i: int| 0 <= i < ps.len() ==> neededs_of(ps)[i] >= 0,
{
}

/// The needed widths of the components with a value among the first `k` sum to
/// no more than among the first `j >= k`.
proof fn lemma_needed_sum_mono(
    comps: Seq<LineTempComp>,
    vals: Seq<Option<(String, u16)>>,
    k: int,
    j: int,
)
    requires
        0 <= k <= j,
    ensures
        seq_sum(neededs_of(present(comps, vals, k))) <= seq_sum(neededs_of(present(comps, vals, j))),
{
    lemma_present_prefix(comps, vals, k, j);
    let a = present(comps, vals, k);
    let b = present(comps, vals, j);
    assert(neededs_of(b).subrange(0, a.len() as int) =~= neededs_of(a));
    lemma_neededs_nonneg(b);
    lemma_sum_prefix(neededs_of(b), a.len() as int);
}

impl MappedLineTempComp {
    fn get_needed_width(&self, mapped_value_width: u16) -> (res: u16)
        ensures
            res as int == needed_width(*self, mapped_value_width),
    {
        if mapped_value_width < self.min_width {
            self.min_width
        } else if mapped_value_width > self.max_width {
            self.max_width
        } else {
            mapped_value_width
        }
    }

    /// the component's say on the width assigned to it: no change
    fn veto_assigned_width(&self, mapped_value_width: u16, assigned_width: u16) -> (res: i32)
        requires
            assigned_width <= self.spec_max_width(),
        ensures
            res == 0,
    {
        let _needed_width = self.get_needed_width(mapped_value_width);
        0
    }

    /// Whether the component cannot render the value of the given width in the
    /// assigned width (see [`piece_fails`]).
    fn fails_with(&self, mapped_value: &str, mapped_value_width: u16, assigned_width: u16) -> (res: bool)
        ensures
            res == piece_fails(*self, mapped_value@, mapped_value_width, assigned_width as int),
    {
        let needed_width = self.get_needed_width(mapped_value_width);
        if assigned_width < needed_width {
            let n = mapped_value.as_bytes().len();
            #[verifier::truncate]
            let w = n as u16;
            w != mapped_value_width || chars_in_first_bytes(mapped_value, assigned_width as usize).is_none()
        } else {
            let a = self.align;
            !(a == 'L' || a == 'R' || a == 'C') || ((a == 'L' || a == 'R') && assigned_width < mapped_value_width)
        }
    }

    /// the text of the component for the value of the given width, in the assigned width
    fn format(&self, mapped_value: &str, mapped_value_width: u16, assigned_width: u16) -> (res:
        String)
        requires
            assigned_width <= self.spec_max_width(),
            !piece_fails(*self, mapped_value@, mapped_value_width, assigned_width as int),
        ensures
            res@ == piece(*self, mapped_value@, mapped_value_width, assigned_width as int),
    {
        let needed_width = self.get_needed_width(mapped_value_width);
        if assigned_width < needed_width {
            let k = match chars_in_first_bytes(mapped_value, assigned_width as usize) {
                Some(k) => k,
                None => 0,
            };
            proof {
                lemma_chars_in_bytes(mapped_value@, assigned_width as int);
            }
            return mapped_value.substring_char(0, k).to_owned();
        }
        if self.align == 'L' {
            let mut formatted = mapped_value.to_owned();
            let pad = repeat_string(' ', (assigned_width - mapped_value_width) as usize);
            push_str(&mut formatted, pad.as_str());
            formatted
        } else if self.align == 'R' {
            let mut formatted = repeat_string(' ', (assigned_width - mapped_value_width) as usize);
            push_str(&mut formatted, mapped_value);
            formatted
        } else {
            let (left_count, right_count) = if assigned_width > mapped_value_width {
                let d = assigned_width - mapped_value_width;
                ((d / 2 + d % 2) as usize, (d / 2) as usize)
            } else {
                (0usize, 0usize)
            };
            let mut formatted = repeat_string(' ', left_count);
            push_str(&mut formatted, mapped_value);
            let right = repeat_string(' ', right_count);
            push_str(&mut formatted, right.as_str());
            formatted
        }
    }
}

impl DumbLineTemplate {
    /// please use [`LineTempCompTrait::to_line_temp_comp`] to make the components
    /// * `min_width` - the minimum width of the line
    /// * `max_width` - the maximum width of the line
    /// * `components` - the template components of the line
    pub fn new(min_width: u16, max_width: u16, components: &Vec<LineTempComp>) -> (res:
        DumbLineTemplate)
        ensures
            res.spec_min_width() == min_width,
            res.spec_max_width() == max_width,
            res.spec_components() == components@,
    {
        DumbLineTemplate { min_width, max_width, components: duplicate_comps(components) }
    }

    /// the same as [`DumbLineTemplate::new`] but with fixed width
    pub fn new_fixed_width(fixed_width: u16, components: &Vec<LineTempComp>) -> (res:
        DumbLineTemplate)
        ensures
            res.spec_min_width() == fixed_width,
            res.spec_max_width() == fixed_width,
            res.spec_components() == components@,
    {
        DumbLineTemplate {
            min_width: fixed_width,
            max_width: fixed_width,
            components: duplicate_comps(components),
        }
    }

    pub fn min_width(&self) -> (res: u16)
        ensures
            res == self.spec_min_width(),
    {
        self.min_width
    }

    pub fn max_width(&self) -> (res: u16)
        ensures
            res == self.spec_max_width(),
    {
        self.max_width
    }

    /// The widths assigned to the value-mapped components with a value, in
    /// order; or the error message of the line (a missing key, or no fitting
    /// widths).
    fn allocate_widths(&self, vals: &Vec<Option<(String, u16)>>) -> (res: Result<Vec<u16>, String>)
        requires
            self.values_fit(vals@),
            self.bounds_ok(vals@),
        ensures
            ({
                let cs = self.components@;
                let n = cs.len() as int;
                let ps = present(cs, vals@, n);
                match res {
                    Ok(ws) => {
                        &&& first_missing(cs, vals@, 0) == n
                        &&& allocate(fixed_sum(cs, n), mins_of(ps), maxs_of(ps), neededs_of(ps),
                            self.min_width as int, self.max_width as int) == Ok::<Seq<int>, Seq<char>>(to_ints(ws@))
                        &&& ws@.len() == ps.len()
                        &&& forall|i: int| 0 <= i < ws@.len() ==> #[trigger] ws@[i] <= maxs_of(ps)[i]
                    },
                    Err(e) => {
                        &&& self.spec_format(vals@) == Err::<Seq<char>, Seq<char>>(e@)
                        &&& (first_missing(cs, vals@, 0) < n || allocate(fixed_sum(cs, n), mins_of(ps), maxs_of(ps),
                            neededs_of(ps), self.min_width as int, self.max_width as int) is Err)
                    },
                }
            }),
    {
        let comps = &self.components;
        let n = comps.len();
        let ghost cs = comps@;
        let ghost vs = vals@;
        let ghost fm = first_missing(cs, vs, 0);
        let mut total_fixed: u16 = 0;
        let mut total_needed: u16 = 0;
        let mut total_room: u64 = 0;
        let mut mins: Vec<u16> = Vec::new();
        let mut maxs: Vec<u16> = Vec::new();
        let mut needed: Vec<u16> = Vec::new();
        let mut k: usize = 0;
        while k < n
            invariant
                n == cs.len(),
                cs == comps@,
                cs == self.components@,
                vs == vals@,
                vs.len() == n,
                fm == first_missing(cs, vs, 0),
                self.bounds_ok(vs),
                k <= n,
                forall|m: int| 0 <= m < k ==> !#[trigger] missing_at(cs, vs, m),
                total_fixed as int == fixed_sum(cs, k as int),
                to_ints(mins@) == mins_of(present(cs, vs, k as int)),
                to_ints(maxs@) == maxs_of(present(cs, vs, k as int)),
                to_ints(needed@) == neededs_of(present(cs, vs, k as int)),
                total_needed as int == seq_sum(to_ints(needed@)),
                total_room as int == seq_sum(to_ints(maxs@)) - seq_sum(to_ints(mins@)),
                total_room <= 0xffff * k,
                forall|j: int|
                    0 <= j < needed@.len() ==> mins@[j] <= #[trigger] needed@[j] <= maxs@[j],
            decreases n - k,
        {
            proof {
                lemma_first_missing_skip(cs, vs, 0, k as int);
            }
            match &comps[k] {
                LineTempComp::Mapped(m) => {
                    match &vals[k] {
                        Some(v) => {
                            let ghost ps = present(cs, vs, k as int);
                            let ghost ps2 = present(cs, vs, k + 1);
                            assert(ps2 == ps.push((*m, v.1)));
                            assert(!missing_at(cs, vs, k as int));
                            proof {
                                lemma_first_missing_skip(cs, vs, 0, k as int + 1);
                                lemma_first_missing_bounds(cs, vs, k as int + 1);
                                lemma_needed_sum_mono(cs, vs, k as int + 1, fm);
                                lemma_present_prefix(cs, vs, k as int + 1, fm);
                                let pf = present(cs, vs, fm);
                                assert(pf[ps.len() as int] == ps2[ps.len() as int]);
                                assert(pf[ps.len() as int].0.min_width <= pf[ps.len() as int].0.max_width);
                                assert(seq_sum(neededs_of(pf)) <= u16::MAX);
                            }
                            let nd = m.get_needed_width(v.1);
                            assert(neededs_of(ps2) =~= neededs_of(ps).push(nd as int));
                            proof {
                                lemma_sum_push(neededs_of(ps), nd as int);
                            }
                            total_needed = total_needed + nd;
                            let mn = m.get_min_width();
                            let mx = m.get_max_width();
                            proof {
                                lemma_sum_push(to_ints(mins@), mn as int);
                                lemma_sum_push(to_ints(maxs@), mx as int);
                                assert(mins_of(ps2) =~= mins_of(ps).push(mn as int));
                                assert(maxs_of(ps2) =~= maxs_of(ps).push(mx as int));
                            }
                            mins.push(mn);
                            maxs.push(mx);
                            needed.push(nd);
                            assert(to_ints(mins@) =~= mins_of(ps2));
                            assert(to_ints(maxs@) =~= maxs_of(ps2));
                            assert(to_ints(needed@) =~= neededs_of(ps2));
                            total_room = total_room + (mx - mn) as u64;
                        },
                        None => {
                            if !m.is_optional() {
                                assert(missing_at(cs, vs, k as int));
                                assert(first_missing(cs, vs, k as int) == k);
                                assert(cs[k as int]->Mapped_0 == *m);
                                let mut msg = String::new();
                                push_str(&mut msg, "missing required key: ");
                                push_str(&mut msg, m.get_map_key());
                                return Err(msg);
                            }
                            assert(present(cs, vs, k + 1) == present(cs, vs, k as int));
                        },
                    }
                },
                LineTempComp::Fixed(_, w) => {
                    proof {
                        lemma_first_missing_skip(cs, vs, 0, k as int + 1);
                        lemma_first_missing_bounds(cs, vs, k as int + 1);
                        lemma_fixed_sum_mono(cs, k as int + 1, fm);
                    }
                    total_fixed = total_fixed + *w;
                    assert(present(cs, vs, k + 1) == present(cs, vs, k as int));
                },
            }
            k = k + 1;
        }
        proof {
            lemma_first_missing_skip(cs, vs, 0, n as int);
        }
        assert(fm == n);
        let ghost ps = present(cs, vs, n as int);
        let total_need: u16 = total_fixed + total_needed;
        let ws: Vec<u16> = if total_need < self.min_width {
            match add_widths(&maxs, &mins, needed, self.min_width - total_need, total_room) {
                Ok(w) => w,
                Err(r) => {
                    let mut msg = String::new();
                    push_str(&mut msg, "too big a line ... ");
                    push_str(&mut msg, to_decimal(r as u128).as_str());
                    push_str(&mut msg, " extra, on top of min ");
                    push_str(&mut msg, to_decimal(self.min_width as u128).as_str());
                    return Err(msg);
                },
            }
        } else if total_need > self.max_width {
            match reduce_widths(&maxs, &mins, needed, total_need - self.max_width, total_room) {
                Ok(w) => w,
                Err(r) => {
                    let mut msg = String::new();
                    push_str(&mut msg, "too small a line ... still need ");
                    push_str(&mut msg, to_decimal(r as u128).as_str());
                    push_str(&mut msg, ", on top of max ");
                    push_str(&mut msg, to_decimal(self.max_width as u128).as_str());
                    return Err(msg);
                },
            }
        } else {
            needed
        };
        let ghost wsi = to_ints(ws@);
        assert(allocate(
            fixed_sum(cs, n as int),
            mins_of(ps),
            maxs_of(ps),
            neededs_of(ps),
            self.min_width as int,
            self.max_width as int,
        ) == Ok::<Seq<int>, Seq<char>>(wsi));
        assert forall|i: int| 0 <= i < ws@.len() implies #[trigger] ws@[i] <= maxs_of(ps)[i] by {
            assert(maxs_of(ps)[i] == to_ints(maxs@)[i]);
        }
        Ok(ws)
    }

    /// The line, with the values resolved for the components and the widths
    /// assigned to those with a value.
    fn build_line(&self, vals: &Vec<Option<(String, u16)>>, ws: Vec<u16>) -> (res: String)
        requires
            self.values_fit(vals@),
            ({
                let cs = self.components@;
                let n = cs.len() as int;
                let ps = present(cs, vals@, n);
                &&& ws@.len() == ps.len()
                &&& forall|i: int| 0 <= i < ws@.len() ==> #[trigger] ws@[i] <= maxs_of(ps)[i]
                &&& !line_fails(cs, vals@, to_ints(ws@), n)
            }),
        ensures
            res@ == line(self.components@, vals@, to_ints(ws@), self.components@.len() as int),
    {
        let comps = &self.components;
        let n = comps.len();
        let ghost cs = comps@;
        let ghost vs = vals@;
        let ghost wsi = to_ints(ws@);
        let mut out = String::new();
        let wlen = ws.len();
        let mut j: usize = 0;
        let mut k: usize = 0;
        while k < n
            invariant
                n == cs.len(),
                cs == comps@,
                cs == self.components@,
                vs == vals@,
                vs.len() == n,
                k <= n,
                ws@.len() == present(cs, vs, n as int).len(),
                wlen == ws@.len(),
                wsi == to_ints(ws@),
                forall|i: int| 0 <= i < ws@.len() ==> #[trigger] ws@[i] <= maxs_of(present(cs, vs, n as int))[i],
                !line_fails(cs, vs, wsi, n as int),
                j == present(cs, vs, k as int).len(),
                out@ == line(cs, vs, wsi, k as int),
            decreases n - k,
        {
            match &comps[k] {
                LineTempComp::Fixed(fs, _) => {
                    push_str(&mut out, fs.as_str());
                    assert(present(cs, vs, k + 1) == present(cs, vs, k as int));
                },
                LineTempComp::Mapped(m) => {
                    match &vals[k] {
                        Some(v) => {
                            proof {
                                lemma_present_prefix(cs, vs, k as int + 1, n as int);
                                let pn = present(cs, vs, n as int);
                                assert(pn[j as int] == present(cs, vs, k as int + 1)[j as int]);
                                assert(pn[j as int].0 == *m);
                                assert(ws@[j as int] <= maxs_of(pn)[j as int]);
                                assert(!comp_fails_at(cs, vs, wsi, k as int));
                                assert(present(cs, vs, k as int + 1).len() == j + 1);
                            }
                            let assigned = ws[j];
                            let _delta = m.veto_assigned_width(v.1, assigned);
                            let piece_text = m.format(v.0.as_str(), v.1, assigned);
                            push_str(&mut out, piece_text.as_str());
                            j = j + 1;
                        },
                        None => {
                            assert(present(cs, vs, k + 1) == present(cs, vs, k as int));
                        },
                    }
                },
            }
            k = k + 1;
        }
        out
    }

    /// Whether the totals of widths that formatting adds up fit in a `u16` and
    /// the width ranges of the components with a value are ordered (see
    /// [`DumbLineTemplate::bounds_ok`]).
    fn bounds_hold(&self, vals: &Vec<Option<(String, u16)>>) -> (res: bool)
        requires
            self.values_fit(vals@),
        ensures
            res == self.bounds_ok(vals@),
    {
        let comps = &self.components;
        let n = comps.len();
        let ghost cs = comps@;
        let ghost vs = vals@;
        if n as u64 >= 0x1_0000_0000_0000u64 {
            return false;
        }
        let mut fixed: u64 = 0;
        let mut needed: u64 = 0;
        let mut ordered = true;
        let mut k: usize = 0;
        while k < n
            invariant
                n == cs.len(),
                n < 0x1_0000_0000_0000,
                cs == comps@,
                cs == self.components@,
                vs == vals@,
                vs.len() == n,
                k <= n,
                forall|m: int| 0 <= m < k ==> !#[trigger] missing_at(cs, vs, m),
                fixed as int == fixed_sum(cs, k as int),
                needed as int == seq_sum(neededs_of(present(cs, vs, k as int))),
                fixed <= 0xffff * k,
                needed <= 0xffff * k,
                ordered == forall|j: int|
                    0 <= j < present(cs, vs, k as int).len() ==> (#[trigger] present(cs, vs, k as int)[j]).0.min_width
                        <= present(cs, vs, k as int)[j].0.max_width,
            decreases n - k,
        {
            let ghost ps = present(cs, vs, k as int);
            match &comps[k] {
                LineTempComp::Mapped(m) => {
                    match &vals[k] {
                        Some(v) => {
                            let ghost ps2 = present(cs, vs, k + 1);
                            assert(ps2 == ps.push((*m, v.1)));
                            assert(!missing_at(cs, vs, k as int));
                            let nd = m.get_needed_width(v.1);
                            assert(neededs_of(ps2) =~= neededs_of(ps).push(nd as int));
                            proof {
                                lemma_sum_push(neededs_of(ps), nd as int);
                            }
                            needed = needed + nd as u64;
                            let ok = m.get_min_width() <= m.get_max_width();
                            assert((ordered && ok) == (forall|j: int|
                                0 <= j < ps2.len() ==> (#[trigger] ps2[j]).0.min_width <= ps2[j].0.max_width)) by {
                                if ordered && ok {
                                    assert forall|j: int| 0 <= j < ps2.len() implies (#[trigger] ps2[j]).0.min_width
                                        <= ps2[j].0.max_width by {
                                        if j < ps.len() {
                                            assert(ps2[j] == ps[j]);
                                        }
                                    }
                                }
                                if !ordered {
                                    let j0 = choose|j: int| 0 <= j < ps.len() && !((#[trigger] ps[j]).0.min_width <= ps[j].0.max_width);
                                    assert(ps2[j0] == ps[j0]);
                                }
                                if !ok {
                                    assert(ps2[ps.len() as int] == (*m, v.1));
                                }
                            }
                            ordered = ordered && ok;
                        },
                        None => {
                            if !m.is_optional() {
                                assert(missing_at(cs, vs, k as int));
                                proof {
                                    lemma_first_missing_skip(cs, vs, 0, k as int);
                                }
                                assert(first_missing(cs, vs, 0) == k);
                                return fixed <= 0xffff && needed <= 0xffff && ordered;
                            }
                            assert(present(cs, vs, k + 1) == ps);
                        },
                    }
                },
                LineTempComp::Fixed(_, w) => {
                    fixed = fixed + *w as u64;
                    assert(present(cs, vs, k + 1) == ps);
                },
            }
            k = k + 1;
        }
        proof {
            lemma_first_missing_skip(cs, vs, 0, n as int);
        }
        assert(first_missing(cs, vs, 0) == n);
        fixed <= 0xffff && needed <= 0xffff && ordered && fixed + needed <= 0xffff
    }

    /// Whether every component with a value can render it in the width
    /// assigned to it.
    fn line_renders(&self, vals: &Vec<Option<(String, u16)>>, ws: &Vec<u16>) -> (res: bool)
        requires
            self.values_fit(vals@),
            ws@.len() == present(self.components@, vals@, self.components@.len() as int).len(),
        ensures
            res == !line_fails(self.components@, vals@, to_ints(ws@), self.components@.len() as int),
    {
        let comps = &self.components;
        let n = comps.len();
        let ghost cs = comps@;
        let ghost vs = vals@;
        let ghost wsi = to_ints(ws@);
        let wl = ws.len();
        let mut j: usize = 0;
        let mut k: usize = 0;
        while k < n
            invariant
                n == cs.len(),
                cs == comps@,
                cs == self.components@,
                vs == vals@,
                vs.len() == n,
                k <= n,
                wsi == to_ints(ws@),
                wl == ws@.len(),
                ws@.len() == present(cs, vs, n as int).len(),
                j == present(cs, vs, k as int).len(),
                forall|i: int| 0 <= i < k ==> !#[trigger] comp_fails_at(cs, vs, wsi, i),
            decreases n - k,
        {
            proof {
                lemma_present_prefix(cs, vs, k as int + 1, n as int);
            }
            match &comps[k] {
                LineTempComp::Fixed(_, _) => {
                    assert(present(cs, vs, k + 1) == present(cs, vs, k as int));
                },
                LineTempComp::Mapped(m) => {
                    match &vals[k] {
                        Some(v) => {
                            assert(present(cs, vs, k as int + 1).len() == j + 1);
                            assert(j < ws@.len());
                            let fails = m.fails_with(v.0.as_str(), v.1, ws[j]);
                            if fails {
                                assert(comp_fails_at(cs, vs, wsi, k as int));
                                return false;
                            }
                            j = j + 1;
                        },
                        None => {
                            assert(present(cs, vs, k + 1) == present(cs, vs, k as int));
                        },
                    }
                },
            }
            k = k + 1;
        }
        true
    }

    /// Whether `vals` are values resolved for the components (one per component,
    /// `None` for the fixed ones) with which formatting can run (see
    /// [`DumbLineTemplate::format_runs`]).
    pub fn can_format_values(&self, vals: &Vec<Option<(String, u16)>>) -> (res: bool)
        ensures
            res == (self.values_fit(vals@) && self.format_runs(vals@)),
    {
        if vals.len() != self.components.len() {
            return false;
        }
        let mut i: usize = 0;
        while i < vals.len()
            invariant
                vals@.len() == self.components@.len(),
                i <= vals@.len(),
                forall|j: int|
                    0 <= j < i ==> (#[trigger] self.spec_components()[j] is Fixed ==> vals@[j] is None),
            decreases vals@.len() - i,
        {
            let fixed_with_value = match &self.components[i] {
                LineTempComp::Fixed(_, _) => vals[i].is_some(),
                LineTempComp::Mapped(_) => false,
            };
            if fixed_with_value {
                assert(!self.values_fit(vals@));
                return false;
            }
            i = i + 1;
        }
        if !self.bounds_hold(vals) {
            return false;
        }
        match self.allocate_widths(vals) {
            Err(_) => true,
            Ok(ws) => self.line_renders(vals, &ws),
        }
    }

    /// format the line with the values resolved for the components: one per
    /// component, `None` for the fixed ones and for the keys without a value
    pub fn format_values(&self, vals: &Vec<Option<(String, u16)>>) -> (res: Result<String, String>)
        requires
            self.values_fit(vals@),
            self.format_runs(vals@),
        ensures
            result_view(res) == self.spec_format(vals@),
    {
        match self.allocate_widths(vals) {
            Err(e) => Err(e),
            Ok(ws) => {
                let ghost cs = self.components@;
                let ghost n = cs.len() as int;
                let ghost ps = present(cs, vals@, n);
                assert(!line_fails(cs, vals@, to_ints(ws@), n));
                let out = self.build_line(vals, ws);
                Ok(out)
            },
        }
    }
}


/// The value given for `key` by a list of key/value pairs: the first pair with
/// that key, with the width of its value.
pub open spec fn lookup_value(map: Seq<(String, String)>, key: Seq<char>) -> Option<(String, u16)>
    decreases map.len(),
{
    if map.len() == 0 {
        None
    } else if map[0].0@ == key {
        Some((map[0].1, text_width(map[0].1@)))
    } else {
        lookup_value(map.drop_first(), key)
    }
}

impl DumbLineTemplate {
    /// The values resolved for the components from a list of key/value pairs.
    pub open spec fn values_from_map(&self, map: Seq<(String, String)>) -> Seq<
        Option<(String, u16)>,
    > {
        Seq::new(
            self.spec_components().len(),
            |i: int|
                match self.spec_components()[i] {
                    LineTempComp::Mapped(m) => lookup_value(map, m.spec_key()),
                    LineTempComp::Fixed(_, _) => None,
                },
        )
    }

    /// The values resolved for the components by a value-mapping function: one
    /// call for each value-mapped component, with its key.
    pub open spec fn values_from_fn<F: Fn(&str) -> Option<(String, u16)>>(
        &self,
        f: F,
        vals: Seq<Option<(String, u16)>>,
    ) -> bool {
        &&& self.values_fit(vals)
        &&& forall|i: int|
            0 <= i < vals.len() ==> (#[trigger] self.spec_components()[i] matches LineTempComp::Mapped(
                m,
            ) ==> exists|k: &str| k@ == m.spec_key() && call_ensures(f, (k,), vals[i]))
    }

    /// based on the template and the key/value pairs, format and return a line
    /// (or the reason why it cannot be made); when a key appears more than once,
    /// its first value counts; for a more flexible way of formatting, try
    /// [`DumbLineTemplate::format_ex`]. Formatting must be able to run with
    /// the pairs; [`DumbLineTemplate::can_format`] tells.
    pub fn format(&self, map: &Vec<(String, String)>) -> (res: Result<String, String>)
        requires
            self.format_runs(self.values_from_map(map@)),
        ensures
            result_view(res) == self.spec_format(self.values_from_map(map@)),
    {
        let vals = self.values_of_map(map);
        self.format_values(&vals)
    }

    /// Whether [`DumbLineTemplate::format`] can run with the key/value pairs:
    /// the totals of widths fit in a `u16`, the width ranges of the components
    /// with a value are ordered, and each value fits the width it gets (a value
    /// cut short is as long in bytes as its width says, and is cut on a
    /// character boundary).
    pub fn can_format(&self, map: &Vec<(String, String)>) -> (res: bool)
        ensures
            res == self.format_runs(self.values_from_map(map@)),
    {
        let vals = self.values_of_map(map);
        self.can_format_values(&vals)
    }

    /// The values resolved for the components from the key/value pairs.
    fn values_of_map(&self, map: &Vec<(String, String)>) -> (vals: Vec<Option<(String, u16)>>)
        ensures
            vals@ == self.values_from_map(map@),
            self.values_fit(vals@),
    {
        let ghost target = self.values_from_map(map@);
        let n = self.components.len();
        let mut vals: Vec<Option<(String, u16)>> = Vec::new();
        let mut k: usize = 0;
        while k < n
            invariant
                n == self.components@.len(),
                k <= n,
                target == self.values_from_map(map@),
                vals@ == target.subrange(0, k as int),
            decreases n - k,
        {
            let v = match &self.components[k] {
                LineTempComp::Mapped(m) => lookup(map, &m.key),
                LineTempComp::Fixed(_, _) => None,
            };
            vals.push(v);
            k = k + 1;
            assert(vals@ =~= target.subrange(0, k as int));
        }
        assert(vals@ =~= target);
        vals
    }

    /// like [`DumbLineTemplate::format`] but accepts a function that gives the
    /// mapped value of a key together with its width (for ASCII-escaped text, the
    /// "visual" width can differ from its length)
    pub fn format_ex<F: Fn(&str) -> Option<(String, u16)>>(&self, map_value_fn: F) -> (res: Result<
        String,
        String,
    >)
        requires
            forall|k: &str| call_requires(map_value_fn, (k,)),
            forall|vals: Seq<Option<(String, u16)>>|
                #[trigger] self.values_from_fn(map_value_fn, vals) ==> self.format_runs(vals),
        ensures
            exists|vals: Seq<Option<(String, u16)>>|
                #[trigger] self.values_from_fn(map_value_fn, vals) && result_view(res)
                    == self.spec_format(vals),
    {
        let vals = self.values_by_fn(&map_value_fn);
        self.format_values(&vals)
    }

    /// like [`DumbLineTemplate::format_ex`], for any value function: `None` where
    /// the values that it gives do not let formatting run (see
    /// [`DumbLineTemplate::format_runs`])
    pub fn try_format_ex<F: Fn(&str) -> Option<(String, u16)>>(&self, map_value_fn: F) -> (res: Option<
        Result<String, String>,
    >)
        requires
            forall|k: &str| call_requires(map_value_fn, (k,)),
        ensures
            exists|vals: Seq<Option<(String, u16)>>|
                #[trigger] self.values_from_fn(map_value_fn, vals) && match res {
                    None => !self.format_runs(vals),
                    Some(r) => self.format_runs(vals) && result_view(r) == self.spec_format(vals),
                },
    {
        let vals = self.values_by_fn(&map_value_fn);
        if self.can_format_values(&vals) {
            Some(self.format_values(&vals))
        } else {
            None
        }
    }
}

/// The first value given for the key in the list of pairs, with its width.
pub(crate) fn lookup(map: &Vec<(String, String)>, key: &String) -> (res: Option<(String, u16)>)
    ensures
        res == lookup_value(map@, key@),
{
    let mut i: usize = 0;
    assert(map@.subrange(0, map@.len() as int) =~= map@);
    while i < map.len()
        invariant
            i <= map@.len(),
            lookup_value(map@, key@) == lookup_value(map@.subrange(i as int, map@.len() as int), key@),
        decreases map@.len() - i,
    {
        let ghost rest = map@.subrange(i as int, map@.len() as int);
        assert(rest.drop_first() =~= map@.subrange(i + 1, map@.len() as int));
        if map[i].0 == *key {
            let value = map[i].1.clone();
            let w = value.as_str().as_bytes().len();
            return Some((value, w as u16));
        }
        i = i + 1;
    }
    None
}


// ---------------------------------------------------------------------------
// The width of a formatted line
// ---------------------------------------------------------------------------

proof fn lemma_add_pass_sum(maxs: Seq<int>, ws: Seq<int>, remain: int, room: int, total: int, i: int)
    requires
        0 <= i,
    ensures
        ({
            let (ws2, r2) = add_pass(maxs, ws, remain, room, total, i);
            &&& ws2.len() == ws.len()
            &&& seq_sum(ws2) + r2 == seq_sum(ws) + remain
        }),
    decreases ws.len() - i,
{
    if i < ws.len() && i < maxs.len() {
        let nw = add_step(maxs[i], ws[i], remain, room, total);
        lemma_sum_update(ws, i, nw);
        let r2 = remain - (nw - ws[i]);
        if r2 != 0 {
            lemma_add_pass_sum(maxs, ws.update(i, nw), r2, room, total, i + 1);
        }
    }
}

proof fn lemma_add_rounds_sum(maxs: Seq<int>, ws: Seq<int>, remain: int, room: int)
    requires
        remain >= 0,
    ensures
        add_rounds(maxs, ws, remain, room) matches Ok(ws2) ==> ws2.len() == ws.len() && seq_sum(ws2)
            == seq_sum(ws) + remain,
    decreases remain,
{
    if remain > 0 {
        lemma_add_pass_sum(maxs, ws, remain, room, remain, 0);
        let (ws2, r2) = add_pass(maxs, ws, remain, room, remain, 0);
        if r2 != 0 && r2 < remain && r2 >= 0 {
            lemma_add_rounds_sum(maxs, ws2, r2, room - (remain - r2));
        }
    }
}

proof fn lemma_reduce_pass_sum(mins: Seq<int>, ws: Seq<int>, remain: int, room: int, total: int, i: int)
    requires
        0 <= i,
    ensures
        ({
            let (ws2, r2) = reduce_pass(mins, ws, remain, room, total, i);
            &&& ws2.len() == ws.len()
            &&& seq_sum(ws2) - r2 == seq_sum(ws) - remain
        }),
    decreases ws.len() - i,
{
    if i < ws.len() && i < mins.len() {
        let nw = reduce_step(mins[i], ws[i], remain, room, total);
        lemma_sum_update(ws, i, nw);
        let r2 = remain - (ws[i] - nw);
        if r2 != 0 {
            lemma_reduce_pass_sum(mins, ws.update(i, nw), r2, room, total, i + 1);
        }
    }
}

proof fn lemma_reduce_rounds_sum(mins: Seq<int>, ws: Seq<int>, remain: int, room: int)
    requires
        remain >= 0,
    ensures
        reduce_rounds(mins, ws, remain, room) matches Ok(ws2) ==> ws2.len() == ws.len() && seq_sum(
            ws2,
        ) == seq_sum(ws) - remain,
    decreases remain,
{
    if remain > 0 {
        lemma_reduce_pass_sum(mins, ws, remain, room, remain, 0);
        let (ws2, r2) = reduce_pass(mins, ws, remain, room, remain, 0);
        if r2 != 0 && r2 < remain && r2 >= 0 {
            lemma_reduce_rounds_sum(mins, ws2, r2, room - (remain - r2));
        }
    }
}

proof fn lemma_add_pass_bounds(
    maxs: Seq<int>,
    ws: Seq<int>,
    remain: int,
    room: int,
    total: int,
    i: int,
)
    requires
        0 <= i,
        ws.len() == maxs.len(),
        forall|j: int| 0 <= j < ws.len() ==> 0 <= #[trigger] ws[j] <= maxs[j],
        remain >= 0,
        room >= 0,
        total >= 0,
    ensures
        ({
            let (ws2, r2) = add_pass(maxs, ws, remain, room, total, i);
            &&& ws2.len() == ws.len()
            &&& forall|j: int| 0 <= j < ws2.len() ==> 0 <= #[trigger] ws2[j] <= maxs[j]
            &&& forall|j: int| 0 <= j < ws2.len() ==> ws[j] <= #[trigger] ws2[j]
            &&& 0 <= r2 <= remain
        }),
    decreases ws.len() - i,
{
    if i < ws.len() && i < maxs.len() {
        let nw = add_step(maxs[i], ws[i], remain, room, total);
        if room != 0 {
            assert(maxs[i] * total >= 0) by (nonlinear_arith)
                requires
                    maxs[i] >= 0,
                    total >= 0,
            ;
            assert(ceil_div(maxs[i] * total, room) >= 0) by (nonlinear_arith)
                requires
                    maxs[i] * total >= 0,
                    room > 0,
            ;
        }
        let r2 = remain - (nw - ws[i]);
        if r2 != 0 {
            lemma_add_pass_bounds(maxs, ws.update(i, nw), r2, room, total, i + 1);
        }
    }
}

proof fn lemma_add_rounds_bounds(maxs: Seq<int>, ws: Seq<int>, remain: int, room: int)
    requires
        ws.len() == maxs.len(),
        forall|j: int| 0 <= j < ws.len() ==> 0 <= #[trigger] ws[j] <= maxs[j],
        remain >= 0,
        room >= seq_sum(maxs) - seq_sum(ws),
    ensures
        add_rounds(maxs, ws, remain, room) matches Ok(ws2) ==> ws2.len() == ws.len() && (forall|j: int|
            0 <= j < ws2.len() ==> 0 <= #[trigger] ws2[j] <= maxs[j]) && (forall|j: int|
            0 <= j < ws2.len() ==> ws[j] <= #[trigger] ws2[j]),
        add_rounds(maxs, ws, remain, room) matches Err(r) ==> r > 0,
    decreases remain,
{
    if remain > 0 {
        lemma_sum_le(ws, maxs);
        lemma_add_pass_bounds(maxs, ws, remain, room, remain, 0);
        lemma_add_pass_sum(maxs, ws, remain, room, remain, 0);
        let (ws2, r2) = add_pass(maxs, ws, remain, room, remain, 0);
        if r2 != 0 && r2 < remain && r2 >= 0 {
            lemma_add_rounds_bounds(maxs, ws2, r2, room - (remain - r2));
        }
    }
}

/// Every width is at least the minimum, which is not negative.
pub open spec fn above_mins(mins: Seq<int>, ws: Seq<int>) -> bool {
    forall|j: int| 0 <= j < ws.len() ==> 0 <= mins[j] && mins[j] <= ws[j]
}

proof fn lemma_above_mins_update(mins: Seq<int>, ws: Seq<int>, i: int, v: int)
    requires
        above_mins(mins, ws),
        0 <= i < ws.len(),
        0 <= mins[i] <= v,
    ensures
        above_mins(mins, ws.update(i, v)),
{
    let ws2 = ws.update(i, v);
    assert forall|j: int| 0 <= j < ws2.len() implies (0 <= mins[j] && mins[j] <= #[trigger] ws2[j]) by {
        if j != i {
            assert(ws2[j] == ws[j]);
            assert(0 <= mins[j] && mins[j] <= ws[j]);
        } else {
            assert(ws2[j] == v);
        }
    }
    assert(above_mins(mins, ws2));
}

proof fn lemma_reduce_pass_bounds(
    mins: Seq<int>,
    ws: Seq<int>,
    remain: int,
    room: int,
    total: int,
    i: int,
)
    requires
        0 <= i,
        ws.len() == mins.len(),
        above_mins(mins, ws),
        remain >= 0,
    ensures
        ({
            let (ws2, r2) = reduce_pass(mins, ws, remain, room, total, i);
            &&& ws2.len() == ws.len()
            &&& above_mins(mins, ws2)
            &&& forall|j: int| 0 <= j < ws2.len() ==> #[trigger] ws2[j] <= ws[j]
            &&& 0 <= r2 <= remain
        }),
    decreases ws.len() - i,
{
    if i < ws.len() && i < mins.len() {
        let nw = reduce_step(mins[i], ws[i], remain, room, total);
        assert(0 <= mins[i] && mins[i] <= ws[i]);
        assert(mins[i] <= nw <= ws[i]);
        let ws2 = ws.update(i, nw);
        lemma_above_mins_update(mins, ws, i, nw);
        let r2 = remain - (ws[i] - nw);
        if r2 != 0 {
            lemma_reduce_pass_bounds(mins, ws2, r2, room, total, i + 1);
        }
    }
}

proof fn lemma_reduce_rounds_bounds(mins: Seq<int>, ws: Seq<int>, remain: int, room: int)
    requires
        ws.len() == mins.len(),
        above_mins(mins, ws),
        remain >= 0,
    ensures
        reduce_rounds(mins, ws, remain, room) matches Ok(ws2) ==> ws2.len() == ws.len() && above_mins(mins, ws2)
            && (forall|j: int| 0 <= j < ws2.len() ==> #[trigger] ws2[j] <= ws[j]),
        reduce_rounds(mins, ws, remain, room) matches Err(r) ==> r > 0,
    decreases remain,
{
    if remain > 0 {
        lemma_reduce_pass_bounds(mins, ws, remain, room, remain, 0);
        let (ws2, r2) = reduce_pass(mins, ws, remain, room, remain, 0);
        if r2 != 0 && r2 < remain && r2 >= 0 {
            lemma_reduce_rounds_bounds(mins, ws2, r2, room - (remain - r2));
        }
    }
}

/// Every fixed component's text is as long as its width says, and every value is as
/// long as its width says and no wider than its component may be.
pub open spec fn widths_are_lengths(comps: Seq<LineTempComp>, vals: Seq<Option<(String, u16)>>) -> bool {
    forall|i: int|
        0 <= i < comps.len() ==> match #[trigger] comps[i] {
            LineTempComp::Fixed(s, w) => w as int == utf8_len(s@),
            LineTempComp::Mapped(m) => match vals[i] {
                Some(v) => v.1 as int == utf8_len(v.0@) && v.1 <= m.spec_max_width(),
                None => true,
            },
        }
}

proof fn lemma_piece_len(m: MappedLineTempComp, value: Seq<char>, vw: u16, assigned: int)
    requires
        vw as int == utf8_len(value),
        vw <= m.max_width,
        m.min_width <= m.max_width,
        assigned >= 0,
        !piece_fails(m, value, vw, assigned),
    ensures
        utf8_len(piece(m, value, vw, assigned)) == assigned,
{
    let needed = needed_width(m, vw);
    if assigned < needed {
        lemma_chars_in_bytes(value, assigned);
    } else if m.align == 'L' {
        lemma_utf8_len_append(value, repeat_char(' ', (assigned - vw) as nat));
        lemma_utf8_len_spaces((assigned - vw) as nat);
    } else if m.align == 'R' {
        lemma_utf8_len_append(repeat_char(' ', (assigned - vw) as nat), value);
        lemma_utf8_len_spaces((assigned - vw) as nat);
    } else {
        let l = repeat_char(' ', center_left(assigned - vw) as nat);
        let r = repeat_char(' ', center_right(assigned - vw) as nat);
        lemma_utf8_len_append(l, value);
        lemma_utf8_len_append(l + value, r);
        lemma_utf8_len_spaces(center_left(assigned - vw) as nat);
        lemma_utf8_len_spaces(center_right(assigned - vw) as nat);
    }
}

proof fn lemma_line_len(
    comps: Seq<LineTempComp>,
    vals: Seq<Option<(String, u16)>>,
    ws: Seq<int>,
    k: int,
)
    requires
        0 <= k <= comps.len(),
        vals.len() == comps.len(),
        widths_are_lengths(comps, vals),
        present(comps, vals, comps.len() as int).len() == ws.len(),
        forall|j: int| 0 <= j < ws.len() ==> ws[j] >= 0,
        forall|j: int|
            0 <= j < ws.len() ==> (#[trigger] present(comps, vals, comps.len() as int)[j]).0.min_width
                <= present(comps, vals, comps.len() as int)[j].0.max_width,
        !line_fails(comps, vals, ws, comps.len() as int),
    ensures
        present(comps, vals, k).len() <= ws.len(),
        utf8_len(line(comps, vals, ws, k)) == fixed_sum(comps, k) + seq_sum(
            ws.subrange(0, present(comps, vals, k).len() as int),
        ),
    decreases k,
{
    let n = comps.len() as int;
    lemma_present_prefix(comps, vals, k, n);
    if k > 0 {
        lemma_line_len(comps, vals, ws, k - 1);
        let p = present(comps, vals, k - 1);
        match comps[k - 1] {
            LineTempComp::Fixed(s, w) => {
                assert(widths_are_lengths(comps, vals));
                assert(w as int == utf8_len(s@));
                lemma_utf8_len_append(line(comps, vals, ws, k - 1), s@);
            },
            LineTempComp::Mapped(m) => match vals[k - 1] {
                Some(v) => {
                    lemma_present_prefix(comps, vals, k, n);
                    let pn = present(comps, vals, n);
                    assert(pn[p.len() as int] == present(comps, vals, k)[p.len() as int]);
                    assert(!comp_fails_at(comps, vals, ws, k - 1));
                    assert(match comps[k - 1] {
                        LineTempComp::Fixed(s, w) => w as int == utf8_len(s@),
                        LineTempComp::Mapped(m) => match vals[k - 1] {
                            Some(v) => v.1 as int == utf8_len(v.0@) && v.1 <= m.max_width,
                            None => true,
                        },
                    });
                    lemma_piece_len(m, v.0@, v.1, ws[p.len() as int]);
                    lemma_utf8_len_append(line(comps, vals, ws, k - 1), piece(m, v.0@, v.1, ws[p.len() as int]));
                    assert(ws.subrange(0, p.len() as int + 1).drop_last() =~= ws.subrange(0, p.len() as int));
                },
                None => {},
            },
        }
    } else {
        assert(ws.subrange(0, 0) =~= Seq::<int>::empty());
    }
}

/// The components with a value keep the order of their width ranges.
proof fn lemma_present_ordered(comps: Seq<LineTempComp>, vals: Seq<Option<(String, u16)>>, k: int)
    requires
        0 <= k <= comps.len(),
        forall|j: int|
            0 <= j < comps.len() ==> (#[trigger] comps[j] matches LineTempComp::Mapped(c) ==> c.min_width
                <= c.max_width),
    ensures
        forall|i: int|
            0 <= i < present(comps, vals, k).len() ==> (#[trigger] present(comps, vals, k)[i]).0.min_width
                <= present(comps, vals, k)[i].0.max_width,
    decreases k,
{
    if k > 0 {
        lemma_present_ordered(comps, vals, k - 1);
        let p = present(comps, vals, k - 1);
        assert(comps[k - 1] matches LineTempComp::Mapped(c) ==> c.min_width <= c.max_width);
        assert forall|i: int| 0 <= i < present(comps, vals, k).len() implies (#[trigger] present(comps, vals, k)[i]).0.min_width
            <= present(comps, vals, k)[i].0.max_width by {
            if i < p.len() {
                assert(present(comps, vals, k)[i] == p[i]);
            }
        }
    }
}

/// Where not all widths are at their maximums, the sum of the widths is below
/// the sum of the maximums.
proof fn lemma_sum_lt(a: Seq<int>, b: Seq<int>, j: int)
    requires
        a.len() == b.len(),
        forall|i: int| 0 <= i < a.len() ==> a[i] <= b[i],
        0 <= j < a.len(),
        a[j] < b[j],
    ensures
        seq_sum(a) < seq_sum(b),
    decreases a.len(),
{
    if j == a.len() - 1 {
        lemma_sum_le(a.drop_last(), b.drop_last());
    } else {
        lemma_sum_lt(a.drop_last(), b.drop_last(), j);
    }
}

/// A pass that meets a component below its maximum, with room left, spreads
/// some width.
proof fn lemma_add_pass_progress(maxs: Seq<int>, ws: Seq<int>, remain: int, room: int, total: int, i: int, j: int)
    requires
        0 <= i <= j < ws.len(),
        ws.len() == maxs.len(),
        forall|k: int| 0 <= k < ws.len() ==> 0 <= #[trigger] ws[k] <= maxs[k],
        ws[j] < maxs[j],
        remain > 0,
        room > 0,
        total >= 1,
    ensures
        add_pass(maxs, ws, remain, room, total, i).1 < remain,
    decreases ws.len() - i,
{
    let nw = add_step(maxs[i], ws[i], remain, room, total);
    assert(maxs[i] * total >= 0) by (nonlinear_arith)
        requires
            maxs[i] >= 0,
            total >= 0,
    ;
    assert(ceil_div(maxs[i] * total, room) >= 0) by (nonlinear_arith)
        requires
            maxs[i] * total >= 0,
            room > 0,
    ;
    let r2 = remain - (nw - ws[i]);
    if ws[i] < maxs[i] {
        assert(maxs[i] * total >= 1) by (nonlinear_arith)
            requires
                maxs[i] >= 1,
                total >= 1,
        ;
        assert(ceil_div(maxs[i] * total, room) >= 1) by (nonlinear_arith)
            requires
                maxs[i] * total >= 1,
                room > 0,
        ;
        assert(nw > ws[i]);
        if r2 != 0 {
            lemma_add_pass_bounds(maxs, ws.update(i, nw), r2, room, total, i + 1);
        }
    } else {
        assert(nw == ws[i]);
        assert(ws.update(i, nw) =~= ws);
        lemma_add_pass_progress(maxs, ws, remain, room, total, i + 1, j);
    }
}

/// Spreading extra width fails only once every width is at its maximum; what
/// is left then is the extra width that the maximums could not take.
proof fn lemma_add_rounds_fails_at_max(maxs: Seq<int>, ws: Seq<int>, remain: int, room: int)
    requires
        ws.len() == maxs.len(),
        forall|j: int| 0 <= j < ws.len() ==> 0 <= #[trigger] ws[j] <= maxs[j],
        remain >= 0,
        room >= seq_sum(maxs) - seq_sum(ws),
    ensures
        add_rounds(maxs, ws, remain, room) matches Err(r) ==> r == remain - (seq_sum(maxs) - seq_sum(ws)),
    decreases remain,
{
    if remain > 0 {
        lemma_sum_le(ws, maxs);
        lemma_add_pass_bounds(maxs, ws, remain, room, remain, 0);
        lemma_add_pass_sum(maxs, ws, remain, room, remain, 0);
        let (ws2, r2) = add_pass(maxs, ws, remain, room, remain, 0);
        if r2 == 0 {
        } else if r2 >= remain || r2 < 0 {
            if exists|j: int| 0 <= j < ws.len() && ws[j] < maxs[j] {
                let j = choose|j: int| 0 <= j < ws.len() && ws[j] < maxs[j];
                lemma_sum_lt(ws, maxs, j);
                lemma_add_pass_progress(maxs, ws, remain, room, remain, 0, j);
            } else {
                assert forall|j: int| 0 <= j < ws.len() implies maxs[j] <= #[trigger] ws[j] by {}
                lemma_sum_le(maxs, ws);
            }
        } else {
            lemma_add_rounds_fails_at_max(maxs, ws2, r2, room - (remain - r2));
        }
    }
}

/// A line that the maximum widths of the components with a value cannot make
/// as wide as the template's minimum is refused as too big, with the width
/// that is missing: the minimum less the fixed widths and those maximums
/// (where every required component gets a value and the width ranges are
/// ordered).
pub proof fn lemma_too_big_line(t: DumbLineTemplate, vals: Seq<Option<(String, u16)>>)
    requires
        t.values_fit(vals),
        forall|j: int|
            0 <= j < t.spec_components().len() ==> (#[trigger] t.spec_components()[j] matches LineTempComp::Mapped(c)
                ==> (!c.spec_optional() ==> vals[j] is Some) && c.spec_min_width() <= c.spec_max_width()),
        ({
            let comps = t.spec_components();
            fixed_sum(comps, comps.len() as int) + seq_sum(maxs_of(present(comps, vals, comps.len() as int)))
                < t.spec_min_width()
        }),
    ensures
        ({
            let comps = t.spec_components();
            let extra = t.spec_min_width() - fixed_sum(comps, comps.len() as int) - seq_sum(
                maxs_of(present(comps, vals, comps.len() as int)),
            );
            t.spec_format(vals) == Err::<Seq<char>, Seq<char>>(too_big_message(extra, t.spec_min_width() as int))
        }),
{
    let comps = t.components@;
    let n = comps.len() as int;
    lemma_required_keys_present(t, vals);
    let ps = present(comps, vals, n);
    lemma_present_ordered(comps, vals, n);
    let mins = mins_of(ps);
    let maxs = maxs_of(ps);
    let needed = neededs_of(ps);
    assert forall|j: int| 0 <= j < needed.len() implies 0 <= mins[j] && mins[j] <= #[trigger] needed[j] && needed[j]
        <= maxs[j] by {
        assert(ps[j].0.min_width <= ps[j].0.max_width);
    }
    lemma_sum_le(needed, maxs);
    let fixed = fixed_sum(comps, n);
    let total = fixed + seq_sum(needed);
    let room = seq_sum(maxs) - seq_sum(mins);
    lemma_sum_le(mins, needed);
    assert(total < t.min_width);
    lemma_add_rounds_sum(maxs, needed, t.min_width - total, room);
    lemma_add_rounds_bounds(maxs, needed, t.min_width - total, room);
    lemma_add_rounds_fails_at_max(maxs, needed, t.min_width - total, room);
    match add_rounds(maxs, needed, t.min_width - total, room) {
        Ok(ws) => {
            lemma_sum_le(ws, maxs);
        },
        Err(r) => {},
    }
}

/// A pass that meets a component above its minimum (a minimum of at least 1,
/// small enough that the proportional step does not wrap), with room left,
/// takes some width away.
proof fn lemma_reduce_pass_progress(mins: Seq<int>, ws: Seq<int>, remain: int, room: int, total: int, i: int, j: int)
    requires
        0 <= i <= j < ws.len(),
        ws.len() == mins.len(),
        above_mins(mins, ws),
        forall|k: int|
            0 <= k < mins.len() ==> 1 <= #[trigger] mins[k] && (mins[k] * total < 0x10000 || (total <= room
                && mins[k] < 0x10000)),
        ws[j] > mins[j],
        remain > 0,
        room > 0,
        total >= 1,
    ensures
        reduce_pass(mins, ws, remain, room, total, i).1 < remain,
    decreases ws.len() - i,
{
    let nw = reduce_step(mins[i], ws[i], remain, room, total);
    assert(0 <= mins[i] && mins[i] <= ws[i]);
    assert(mins[i] <= nw <= ws[i]);
    let r2 = remain - (ws[i] - nw);
    if ws[i] > mins[i] {
        let a = mins[i] * total;
        if mins[i] * total < 0x10000 {
            assert(1 <= a < 0x10000) by (nonlinear_arith)
                requires
                    1 <= mins[i],
                    total >= 1,
                    a == mins[i] * total,
                    mins[i] * total < 0x10000,
            ;
            assert(1 <= ceil_div(a, room) <= a) by (nonlinear_arith)
                requires
                    1 <= a,
                    room >= 1,
            ;
        } else {
            // the width to take away is within the room: the step is at most the minimum
            assert(1 <= ceil_div(a, room) <= mins[i]) by (nonlinear_arith)
                requires
                    1 <= mins[i],
                    1 <= total <= room,
                    a == mins[i] * total,
            ;
        }
        assert(nw < ws[i]);
        if r2 != 0 {
            lemma_above_mins_update(mins, ws, i, nw);
            lemma_reduce_pass_bounds(mins, ws.update(i, nw), r2, room, total, i + 1);
        }
    } else {
        assert(nw == ws[i]);
        assert(ws.update(i, nw) =~= ws);
        lemma_reduce_pass_progress(mins, ws, remain, room, total, i + 1, j);
    }
}

/// Taking width away fails only once every width is at its minimum (where the
/// minimums are at least 1 and small enough that the proportional step does
/// not wrap); what is left then is the width that the minimums could not give.
proof fn lemma_reduce_rounds_fails_at_min(mins: Seq<int>, ws: Seq<int>, remain: int, room: int)
    requires
        ws.len() == mins.len(),
        above_mins(mins, ws),
        forall|k: int|
            0 <= k < mins.len() ==> 1 <= #[trigger] mins[k] && (mins[k] * remain < 0x10000 || (remain <= room
                && mins[k] < 0x10000)),
        remain >= 0,
        room >= seq_sum(ws) - seq_sum(mins),
    ensures
        reduce_rounds(mins, ws, remain, room) matches Err(r) ==> r == remain - (seq_sum(ws) - seq_sum(mins)),
    decreases remain,
{
    if remain > 0 {
        assert forall|k: int| 0 <= k < ws.len() implies mins[k] <= #[trigger] ws[k] by {}
        lemma_sum_le(mins, ws);
        lemma_reduce_pass_bounds(mins, ws, remain, room, remain, 0);
        lemma_reduce_pass_sum(mins, ws, remain, room, remain, 0);
        let (ws2, r2) = reduce_pass(mins, ws, remain, room, remain, 0);
        if r2 == 0 {
        } else if r2 >= remain || r2 < 0 {
            if exists|j: int| 0 <= j < ws.len() && ws[j] > mins[j] {
                let j = choose|j: int| 0 <= j < ws.len() && ws[j] > mins[j];
                lemma_sum_lt(mins, ws, j);
                lemma_reduce_pass_progress(mins, ws, remain, room, remain, 0, j);
            } else {
                assert forall|k: int| 0 <= k < ws.len() implies #[trigger] ws[k] <= mins[k] by {}
                lemma_sum_le(ws, mins);
            }
        } else {
            assert forall|k: int| 0 <= k < mins.len() implies 1 <= #[trigger] mins[k] && (mins[k] * r2 < 0x10000 || (r2
                <= room - (remain - r2) && mins[k] < 0x10000)) by {
                assert(mins[k] * r2 <= mins[k] * remain) by (nonlinear_arith)
                    requires
                        mins[k] >= 1,
                        0 <= r2 <= remain,
                ;
            }
            lemma_reduce_rounds_fails_at_min(mins, ws2, r2, room - (remain - r2));
        }
    }
}

/// A line that the minimum widths of the components with a value cannot make
/// as narrow as the template's maximum is refused as too small, with the width
/// that is still needed: the fixed widths and those minimums less the maximum
/// (where every required component gets a value, the width ranges are ordered,
/// the widths the values need are not below the template's minimum (else the
/// line is widened first), every minimum is at least 1, and the widths are
/// small enough that the
/// proportional step of shrinking, a minimum times the width to take away,
/// stays below 65536).
pub proof fn lemma_too_small_line(t: DumbLineTemplate, vals: Seq<Option<(String, u16)>>)
    requires
        t.values_fit(vals),
        forall|j: int|
            0 <= j < t.spec_components().len() ==> (#[trigger] t.spec_components()[j] matches LineTempComp::Mapped(c)
                ==> (!c.spec_optional() ==> vals[j] is Some) && c.spec_min_width() <= c.spec_max_width()),
        ({
            let comps = t.spec_components();
            let n = comps.len() as int;
            let ps = present(comps, vals, n);
            let total = fixed_sum(comps, n) + seq_sum(neededs_of(ps));
            &&& fixed_sum(comps, n) + seq_sum(mins_of(ps)) > t.spec_max_width()
            &&& total >= t.spec_min_width()
            &&& forall|k: int| 0 <= k < ps.len() ==> 1 <= #[trigger] mins_of(ps)[k]
                && mins_of(ps)[k] * (total - t.spec_max_width()) < 0x10000
        }),
    ensures
        ({
            let comps = t.spec_components();
            let missing = fixed_sum(comps, comps.len() as int) + seq_sum(
                mins_of(present(comps, vals, comps.len() as int)),
            ) - t.spec_max_width();
            t.spec_format(vals) == Err::<Seq<char>, Seq<char>>(too_small_message(missing, t.spec_max_width() as int))
        }),
{
    let comps = t.components@;
    let n = comps.len() as int;
    lemma_required_keys_present(t, vals);
    let ps = present(comps, vals, n);
    lemma_present_ordered(comps, vals, n);
    let mins = mins_of(ps);
    let maxs = maxs_of(ps);
    let needed = neededs_of(ps);
    assert forall|j: int| 0 <= j < needed.len() implies 0 <= mins[j] && mins[j] <= #[trigger] needed[j] && needed[j]
        <= maxs[j] by {
        assert(ps[j].0.min_width <= ps[j].0.max_width);
    }
    assert(above_mins(mins, needed));
    lemma_sum_le(mins, needed);
    lemma_sum_le(needed, maxs);
    let fixed = fixed_sum(comps, n);
    let total = fixed + seq_sum(needed);
    let room = seq_sum(maxs) - seq_sum(mins);
    assert(total > t.max_width);
    lemma_reduce_rounds_sum(mins, needed, total - t.max_width, room);
    lemma_reduce_rounds_bounds(mins, needed, total - t.max_width, room);
    lemma_reduce_rounds_fails_at_min(mins, needed, total - t.max_width, room);
    match reduce_rounds(mins, needed, total - t.max_width, room) {
        Ok(ws) => {
            assert forall|k: int| 0 <= k < ws.len() implies mins[k] <= #[trigger] ws[k] by {}
            lemma_sum_le(mins, ws);
        },
        Err(r) => {},
    }
}

/// A line is made where the widths allow it: where every required component
/// gets a value, the width ranges are ordered, the fixed widths and the minimum
/// widths of the components with a value come to no more than the template's
/// maximum, and the fixed widths and their maximum widths to no less than the
/// template's minimum, formatting gives a line, not an error (where the line
/// must be narrowed, every minimum is at least 1).
pub proof fn lemma_line_fits(t: DumbLineTemplate, vals: Seq<Option<(String, u16)>>)
    requires
        t.values_fit(vals),
        forall|j: int|
            0 <= j < t.spec_components().len() ==> (#[trigger] t.spec_components()[j] matches LineTempComp::Mapped(c)
                ==> (!c.spec_optional() ==> vals[j] is Some) && c.spec_min_width() <= c.spec_max_width()),
        ({
            let comps = t.spec_components();
            let n = comps.len() as int;
            let ps = present(comps, vals, n);
            let total = fixed_sum(comps, n) + seq_sum(neededs_of(ps));
            &&& fixed_sum(comps, n) + seq_sum(mins_of(ps)) <= t.spec_max_width()
            &&& fixed_sum(comps, n) + seq_sum(maxs_of(ps)) >= t.spec_min_width()
            &&& total > t.spec_max_width() ==> forall|k: int| 0 <= k < ps.len() ==> 1 <= #[trigger] mins_of(ps)[k]
        }),
    ensures
        t.spec_format(vals) is Ok,
{
    let comps = t.components@;
    let n = comps.len() as int;
    lemma_required_keys_present(t, vals);
    let ps = present(comps, vals, n);
    lemma_present_ordered(comps, vals, n);
    let mins = mins_of(ps);
    let maxs = maxs_of(ps);
    let needed = neededs_of(ps);
    assert forall|j: int| 0 <= j < needed.len() implies 0 <= mins[j] && mins[j] <= #[trigger] needed[j] && needed[j]
        <= maxs[j] by {
        assert(ps[j].0.min_width <= ps[j].0.max_width);
    }
    lemma_sum_le(mins, needed);
    lemma_sum_le(needed, maxs);
    let fixed = fixed_sum(comps, n);
    let total = fixed + seq_sum(needed);
    let room = seq_sum(maxs) - seq_sum(mins);
    if total < t.min_width {
        lemma_add_rounds_bounds(maxs, needed, t.min_width - total, room);
        lemma_add_rounds_fails_at_max(maxs, needed, t.min_width - total, room);
    } else if total > t.max_width {
        assert(above_mins(mins, needed));
        assert forall|k: int| 0 <= k < mins.len() implies 1 <= #[trigger] mins[k] && (mins[k] * (total
            - t.max_width) < 0x10000 || (total - t.max_width <= room && mins[k] < 0x10000)) by {
            assert(mins[k] == ps[k].0.spec_min_width());
        }
        lemma_reduce_rounds_bounds(mins, needed, total - t.max_width, room);
        lemma_reduce_rounds_fails_at_min(mins, needed, total - t.max_width, room);
    }
}

/// A formatted line is at least as wide as the template's minimum width and at most
/// as wide as its maximum width (widths counted in bytes of UTF-8), when the minimum
/// is no more than the maximum, every text is as long as its width says, and no
/// value is wider than its component may be.
pub proof fn lemma_format_width_in_range(t: DumbLineTemplate, vals: Seq<Option<(String, u16)>>)
    requires
        t.values_fit(vals),
        t.format_runs(vals),
        t.spec_min_width() <= t.spec_max_width(),
        widths_are_lengths(t.spec_components(), vals),
    ensures
        t.spec_format(vals) matches Ok(line) ==> t.spec_min_width() <= utf8_len(line) <= t.spec_max_width(),
{
    let comps = t.components@;
    let n = comps.len() as int;
    let fm = first_missing(comps, vals, 0);
    lemma_first_missing_bounds(comps, vals, 0);
    if fm == n {
        let ps = present(comps, vals, n);
        let fixed = fixed_sum(comps, n);
        let needed = neededs_of(ps);
        let total = fixed + seq_sum(needed);
        let room = seq_sum(maxs_of(ps)) - seq_sum(mins_of(ps));
        assert(forall|j: int| 0 <= j < ps.len() ==> (#[trigger] ps[j]).0.min_width <= ps[j].0.max_width);
        assert forall|j: int| 0 <= j < needed.len() implies 0 <= mins_of(ps)[j] && mins_of(ps)[j]
            <= #[trigger] needed[j] && needed[j] <= maxs_of(ps)[j] by {
            assert(ps[j].0.min_width <= ps[j].0.max_width);
        }
        if let Ok(ws) = allocate(fixed, mins_of(ps), maxs_of(ps), needed, t.min_width as int, t.max_width as int) {
            if total < t.min_width {
                lemma_add_rounds_sum(maxs_of(ps), needed, t.min_width - total, room);
                lemma_sum_le(mins_of(ps), needed);
                lemma_add_rounds_bounds(maxs_of(ps), needed, t.min_width - total, room);
            } else if total > t.max_width {
                lemma_reduce_rounds_sum(mins_of(ps), needed, total - t.max_width, room);
                lemma_reduce_rounds_bounds(mins_of(ps), needed, total - t.max_width, room);
            } else {
                lemma_neededs_nonneg(ps);
            }
            assert(ws.len() == ps.len());
            assert(!line_fails(comps, vals, ws, n));
            lemma_line_len(comps, vals, ws, n);
            assert(ws.subrange(0, ps.len() as int) =~= ws);
            assert(utf8_len(line(comps, vals, ws, n)) == fixed + seq_sum(ws));
            assert(t.spec_format(vals) == Ok::<Seq<char>, Seq<char>>(line(comps, vals, ws, n)));
            if total < t.min_width {
                assert(seq_sum(ws) == seq_sum(needed) + t.min_width - total);
            } else if total > t.max_width {
                assert(seq_sum(ws) == seq_sum(needed) - (total - t.max_width));
            } else {
                assert(ws == needed);
            }
        }
    }
}

/// A formatted line is made of the components in order: each fixed text as it
/// is, nothing for a value-mapped component without a value, and for one with a
/// value the value rendered (cut short, or padded by its alignment, see
/// [`piece`]) in a width between the component's minimum and maximum width; the
/// widths add up to the width the values need, brought into the template's
/// minimum and maximum.
pub proof fn lemma_format_line(t: DumbLineTemplate, vals: Seq<Option<(String, u16)>>)
    requires
        t.values_fit(vals),
        t.format_runs(vals),
    ensures
        t.spec_format(vals) matches Ok(s) ==> exists|ws: Seq<int>|
            #![trigger line(t.spec_components(), vals, ws, t.spec_components().len() as int)]
            {
                let comps = t.spec_components();
                let n = comps.len() as int;
                let ps = present(comps, vals, n);
                &&& ws.len() == ps.len()
                &&& forall|j: int|
                    0 <= j < ws.len() ==> ps[j].0.spec_min_width() <= #[trigger] ws[j] <= ps[j].0.spec_max_width()
                &&& fixed_sum(comps, n) + seq_sum(ws) == clamp(
                    fixed_sum(comps, n) + seq_sum(neededs_of(ps)),
                    t.spec_min_width() as int,
                    t.spec_max_width() as int,
                )
                &&& s == line(comps, vals, ws, n)
                &&& !line_fails(comps, vals, ws, n)
            },
{
    let comps = t.components@;
    let n = comps.len() as int;
    let fm = first_missing(comps, vals, 0);
    lemma_first_missing_bounds(comps, vals, 0);
    if fm == n {
        let ps = present(comps, vals, n);
        let fixed = fixed_sum(comps, n);
        let mins = mins_of(ps);
        let maxs = maxs_of(ps);
        let needed = neededs_of(ps);
        let total = fixed + seq_sum(needed);
        let room = seq_sum(maxs) - seq_sum(mins);
        assert forall|j: int| 0 <= j < needed.len() implies 0 <= mins[j] && mins[j] <= #[trigger] needed[j]
            && needed[j] <= maxs[j] by {
            assert(ps[j].0.min_width <= ps[j].0.max_width);
        }
        if let Ok(ws) = allocate(fixed, mins, maxs, needed, t.min_width as int, t.max_width as int) {
            if total < t.min_width {
                lemma_add_rounds_sum(maxs, needed, t.min_width - total, room);
                lemma_sum_le(mins, needed);
                lemma_add_rounds_bounds(maxs, needed, t.min_width - total, room);
            } else if total > t.max_width {
                lemma_reduce_rounds_sum(mins, needed, total - t.max_width, room);
                lemma_reduce_rounds_bounds(mins, needed, total - t.max_width, room);
            }
            assert forall|j: int| 0 <= j < ws.len() implies ps[j].0.spec_min_width() <= #[trigger] ws[j]
                <= ps[j].0.spec_max_width() by {
                assert(mins[j] == ps[j].0.spec_min_width());
                assert(maxs[j] == ps[j].0.spec_max_width());
            }
            assert(t.spec_format(vals) == Ok::<Seq<char>, Seq<char>>(line(comps, vals, ws, n)));
        }
    }
}

/// Formatting fails on the first required value-mapped component (in component
/// order) that gets no value: the error names its key.
pub proof fn lemma_missing_required_key(t: DumbLineTemplate, vals: Seq<Option<(String, u16)>>, i: int)
    requires
        t.values_fit(vals),
        0 <= i < t.spec_components().len(),
        t.spec_components()[i] matches LineTempComp::Mapped(m) && !m.spec_optional() && vals[i] is None,
        forall|j: int|
            0 <= j < i ==> (#[trigger] t.spec_components()[j] matches LineTempComp::Mapped(c) && !c.spec_optional()
                ==> vals[j] is Some),
    ensures
        t.spec_format(vals) == Err::<Seq<char>, Seq<char>>(
            "missing required key: "@ + t.spec_components()[i]->Mapped_0.spec_key(),
        ),
{
    let comps = t.components@;
    assert forall|m: int| 0 <= m < i implies !#[trigger] missing_at(comps, vals, m) by {
        assert(t.spec_components()[m] == comps[m]);
    }
    lemma_first_missing_skip(comps, vals, 0, i);
}

/// Where every required value-mapped component gets a value, formatting does
/// not fail on a missing key: it gives a line, or the line does not fit.
pub proof fn lemma_required_keys_present(t: DumbLineTemplate, vals: Seq<Option<(String, u16)>>)
    requires
        t.values_fit(vals),
        forall|j: int|
            0 <= j < t.spec_components().len() ==> (#[trigger] t.spec_components()[j] matches LineTempComp::Mapped(c)
                && !c.spec_optional() ==> vals[j] is Some),
    ensures
        ({
            let comps = t.spec_components();
            let ps = present(comps, vals, comps.len() as int);
            t.spec_format(vals) == match allocate(
                fixed_sum(comps, comps.len() as int),
                mins_of(ps),
                maxs_of(ps),
                neededs_of(ps),
                t.spec_min_width() as int,
                t.spec_max_width() as int,
            ) {
                Ok(ws) => Ok(line(comps, vals, ws, comps.len() as int)),
                Err(e) => Err(e),
            }
        }),
        t.spec_format(vals) matches Err(e) ==> exists|r: int|
            e == too_big_message(r, t.spec_min_width() as int) || e == too_small_message(r, t.spec_max_width() as int),
{
    let comps = t.components@;
    let n = comps.len() as int;
    assert forall|m: int| 0 <= m < n implies !#[trigger] missing_at(comps, vals, m) by {
        assert(t.spec_components()[m] == comps[m]);
    }
    lemma_first_missing_skip(comps, vals, 0, n);
    let ps = present(comps, vals, n);
    let total = fixed_sum(comps, n) + seq_sum(neededs_of(ps));
    if total < t.min_width {
        if let Err(r) = add_rounds(maxs_of(ps), neededs_of(ps), t.min_width - total, seq_sum(maxs_of(ps)) - seq_sum(mins_of(ps))) {
            assert(too_big_message(r, t.spec_min_width() as int) == too_big_message(r, t.spec_min_width() as int));
        }
    } else if total > t.max_width {
        if let Err(r) = reduce_rounds(mins_of(ps), neededs_of(ps), total - t.max_width, seq_sum(maxs_of(ps)) - seq_sum(mins_of(ps))) {
            assert(too_small_message(r, t.spec_max_width() as int) == too_small_message(r, t.spec_max_width() as int));
        }
    }
}

/// Two templates with the same widths and components (such as
/// `new_fixed_width(w, comps)` and `new(w, w, comps)`) format alike: a value
/// function or a list of pairs resolves the same values for both, and the same
/// values give the same line or error and run under the same conditions.
pub proof fn lemma_same_template_same_format<F: Fn(&str) -> Option<(String, u16)>>(
    t1: DumbLineTemplate,
    t2: DumbLineTemplate,
    f: F,
    map: Seq<(String, String)>,
    vals: Seq<Option<(String, u16)>>,
)
    requires
        t1.spec_min_width() == t2.spec_min_width(),
        t1.spec_max_width() == t2.spec_max_width(),
        t1.spec_components() == t2.spec_components(),
    ensures
        t1.values_from_fn(f, vals) == t2.values_from_fn(f, vals),
        t1.values_from_map(map) == t2.values_from_map(map),
        t1.spec_format(vals) == t2.spec_format(vals),
        t1.format_runs(vals) == t2.format_runs(vals),
{
    assert(t1.values_from_map(map) =~= t2.values_from_map(map));
}

/// [`DumbLineTemplate::format`] is [`DumbLineTemplate::format_ex`] with a value
/// function that looks each key up in the pairs (the first pair with the key,
/// the value's width being its length in bytes): such a function resolves the
/// same values as `format` does, so the two give the same line or error.
pub proof fn lemma_format_is_format_ex<F: Fn(&str) -> Option<(String, u16)>>(
    t: DumbLineTemplate,
    f: F,
    map: Seq<(String, String)>,
    vals: Seq<Option<(String, u16)>>,
)
    requires
        forall|k: &str, r: Option<(String, u16)>| call_ensures(f, (k,), r) ==> r == lookup_value(map, k@),
        t.values_from_fn(f, vals),
    ensures
        vals == t.values_from_map(map),
        t.spec_format(vals) == t.spec_format(t.values_from_map(map)),
        t.format_runs(vals) == t.format_runs(t.values_from_map(map)),
{
    let target = t.values_from_map(map);
    assert forall|i: int| 0 <= i < vals.len() implies vals[i] == target[i] by {
        match t.spec_components()[i] {
            LineTempComp::Mapped(m) => {
                let k = choose|k: &str| k@ == m.spec_key() && call_ensures(f, (k,), vals[i]);
                assert(vals[i] == lookup_value(map, k@));
            },
            LineTempComp::Fixed(_, _) => {},
        }
    }
    assert(vals =~= target);
}


} // verus!

verus! {

/// The keys of the value-mapped components among the first `k`, in order.
pub open spec fn comp_keys(comps: Seq<LineTempComp>, k: int) -> Seq<Seq<char>>
    decreases k,
{
    if k <= 0 {
        seq![]
    } else {
        match comps[k - 1] {
            LineTempComp::Mapped(m) => comp_keys(comps, k - 1).push(m.spec_key()),
            LineTempComp::Fixed(_, _) => comp_keys(comps, k - 1),
        }
    }
}

impl DumbLineTemplate {
    /// The keys of the value-mapped components, in order.
    pub open spec fn spec_keys(&self) -> Seq<Seq<char>> {
        comp_keys(self.spec_components(), self.spec_components().len() as int)
    }

    /// The keys of the value-mapped components of the template, in order.
    pub fn scan_for_keys(&self) -> (res: Vec<String>)
        ensures
            res@.map_values(|k: String| k@) == self.spec_keys(),
    {
        let mut keys: Vec<String> = Vec::new();
        let mut i: usize = 0;
        while i < self.components.len()
            invariant
                i <= self.components@.len(),
                keys@.map_values(|k: String| k@) == comp_keys(self.components@, i as int),
            decreases self.components@.len() - i,
        {
            match &self.components[i] {
                LineTempComp::Mapped(m) => {
                    let k = m.key.clone();
                    keys.push(k);
                    assert(keys@.map_values(|k: String| k@) =~= comp_keys(self.components@, i as int).push(m.spec_key()));
                },
                LineTempComp::Fixed(_, _) => {},
            }
            i = i + 1;
        }
        keys
    }
}

} // verus!

verus! {

impl DumbLineTemplate {
    /// The values given for the components by a value-mapping function: one call
    /// for each value-mapped component, with its key; `None` for the fixed ones.
    pub(crate) fn values_by_fn<F: Fn(&str) -> Option<(String, u16)>>(&self, map_value_fn: &F) -> (res: Vec<
        Option<(String, u16)>,
    >)
        requires
            forall|k: &str| call_requires(*map_value_fn, (k,)),
        ensures
            self.values_from_fn(*map_value_fn, res@),
    {
        let n = self.components.len();
        let mut vals: Vec<Option<(String, u16)>> = Vec::new();
        let mut k: usize = 0;
        while k < n
            invariant
                n == self.components@.len(),
                k <= n,
                vals@.len() == k,
                forall|k: &str| call_requires(*map_value_fn, (k,)),
                forall|i: int|
                    0 <= i < k ==> (#[trigger] self.spec_components()[i] matches LineTempComp::Mapped(
                        m,
                    ) ==> exists|key: &str|
                        key@ == m.spec_key() && call_ensures(*map_value_fn, (key,), vals@[i])),
                forall|i: int|
                    0 <= i < k ==> (#[trigger] self.spec_components()[i] is Fixed ==> vals@[i] is None),
            decreases n - k,
        {
            let v = match &self.components[k] {
                LineTempComp::Mapped(m) => {
                    let key = m.get_map_key();
                    let v = map_value_fn(key);
                    assert(call_ensures(*map_value_fn, (key,), v));
                    v
                },
                LineTempComp::Fixed(_, _) => None,
            };
            vals.push(v);
            k = k + 1;
        }
        vals
    }

    /// The values given for the components by a value mapper: one call for each
    /// value-mapped component, with its key; `None` for the fixed ones.
    pub(crate) fn values_by_mapper<T: LBLScreenMapValueTrait>(&self, mapper: &T) -> (res: Vec<Option<(String, u16)>>)
        ensures
            values_from_mapper(*self, mapper, res@),
    {
        let n = self.components.len();
        let mut vals: Vec<Option<(String, u16)>> = Vec::new();
        let mut k: usize = 0;
        while k < n
            invariant
                n == self.components@.len(),
                k <= n,
                vals@.len() == k,
                forall|i: int|
                    0 <= i < k ==> (#[trigger] self.spec_components()[i] matches LineTempComp::Mapped(
                        m,
                    ) ==> exists|key: &str|
                        key@ == m.spec_key() && call_ensures(T::map_value, (mapper, key), vals@[i])),
                forall|i: int|
                    0 <= i < k ==> (#[trigger] self.spec_components()[i] is Fixed ==> vals@[i] is None),
            decreases n - k,
        {
            let v = match &self.components[k] {
                LineTempComp::Mapped(m) => {
                    let key = m.get_map_key();
                    let v = mapper.map_value(key);
                    assert(call_ensures(T::map_value, (mapper, key), v));
                    v
                },
                LineTempComp::Fixed(_, _) => None,
            };
            vals.push(v);
            k = k + 1;
        }
        vals
    }
}

} // verus!
