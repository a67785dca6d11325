//! The bookkeeping and rendering behind a progress indicator of iterations:
//! a stack of progress entries (one per iteration in progress, nested ones last),
//! and the line that shows them, like
//! ```text
//! 💠 STAGE: 1/3 🌑🌓🌕🌕🌕🌕🌕🌕🌕🌕 – iteration of stages 💠 …
//! ```
//! The registry ([`ProgressShower`]) does not print or read the clock: each
//! operation takes the current time (in milliseconds, from any fixed start) and
//! gives the text to write to the terminal.

use vstd::prelude::*;

use crate::text::{push_str, push_char, to_decimal, decimal, repeat_string};

verus! {

broadcast use vstd::string::group_string_axioms;

/// How the progress is shown: plain characters, or emojis.
#[derive(Debug, Clone, Copy, PartialEq, Eq, Structural)]
pub enum DumbProgressStyle {
    Simple,
    Default,
}

/// The settings of one progress indicator: the number of iterations (if known),
/// its name and its description.
#[derive(Debug, Clone)]
pub struct DumbProgressSetting {
    pub total: Option<usize>,
    pub name: Option<String>,
    pub desc: Option<String>,
}

impl Default for DumbProgressSetting {
    fn default() -> (res: Self)
        ensures
            res.total is None,
            res.name is None,
            res.desc is None,
    {
        DumbProgressSetting { total: None, name: None, desc: None }
    }
}

/// The least time, in milliseconds, between two showings of the progress.
pub const DEF_SHOW_GAP_MILLIS: u16 = 100;
/// Whether emojis are used to show the progress, unless set otherwise.
pub const DEF_PREFER_EMOJIS: bool = true;
/// How many of the innermost progress entries get a progress bar, unless set otherwise.
pub const MAX_NESTED_PROGRESS_BAR_COUNT: u8 = 2;

/// One iteration in progress.
#[derive(Debug, Clone)]
struct ProgressEntry {
    entry_id: usize,
    counter: usize,
    setting: DumbProgressSetting,
}

/// An iteration in progress, as plain values.
pub struct EntryView {
    pub id: nat,
    pub counter: nat,
    pub total: Option<nat>,
    pub name: Option<Seq<char>>,
    pub desc: Option<Seq<char>>,
}

pub open spec fn opt_chars(s: Option<String>) -> Option<Seq<char>> {
    match s {
        Some(t) => Some(t@),
        None => None,
    }
}

pub open spec fn opt_nat(n: Option<usize>) -> Option<nat> {
    match n {
        Some(t) => Some(t as nat),
        None => None,
    }
}

impl ProgressEntry {
    spec fn view(&self) -> EntryView {
        EntryView {
            id: self.entry_id as nat,
            counter: self.counter as nat,
            total: opt_nat(self.setting.total),
            name: opt_chars(self.setting.name),
            desc: opt_chars(self.setting.desc),
        }
    }
}

/// The registry of the iterations in progress, and how they are shown.
#[derive(Debug)]
pub struct ProgressShower {
    next_entry_id: usize,
    show_gap_millis: u16,
    prefer_emojis: bool,
    max_nested_progress_bar_count: u8,
    progress_entries: Vec<ProgressEntry>,
    last_shown_entry_count: Option<usize>,
    last_shown_time: Option<u128>,
}

/// The registry as plain values.
pub struct ShowerView {
    pub next_id: nat,
    pub gap: nat,
    pub emojis: bool,
    pub max_bars: nat,
    pub entries: Seq<EntryView>,
    pub last_count: Option<nat>,
    pub last_time: Option<nat>,
}

impl ProgressShower {
    pub closed spec fn view(&self) -> ShowerView {
        ShowerView {
            next_id: self.next_entry_id as nat,
            gap: self.show_gap_millis as nat,
            emojis: self.prefer_emojis,
            max_bars: self.max_nested_progress_bar_count as nat,
            entries: self.progress_entries@.map_values(|e: ProgressEntry| e.view()),
            last_count: opt_nat(self.last_shown_entry_count),
            last_time: match self.last_shown_time {
                Some(t) => Some(t as nat),
                None => None,
            },
        }
    }

    /// A registry with no iteration in progress and the default options.
    pub fn new() -> (res: ProgressShower)
        ensures
            res@.next_id == 0,
            res@.gap == DEF_SHOW_GAP_MILLIS,
            res@.emojis == DEF_PREFER_EMOJIS,
            res@.max_bars == MAX_NESTED_PROGRESS_BAR_COUNT,
            res@.entries == Seq::<EntryView>::empty(),
            res@.last_count is None,
            res@.last_time is None,
    {
        let res = ProgressShower {
            next_entry_id: 0,
            show_gap_millis: DEF_SHOW_GAP_MILLIS,
            prefer_emojis: DEF_PREFER_EMOJIS,
            max_nested_progress_bar_count: MAX_NESTED_PROGRESS_BAR_COUNT,
            progress_entries: Vec::new(),
            last_shown_entry_count: None,
            last_shown_time: None,
        };
        assert(res@.entries =~= Seq::<EntryView>::empty());
        res
    }
}

impl DumbProgressSetting {
    /// Sets the style in which the registry shows the progress: plain characters
    /// (`Simple`) or emojis (`Default`).
    pub fn set_style(shower: &mut ProgressShower, style: DumbProgressStyle)
        ensures
            final(shower)@ == (ShowerView { emojis: style == DumbProgressStyle::Default, ..old(shower)@ }),
    {
        shower.prefer_emojis = match style {
            DumbProgressStyle::Simple => false,
            DumbProgressStyle::Default => true,
        };
    }

    /// Sets how many of the innermost iterations in progress get a progress bar
    /// (the others show a percentage); 0 shows no bar.
    pub fn set_max_nested_progress_bar_count(shower: &mut ProgressShower, count: u8)
        ensures
            final(shower)@ == (ShowerView { max_bars: count as nat, ..old(shower)@ }),
    {
        shower.max_nested_progress_bar_count = count;
    }
}

} // verus!

verus! {

/// The divider between the entries.
pub open spec fn divider(emojis: bool) -> char {
    if emojis { '💠' } else { '|' }
}

/// The marks of a progress bar: filled, half filled, empty.
pub open spec fn bar_marks(emojis: bool) -> (char, char, char) {
    if emojis { ('🌑', '🌓', '🌕') } else { ('■', '■', '□') }
}

/// The whole percentage done, at most 100 (`total` is not 0).
pub open spec fn percent_done(counter: nat, total: nat) -> nat {
    if counter >= total { 100 } else { (counter * 100) / total }
}

/// How many of the ten marks of the bar are filled.
pub open spec fn filled_marks(counter: nat, total: nat) -> nat {
    percent_done(counter, total) / 10
}

/// Whether a half-filled mark follows: more than half of the next tenth is done.
pub open spec fn half_mark(counter: nat, total: nat) -> nat {
    if counter < total && counter * 100 > (10 * filled_marks(counter, total) + 5) * total { 1 } else { 0 }
}

pub open spec fn repeat_mark(c: char, n: nat) -> Seq<char> {
    Seq::new(n, |_i: int| c)
}

/// The progress bar: ten marks.
pub open spec fn bar(counter: nat, total: nat, emojis: bool) -> Seq<char> {
    let (f, h, e) = bar_marks(emojis);
    let nf = filled_marks(counter, total);
    let nh = half_mark(counter, total);
    repeat_mark(f, nf) + repeat_mark(h, nh) + repeat_mark(e, (10 - nf - nh) as nat)
}

/// The start of what an entry shows: the divider and the name.
pub open spec fn entry_head(e: EntryView, emojis: bool) -> Seq<char> {
    seq![divider(emojis), ' '] + match e.name {
        Some(name) => name + seq![':', ' '],
        None => Seq::empty(),
    }
}

/// With a known total, the total and either a bar (for the innermost
/// `max_bars` of the `n` entries) or the percentage.
pub open spec fn total_part(e: EntryView, i: int, n: int, max_bars: nat, emojis: bool) -> Seq<char> {
    match e.total {
        Some(t) => if t > 0 {
            seq!['/'] + decimal(t) + if i + 1 + max_bars > n {
                seq![' '] + bar(e.counter, t, emojis)
            } else {
                seq![' ', '('] + decimal(percent_done(e.counter, t)) + seq!['%', ')']
            }
        } else {
            Seq::empty()
        },
        None => Seq::empty(),
    }
}

/// What entry `i` of `n` shows: the divider, the name, the count, and with a
/// known total the total and either a bar or the percentage.
pub open spec fn entry_text(e: EntryView, i: int, n: int, max_bars: nat, emojis: bool) -> Seq<char> {
    entry_head(e, emojis) + decimal(e.counter) + total_part(e, i, n, max_bars, emojis) + seq![' ']
}

/// What the first `k` entries show.
pub open spec fn entries_text(entries: Seq<EntryView>, max_bars: nat, emojis: bool, k: int) -> Seq<char>
    decreases k,
{
    if k <= 0 {
        Seq::empty()
    } else {
        entries_text(entries, max_bars, emojis, k - 1) + entry_text(entries[k - 1], k - 1, entries.len() as int, max_bars, emojis)
    }
}

/// The end of the progress line: the description of the innermost entry and a divider.
pub open spec fn progress_tail(v: ShowerView) -> Seq<char> {
    (match v.entries.last().desc {
        Some(d) => seq!['–', ' '] + d + seq![' '],
        None => Seq::empty(),
    }) + seq![divider(v.emojis), ' ', '…', ' ']
}

/// The progress line (for the last showing, only the return to the start of
/// the line).
pub open spec fn progress_text(v: ShowerView, last_progress: bool) -> Seq<char> {
    seq!['\r'] + if last_progress {
        Seq::empty()
    } else {
        entries_text(v.entries, v.max_bars, v.emojis, v.entries.len() as int) + progress_tail(v)
    }
}

/// The sequence that clears the rest of the terminal line.
pub open spec fn clear_rest() -> Seq<char> {
    seq!['\x1B', '[', 'K']
}

/// The progress is shown again: for the last showing, when the number of
/// entries changed since the last showing, or when enough time went by.
pub open spec fn should_show(v: ShowerView, last_progress: bool, now: nat) -> bool {
    ||| last_progress
    ||| (v.last_count matches Some(c) && c != v.entries.len())
    ||| match v.last_time {
        Some(t) => (if now >= t { now - t } else { 0 }) >= v.gap,
        None => true,
    }
}

/// Showing the progress: the registry after, and the text written.
pub open spec fn show(v: ShowerView, track_timing: bool, last_progress: bool, now: nat) -> (ShowerView, Seq<char>) {
    if v.entries.len() == 0 {
        (v, Seq::empty())
    } else if should_show(v, last_progress, now) {
        let w = if track_timing {
            ShowerView { last_count: Some(v.entries.len()), last_time: Some(now), ..v }
        } else {
            ShowerView { last_count: None, last_time: None, ..v }
        };
        (w, progress_text(v, last_progress) + clear_rest())
    } else {
        (v, clear_rest())
    }
}

} // verus!

verus! {

/// Appends `n` copies of a character.
fn push_repeat(out: &mut String, c: char, n: u128)
    ensures
        final(out)@ == old(out)@ + repeat_mark(c, n as nat),
{
    let mut i: u128 = 0;
    while i < n
        invariant
            i <= n,
            out@ == old(out)@ + repeat_mark(c, i as nat),
        decreases n - i,
    {
        push_char(out, c);
        i = i + 1;
        assert(out@ =~= old(out)@ + repeat_mark(c, i as nat));
    }
}

/// The whole percentage done.
fn percent_of(counter: usize, total: usize) -> (res: u128)
    requires
        total > 0,
    ensures
        res == percent_done(counter as nat, total as nat),
        res <= 100,
{
    if counter >= total {
        100
    } else {
        let p = (counter as u128 * 100) / total as u128;
        assert(p <= 100) by (nonlinear_arith)
            requires
                p as int == (counter as int * 100) / total as int,
                counter < total,
                total > 0,
        ;
        p
    }
}

/// Appends the progress bar.
fn push_bar(out: &mut String, counter: usize, total: usize, emojis: bool)
    requires
        total > 0,
    ensures
        final(out)@ == old(out)@ + bar(counter as nat, total as nat, emojis),
{
    let (fm, hm, em) = if emojis { ('🌑', '🌓', '🌕') } else { ('■', '■', '□') };
    let p = percent_of(counter, total);
    let f = p / 10;
    assert((10 * f + 5) * (total as int) <= 105 * 0x1_0000_0000_0000_0000) by (nonlinear_arith)
        requires
            f <= 10,
            total <= 0xffff_ffff_ffff_ffff,
    ;
    let h: u128 = if counter < total && (counter as u128) * 100 > (10 * f + 5) * (total as u128) { 1 } else { 0 };
    assert(f + h <= 10) by (nonlinear_arith)
        requires
            f == p / 10,
            p <= 100,
            h <= 1,
            counter < total ==> p as int == (counter as int * 100) / total as int,
            h == 1 ==> counter < total && (counter as int) * 100 > (10 * f + 5) * (total as int),
            total > 0,
    ;
    push_repeat(out, fm, f);
    push_repeat(out, hm, h);
    push_repeat(out, em, 10 - f - h);
    assert(final(out)@ =~= old(out)@ + bar(counter as nat, total as nat, emojis)) by {
        assert(old(out)@ + repeat_mark(fm, f as nat) + repeat_mark(hm, h as nat) + repeat_mark(em, (10 - f - h) as nat)
            =~= old(out)@ + (repeat_mark(fm, f as nat) + repeat_mark(hm, h as nat) + repeat_mark(em, (10 - f - h) as nat)));
    }
}

} // verus!

verus! {

/// Appends the start of what an entry shows.
fn push_entry_head(out: &mut String, e: &ProgressEntry, emojis: bool)
    ensures
        final(out)@ == old(out)@ + entry_head(e.view(), emojis),
{
    push_char(out, if emojis { '💠' } else { '|' });
    push_char(out, ' ');
    match &e.setting.name {
        Some(name) => {
            push_str(out, name.as_str());
            push_char(out, ':');
            push_char(out, ' ');
        },
        None => {},
    }
    assert(final(out)@ =~= old(out)@ + entry_head(e.view(), emojis));
}

/// Appends the total part of what an entry shows.
fn push_total_part(out: &mut String, e: &ProgressEntry, i: usize, n: usize, max_bars: u8, emojis: bool)
    ensures
        final(out)@ == old(out)@ + total_part(e.view(), i as int, n as int, max_bars as nat, emojis),
{
    match e.setting.total {
        Some(t) => {
            if t > 0 {
                push_char(out, '/');
                push_str(out, to_decimal(t as u128).as_str());
                let ghost mid = out@;
                if (i as u128) + 1 + (max_bars as u128) > n as u128 {
                    push_char(out, ' ');
                    push_bar(out, e.counter, t, emojis);
                    assert(out@ =~= mid + (seq![' '] + bar(e.counter as nat, t as nat, emojis)));
                } else {
                    push_char(out, ' ');
                    push_char(out, '(');
                    push_str(out, to_decimal(percent_of(e.counter, t)).as_str());
                    push_char(out, '%');
                    push_char(out, ')');
                    assert(out@ =~= mid + (seq![' ', '('] + decimal(percent_done(e.counter as nat, t as nat)) + seq!['%', ')']));
                }
                assert(final(out)@ =~= old(out)@ + total_part(e.view(), i as int, n as int, max_bars as nat, emojis));
            } else {
                assert(final(out)@ =~= old(out)@ + total_part(e.view(), i as int, n as int, max_bars as nat, emojis));
            }
        },
        None => {
            assert(final(out)@ =~= old(out)@ + total_part(e.view(), i as int, n as int, max_bars as nat, emojis));
        },
    }
}

/// Appends what entry `i` of `n` shows.
fn push_entry(out: &mut String, e: &ProgressEntry, i: usize, n: usize, max_bars: u8, emojis: bool)
    ensures
        final(out)@ == old(out)@ + entry_text(e.view(), i as int, n as int, max_bars as nat, emojis),
{
    push_entry_head(out, e, emojis);
    push_str(out, to_decimal(e.counter as u128).as_str());
    push_total_part(out, e, i, n, max_bars, emojis);
    push_char(out, ' ');
    assert(final(out)@ =~= old(out)@ + entry_text(e.view(), i as int, n as int, max_bars as nat, emojis));
}

/// Appends the end of the progress line.
fn push_tail(out: &mut String, last: &ProgressEntry, emojis: bool)
    ensures
        final(out)@ == old(out)@ + (match last.view().desc {
            Some(d) => seq!['–', ' '] + d + seq![' '],
            None => Seq::<char>::empty(),
        }) + seq![divider(emojis), ' ', '…', ' '],
{
    match &last.setting.desc {
        Some(d) => {
            push_char(out, '–');
            push_char(out, ' ');
            push_str(out, d.as_str());
            push_char(out, ' ');
        },
        None => {},
    }
    push_char(out, if emojis { '💠' } else { '|' });
    push_char(out, ' ');
    push_char(out, '…');
    push_char(out, ' ');
    assert(final(out)@ =~= old(out)@ + (match last.view().desc {
        Some(d) => seq!['–', ' '] + d + seq![' '],
        None => Seq::<char>::empty(),
    }) + seq![divider(emojis), ' ', '…', ' ']);
}

impl ProgressShower {
    /// Shows the progress, if it is time to: gives the text to write.
    fn show_progress(&mut self, track_timing: bool, last_progress: bool, now: u128) -> (res: String)
        ensures
            final(self)@ == show(old(self)@, track_timing, last_progress, now as nat).0,
            res@ == show(old(self)@, track_timing, last_progress, now as nat).1,
    {
        let n = self.progress_entries.len();
        let mut out = String::new();
        if n == 0 {
            return out;
        }
        let ghost v = self@;
        let mut show_it = last_progress;
        if !show_it {
            match self.last_shown_entry_count {
                Some(c) => {
                    if c != n {
                        show_it = true;
                    }
                },
                None => {},
            }
        }
        if !show_it {
            match self.last_shown_time {
                Some(t) => {
                    let elapsed = if now >= t { now - t } else { 0 };
                    if elapsed >= self.show_gap_millis as u128 {
                        show_it = true;
                    }
                },
                None => {
                    show_it = true;
                },
            }
        }
        assert(show_it == should_show(v, last_progress, now as nat));
        if show_it {
            push_char(&mut out, '\r');
            if !last_progress {
                let emojis = self.prefer_emojis;
                let mut i: usize = 0;
                while i < n
                    invariant
                        n == self.progress_entries@.len(),
                        v == self@,
                        emojis == self.prefer_emojis,
                        i <= n,
                        out@ == seq!['\r'] + entries_text(v.entries, v.max_bars, v.emojis, i as int),
                    decreases n - i,
                {
                    push_entry(&mut out, &self.progress_entries[i], i, n, self.max_nested_progress_bar_count, emojis);
                    i = i + 1;
                }
                push_tail(&mut out, &self.progress_entries[n - 1], emojis);
                assert(v.entries.last() == self.progress_entries@[n - 1].view());
            }
            assert(out@ =~= progress_text(v, last_progress));
            if track_timing {
                self.last_shown_entry_count = Some(n);
                self.last_shown_time = Some(now);
            } else {
                self.last_shown_entry_count = None;
                self.last_shown_time = None;
            }
        }
        push_char(&mut out, '\x1B');
        push_char(&mut out, '[');
        push_char(&mut out, 'K');
        proof {
            if show_it {
                assert(out@ =~= progress_text(v, last_progress) + clear_rest());
            } else {
                assert(out@ =~= clear_rest());
            }
        }
        out
    }
}

} // verus!

verus! {

/// Entry `i` is the first with the id.
pub open spec fn first_with_id(es: Seq<EntryView>, id: nat, i: int) -> bool {
    &&& 0 <= i < es.len()
    &&& es[i].id == id
    &&& forall|j: int| 0 <= j < i ==> es[j].id != id
}

/// The index of the first entry with the id, if any.
pub open spec fn position_of(es: Seq<EntryView>, id: nat) -> Option<int> {
    if exists|i: int| #[trigger] first_with_id(es, id, i) {
        Some(choose|i: int| #[trigger] first_with_id(es, id, i))
    } else {
        None
    }
}

/// The entries with one more iteration done for entry `i`.
pub open spec fn advanced(es: Seq<EntryView>, i: int) -> Seq<EntryView> {
    es.update(i, EntryView { counter: es[i].counter + 1, ..es[i] })
}

impl ProgressShower {
    /// The index of the first entry with the id, if any.
    fn position(&self, entry_id: usize) -> (res: Option<usize>)
        ensures
            match res {
                Some(i) => position_of(self@.entries, entry_id as nat) == Some(i as int),
                None => position_of(self@.entries, entry_id as nat) is None,
            },
    {
        let ghost es = self@.entries;
        let mut i: usize = 0;
        while i < self.progress_entries.len()
            invariant
                es == self@.entries,
                i <= es.len(),
                forall|j: int| 0 <= j < i ==> es[j].id != entry_id,
            decreases es.len() - i,
        {
            if self.progress_entries[i].entry_id == entry_id {
                assert(first_with_id(es, entry_id as nat, i as int));
                let ghost c = choose|k: int| #[trigger] first_with_id(es, entry_id as nat, k);
                assert(c == i) by {
                    if c < i {
                        assert(es[c].id != entry_id);
                    } else if c > i {
                        assert(es[i as int].id != entry_id);
                    }
                }
                return Some(i);
            }
            i = i + 1;
        }
        assert(!exists|k: int| #[trigger] first_with_id(es, entry_id as nat, k));
        None
    }

    /// Registers a new iteration in progress (the innermost one), with no
    /// iteration done yet; gives its id and the text to write.
    pub fn register_progress(&mut self, setting: DumbProgressSetting, now: u128) -> (res: (usize, String))
        requires
            old(self)@.next_id < usize::MAX,
        ensures
            res.0 == old(self)@.next_id,
            ({
                let e = EntryView {
                    id: old(self)@.next_id,
                    counter: 0,
                    total: opt_nat(setting.total),
                    name: opt_chars(setting.name),
                    desc: opt_chars(setting.desc),
                };
                let v = ShowerView { next_id: old(self)@.next_id + 1, entries: old(self)@.entries.push(e), ..old(self)@ };
                final(self)@ == show(v, false, false, now as nat).0 && res.1@ == show(v, false, false, now as nat).1
            }),
    {
        let entry_id = self.next_entry_id;
        self.progress_entries.push(ProgressEntry { entry_id, counter: 0, setting });
        self.next_entry_id = self.next_entry_id + 1;
        assert(self@.entries =~= old(self)@.entries.push(self.progress_entries@.last().view()));
        let out = self.show_progress(false, false, now);
        (entry_id, out)
    }

    /// One more iteration done for the entry with the id (if it is registered);
    /// gives the text to write.
    pub fn advance_progress(&mut self, entry_id: usize, now: u128) -> (res: String)
        requires
            match position_of(old(self)@.entries, entry_id as nat) {
                Some(i) => old(self)@.entries[i].counter < usize::MAX,
                None => true,
            },
        ensures
            match position_of(old(self)@.entries, entry_id as nat) {
                Some(i) => {
                    let v = ShowerView { entries: advanced(old(self)@.entries, i), ..old(self)@ };
                    final(self)@ == show(v, true, false, now as nat).0 && res@ == show(v, true, false, now as nat).1
                },
                None => final(self)@ == old(self)@ && res@ == Seq::<char>::empty(),
            },
    {
        match self.position(entry_id) {
            Some(i) => {
                let mut e = self.progress_entries.remove(i);
                e.counter = e.counter + 1;
                self.progress_entries.insert(i, e);
                assert(self@.entries =~= advanced(old(self)@.entries, i as int));
                self.show_progress(true, false, now)
            },
            None => String::new(),
        }
    }

    /// The iteration with the id (if it is registered) is over: shows that;
    /// gives the text to write.
    pub fn end_progress(&mut self, entry_id: usize, now: u128) -> (res: String)
        ensures
            match position_of(old(self)@.entries, entry_id as nat) {
                Some(i) => final(self)@ == show(old(self)@, false, true, now as nat).0
                    && res@ == show(old(self)@, false, true, now as nat).1,
                None => final(self)@ == old(self)@ && res@ == Seq::<char>::empty(),
            },
    {
        match self.position(entry_id) {
            Some(_) => self.show_progress(false, true, now),
            None => String::new(),
        }
    }

    /// Unregisters the iteration with the id, and those nested in it.
    pub fn unregister_progress(&mut self, entry_id: usize)
        ensures
            match position_of(old(self)@.entries, entry_id as nat) {
                Some(i) => final(self)@ == (ShowerView { entries: old(self)@.entries.take(i), ..old(self)@ }),
                None => final(self)@ == old(self)@,
            },
    {
        match self.position(entry_id) {
            Some(i) => {
                self.progress_entries.truncate(i);
                assert(self@.entries =~= old(self)@.entries.take(i as int));
            },
            None => {},
        }
    }
}

} // verus!

verus! {

/// The progress bar always has ten marks, and the percentage shown is at most 100.
pub proof fn lemma_bar_has_ten_marks(counter: nat, total: nat, emojis: bool)
    requires
        total > 0,
    ensures
        bar(counter, total, emojis).len() == 10,
        percent_done(counter, total) <= 100,
{
    let p = percent_done(counter, total);
    if counter < total {
        assert((counter * 100) / total <= 100) by (nonlinear_arith)
            requires
                counter < total,
                total > 0,
        ;
        if half_mark(counter, total) == 1 {
            assert(filled_marks(counter, total) < 10) by (nonlinear_arith)
                requires
                    counter * 100 > (10 * filled_marks(counter, total) + 5) * total,
                    filled_marks(counter, total) == p / 10,
                    p == (counter * 100) / total,
                    counter < total,
                    total > 0,
            ;
        }
    }
}

/// A progress bar shows how much is done in ten marks: the filled marks are
/// the whole tenths done (all ten once the count reaches the total), a half
/// filled mark follows when more than half of the next tenth is done, and the
/// rest are empty.
pub proof fn lemma_bar_shows_tenths(counter: nat, total: nat, emojis: bool)
    requires
        total > 0,
    ensures
        exists|f: nat, h: nat|
            {
                &&& #[trigger] bar(counter, total, emojis) == repeat_mark(bar_marks(emojis).0, f) + repeat_mark(
                    bar_marks(emojis).1,
                    h,
                ) + repeat_mark(bar_marks(emojis).2, (10 - f - h) as nat)
                &&& f + h <= 10
                &&& counter >= total ==> f == 10 && h == 0
                &&& counter < total ==> f * 10 * total <= counter * 100 < (f + 1) * 10 * total
                &&& counter < total ==> (h == 1 <==> counter * 100 > (10 * f + 5) * total) && h <= 1
            },
{
    lemma_bar_has_ten_marks(counter, total, emojis);
    let p = percent_done(counter, total);
    let f = filled_marks(counter, total);
    let h = half_mark(counter, total);
    if counter < total {
        let c = counter;
        let t = total;
        assert(p * t <= c * 100 < (p + 1) * t) by (nonlinear_arith)
            requires
                p == (c * 100) / t,
                t > 0,
        ;
        assert(f * 10 * t <= c * 100 < (f + 1) * 10 * t) by (nonlinear_arith)
            requires
                f == p / 10,
                p * t <= c * 100 < (p + 1) * t,
                t > 0,
        ;
        if h == 1 {
            assert(f < 10) by (nonlinear_arith)
                requires
                    c * 100 > (10 * f + 5) * t,
                    c < t,
                    t > 0,
            ;
        }
    }
    assert(f + h <= 10);
}

} // verus!

verus! {

impl ProgressShower {
    /// The id the next registered iteration gets.
    pub fn next_entry_id(&self) -> (res: usize)
        ensures
            res == self@.next_id,
    {
        self.next_entry_id
    }

    /// How many iterations are done for the entry with the id, if it is registered.
    pub fn counter_of(&self, entry_id: usize) -> (res: Option<usize>)
        ensures
            match position_of(self@.entries, entry_id as nat) {
                Some(i) => res == Some(self@.entries[i].counter as usize),
                None => res is None,
            },
    {
        match self.position(entry_id) {
            Some(i) => Some(self.progress_entries[i].counter),
            None => None,
        }
    }
}

} // verus!

verus! {

/// An entry with a known total that is shown by percentage (not among the
/// innermost entries that get bars) shows its name, its count, its total and
/// the whole percentage done: the largest `p` with `p * total <= counter * 100`,
/// and 100 once the count reaches the total.
pub proof fn lemma_percentage_shown(e: EntryView, i: int, n: int, max_bars: nat, emojis: bool)
    requires
        e.total matches Some(t) && t > 0,
        i + 1 + max_bars <= n,
    ensures
        exists|p: nat|
            {
                &&& entry_text(e, i, n, max_bars, emojis) == entry_head(e, emojis) + decimal(e.counter) + seq!['/']
                    + decimal(e.total->Some_0) + seq![' ', '('] + #[trigger] decimal(p) + seq!['%', ')', ' ']
                &&& e.counter >= e.total->Some_0 ==> p == 100
                &&& e.counter < e.total->Some_0 ==> p * e.total->Some_0 <= e.counter * 100 < (p + 1)
                    * e.total->Some_0
            },
{
    let t = e.total->Some_0;
    let p = percent_done(e.counter, t);
    if e.counter < t {
        let c = e.counter;
        assert(p * t <= c * 100 < (p + 1) * t) by (nonlinear_arith)
            requires
                p == (c * 100) / t,
                t > 0,
        ;
    }
    assert(entry_text(e, i, n, max_bars, emojis) =~= entry_head(e, emojis) + decimal(e.counter) + seq!['/']
        + decimal(t) + seq![' ', '('] + decimal(p) + seq!['%', ')', ' ']);
}

} // verus!
