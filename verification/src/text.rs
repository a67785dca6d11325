//! Small verified helpers on text: characters of a string, building strings,
//! spaces, decimal rendering of numbers.

use vstd::prelude::*;
use vstd::string::*;

verus! {

broadcast use vstd::string::group_string_axioms;

/// Appends one character to a string, by `String::push`; the contract, taken
/// on trust, says that the characters of the string gain `c` at their end.
#[verifier::external_body]
pub(crate) fn push_char(s: &mut String, c: char)
    ensures
        final(s)@ == old(s)@.push(c),
{
    s.push(c);
}

/// Appends a string slice to a string.
pub fn push_str(s: &mut String, t: &str)
    ensures
        final(s)@ == old(s)@ + t@,
{
    s.append(t);
}

/// The characters of a string slice, in order.
pub fn chars_of(s: &str) -> (res: Vec<char>)
    ensures
        res@ == s@,
{
    let n = s.unicode_len();
    let mut res: Vec<char> = Vec::new();
    let mut i: usize = 0;
    while i < n
        invariant
            n == s@.len(),
            i <= n,
            res@ == s@.subrange(0, i as int),
        decreases n - i,
    {
        res.push(s.get_char(i));
        i = i + 1;
        assert(res@ =~= s@.subrange(0, i as int));
    }
    assert(res@ =~= s@);
    res
}

/// A string made of the given characters.
pub fn string_from_chars(cs: &[char]) -> (res: String)
    ensures
        res@ == cs@,
{
    let mut res = String::new();
    let mut i: usize = 0;
    while i < cs.len()
        invariant
            i <= cs@.len(),
            res@ == cs@.subrange(0, i as int),
        decreases cs@.len() - i,
    {
        push_char(&mut res, cs[i]);
        i = i + 1;
        assert(res@ =~= cs@.subrange(0, i as int));
    }
    assert(cs@.subrange(0, i as int) =~= cs@);
    res
}

/// `n` copies of the character `c`.
pub open spec fn repeat_char(c: char, n: nat) -> Seq<char> {
    Seq::new(n, |_i: int| c)
}

/// A string of `n` copies of the character `c` (as `c.repeat(n)` would give).
pub fn repeat_string(c: char, n: usize) -> (res: String)
    ensures
        res@ == repeat_char(c, n as nat),
{
    let mut res = String::new();
    let mut i: usize = 0;
    while i < n
        invariant
            i <= n,
            res@ == repeat_char(c, i as nat),
        decreases n - i,
    {
        push_char(&mut res, c);
        i = i + 1;
        assert(res@ =~= repeat_char(c, i as nat));
    }
    res
}

/// The decimal digit character of a number below ten.
pub open spec fn digit_char(d: nat) -> char {
    (('0' as nat) + d) as char
}

/// The decimal rendering of a natural number, as `to_string` prints it.
pub open spec fn decimal(n: nat) -> Seq<char>
    decreases n,
{
    if n < 10 {
        seq![digit_char(n)]
    } else {
        decimal(n / 10).push(digit_char(n % 10))
    }
}

/// Renders a number in decimal, as `to_string` does.
pub fn to_decimal(n: u128) -> (res: String)
    ensures
        res@ == decimal(n as nat),
    decreases n,
{
    if n < 10 {
        let mut s = String::new();
        push_char(&mut s, char_of_digit(n));
        assert(s@ =~= decimal(n as nat));
        s
    } else {
        let mut s = to_decimal(n / 10);
        push_char(&mut s, char_of_digit(n % 10));
        s
    }
}

/// The digit character of a number below ten.
fn char_of_digit(d: u128) -> (c: char)
    requires
        d < 10,
    ensures
        c == digit_char(d as nat),
{
    if d == 0 { '0' }
    else if d == 1 { '1' }
    else if d == 2 { '2' }
    else if d == 3 { '3' }
    else if d == 4 { '4' }
    else if d == 5 { '5' }
    else if d == 6 { '6' }
    else if d == 7 { '7' }
    else if d == 8 { '8' }
    else { '9' }
}


/// The characters with the Unicode `White_Space` property (what `char::is_whitespace` tells).
pub open spec fn is_ws(c: char) -> bool {
    ||| c == ' '
    ||| ('\t' <= c && c <= '\r')
    ||| c == '\u{85}'
    ||| c == '\u{A0}'
    ||| c == '\u{1680}'
    ||| ('\u{2000}' <= c && c <= '\u{200A}')
    ||| c == '\u{2028}'
    ||| c == '\u{2029}'
    ||| c == '\u{202F}'
    ||| c == '\u{205F}'
    ||| c == '\u{3000}'
}

/// Whether the character is whitespace, as `char::is_whitespace` tells.
pub fn is_whitespace(c: char) -> (res: bool)
    ensures
        res == is_ws(c),
{
    c == ' ' || ('\t' <= c && c <= '\r') || c == '\u{85}' || c == '\u{A0}' || c == '\u{1680}' || (
    '\u{2000}' <= c && c <= '\u{200A}') || c == '\u{2028}' || c == '\u{2029}' || c == '\u{202F}'
        || c == '\u{205F}' || c == '\u{3000}'
}

/// The number of whitespace characters at the start of `s`.
pub open spec fn lead_ws(s: Seq<char>) -> nat
    decreases s.len(),
{
    if s.len() == 0 || !is_ws(s[0]) {
        0
    } else {
        1 + lead_ws(s.drop_first())
    }
}

/// The number of whitespace characters at the end of `s`.
pub open spec fn trail_ws(s: Seq<char>) -> nat
    decreases s.len(),
{
    if s.len() == 0 || !is_ws(s.last()) {
        0
    } else {
        1 + trail_ws(s.drop_last())
    }
}

/// `s` without leading and trailing whitespace (as `str::trim` gives).
pub open spec fn trim(s: Seq<char>) -> Seq<char> {
    let a = lead_ws(s);
    if a == s.len() {
        Seq::empty()
    } else {
        s.subrange(a as int, s.len() - trail_ws(s))
    }
}

proof fn lemma_lead_ws_le(s: Seq<char>)
    ensures
        lead_ws(s) <= s.len(),
        lead_ws(s) < s.len() ==> !is_ws(s[lead_ws(s) as int]),
        forall|j: int| 0 <= j < lead_ws(s) ==> is_ws(#[trigger] s[j]),
    decreases s.len(),
{
    if s.len() > 0 && is_ws(s[0]) {
        lemma_lead_ws_le(s.drop_first());
        assert forall|j: int| 0 <= j < lead_ws(s) implies is_ws(#[trigger] s[j]) by {
            if j > 0 {
                assert(s[j] == s.drop_first()[j - 1]);
            }
        }
    }
}

proof fn lemma_trail_ws_le(s: Seq<char>)
    ensures
        trail_ws(s) <= s.len(),
        trail_ws(s) < s.len() ==> !is_ws(s[s.len() - 1 - trail_ws(s)]),
        forall|j: int| s.len() - trail_ws(s) <= j < s.len() ==> is_ws(#[trigger] s[j]),
    decreases s.len(),
{
    if s.len() > 0 && is_ws(s.last()) {
        lemma_trail_ws_le(s.drop_last());
        assert forall|j: int| s.len() - trail_ws(s) <= j < s.len() implies is_ws(#[trigger] s[j]) by {
            if j < s.len() - 1 {
                assert(s[j] == s.drop_last()[j]);
            }
        }
    }
}

/// The start and end of `s` once the whitespace around it is left out.
pub fn trim_bounds(s: &Vec<char>) -> (res: (usize, usize))
    ensures
        res.0 <= res.1 <= s@.len(),
        s@.subrange(res.0 as int, res.1 as int) == trim(s@),
{
    proof {
        lemma_lead_ws_le(s@);
        lemma_trail_ws_le(s@);
    }
    let n = s.len();
    let mut a: usize = 0;
    while a < n && is_whitespace(s[a])
        invariant
            a <= n,
            n == s@.len(),
            forall|j: int| 0 <= j < a ==> is_ws(#[trigger] s@[j]),
            a <= lead_ws(s@),
        decreases n - a,
    {
        proof {
            lemma_lead_ws_le(s@);
        }
        a = a + 1;
    }
    assert(a == lead_ws(s@)) by {
        lemma_lead_ws_le(s@);
        if a < lead_ws(s@) {
            assert(is_ws(s@[a as int]));
        }
    }
    if a == n {
        assert(s@.subrange(a as int, a as int) =~= trim(s@));
        return (a, a);
    }
    let mut b: usize = n;
    while b > a && is_whitespace(s[b - 1])
        invariant
            a < n,
            a <= b <= n,
            n == s@.len(),
            a == lead_ws(s@),
            n - b <= trail_ws(s@),
        decreases b,
    {
        proof {
            lemma_trail_ws_le(s@);
        }
        b = b - 1;
    }
    assert(b == n - trail_ws(s@)) by {
        lemma_trail_ws_le(s@);
        lemma_lead_ws_le(s@);
        if n - b < trail_ws(s@) {
            if b > a {
                assert(is_ws(s@[b - 1]));
            } else {
                // all of s from a on would be whitespace, against s[a] not being one
                assert(is_ws(s@[a as int]));
            }
        }
    }
    (a, b)
}

/// The sign and digits of a decimal integer literal (as `i32::from_str` reads one):
/// an optional `+` or `-`, then one or more ASCII digits.
pub open spec fn is_digit(c: char) -> bool {
    '0' <= c && c <= '9'
}

pub open spec fn all_digits(s: Seq<char>) -> bool {
    forall|i: int| 0 <= i < s.len() ==> is_digit(#[trigger] s[i])
}

/// The value of a string of decimal digits.
pub open spec fn digits_value(s: Seq<char>) -> int
    decreases s.len(),
{
    if s.len() == 0 {
        0
    } else {
        digits_value(s.drop_last()) * 10 + (s.last() as int - '0' as int)
    }
}

/// What `i32::from_str` gives for the text: the value, or `None` when it is not a
/// decimal integer literal in the range of `i32`.
pub open spec fn parse_i32(s: Seq<char>) -> Option<i32> {
    let signed = s.len() > 0 && (s[0] == '+' || s[0] == '-');
    let ds = if signed { s.drop_first() } else { s };
    if ds.len() == 0 || !all_digits(ds) {
        None
    } else {
        let v = if signed && s[0] == '-' { -digits_value(ds) } else { digits_value(ds) };
        if i32::MIN <= v <= i32::MAX {
            Some(v as i32)
        } else {
            None
        }
    }
}

/// Reads a decimal integer literal as `i32::from_str` does.
pub fn parse_i32_text(s: &Vec<char>) -> (res: Option<i32>)
    ensures
        res == parse_i32(s@),
{
    let n = s.len();
    let mut start: usize = 0;
    let mut neg = false;
    if n > 0 && (s[0] == '+' || s[0] == '-') {
        neg = s[0] == '-';
        start = 1;
    }
    let ghost ds = s@.subrange(start as int, n as int);
    assert(start == 1 ==> ds =~= s@.drop_first());
    assert(start == 0 ==> ds =~= s@);
    if start == n {
        return None;
    }
    // accumulate the magnitude in i64, giving up once it leaves the range of i32
    let mut v: i64 = 0;
    let mut i: usize = start;
    while i < n
        invariant
            start <= i <= n,
            n == s@.len(),
            ds == s@.subrange(start as int, n as int),
            start == 0 ==> ds == s@ && !neg && !(s@[0] == '+' || s@[0] == '-'),
            start == 1 ==> ds == s@.drop_first() && (s@[0] == '+' || s@[0] == '-') && neg == (s@[0] == '-'),
            start < n,
            start <= 1,
            all_digits(s@.subrange(start as int, i as int)),
            v as int == digits_value(s@.subrange(start as int, i as int)),
            0 <= v <= 0x8000_0000,
        decreases n - i,
    {
        let c = s[i];
        if !('0' <= c && c <= '9') {
            assert(!all_digits(ds)) by {
                assert(ds[i - start] == c);
            }
            proof { lemma_parse_i32_unsigned_part(s@, ds, start as int); }
            return None;
        }
        let d = (c as u32 - '0' as u32) as i64;
        let ghost next = s@.subrange(start as int, i + 1);
        assert(next.drop_last() =~= s@.subrange(start as int, i as int));
        assert(all_digits(next)) by {
            assert forall|j: int| 0 <= j < next.len() implies is_digit(#[trigger] next[j]) by {
                if j < next.len() - 1 {
                    assert(next[j] == s@.subrange(start as int, i as int)[j]);
                }
            }
        }
        let nv = v * 10 + d;
        assert(digits_value(next) == nv);
        if nv > 0x8000_0000 {
            // every further digit keeps the value at least this large
            proof {
                assert(ds.subrange(0, i + 1 - start) =~= next);
                lemma_digits_grow(ds, i + 1 - start, 0x8000_0000);
                lemma_parse_i32_unsigned_part(s@, ds, start as int);
            }
            return None;
        }
        v = nv;
        i = i + 1;
    }
    assert(s@.subrange(start as int, n as int) =~= ds);
    if neg {
        Some((-v) as i32)
    } else {
        if v > 0x7fff_ffff {
            None
        } else {
            Some(v as i32)
        }
    }
}

proof fn lemma_parse_i32_unsigned_part(s: Seq<char>, ds: Seq<char>, start: int)
    requires
        start == 0 || start == 1,
        start == 0 ==> ds == s && !(s.len() > 0 && (s[0] == '+' || s[0] == '-')),
        start == 1 ==> s.len() > 0 && ds == s.drop_first() && (s[0] == '+' || s[0] == '-'),
        !all_digits(ds) || digits_value(ds) > 0x8000_0000,
    ensures
        parse_i32(s) is None,
{
}

/// Once a prefix of digits is worth more than `bound`, any string of digits that
/// starts with it (or is cut off later) is worth more than `bound` too.
proof fn lemma_digits_grow(s: Seq<char>, k: int, bound: int)
    requires
        0 < k <= s.len(),
        bound >= 0,
        all_digits(s.subrange(0, k)),
        digits_value(s.subrange(0, k)) > bound,
    ensures
        !all_digits(s) || digits_value(s) > bound,
    decreases s.len() - k,
{
    if k < s.len() {
        if all_digits(s.subrange(0, k + 1)) {
            assert(s.subrange(0, k + 1).drop_last() =~= s.subrange(0, k));
            lemma_digits_grow(s, k + 1, bound);
        } else {
            assert(!all_digits(s)) by {
                let j = choose|j: int| 0 <= j < k + 1 && !is_digit(#[trigger] s.subrange(0, k + 1)[j]);
                assert(s[j] == s.subrange(0, k + 1)[j]);
            }
        }
    } else {
        assert(s.subrange(0, k) =~= s);
    }
}

/// What `i64::from_str` gives for the text: the value, or `None` when it is not a
/// decimal integer literal in the range of `i64`.
pub open spec fn parse_i64(s: Seq<char>) -> Option<i64> {
    let signed = s.len() > 0 && (s[0] == '+' || s[0] == '-');
    let ds = if signed { s.drop_first() } else { s };
    if ds.len() == 0 || !all_digits(ds) {
        None
    } else {
        let v = if signed && s[0] == '-' { -digits_value(ds) } else { digits_value(ds) };
        if i64::MIN <= v <= i64::MAX {
            Some(v as i64)
        } else {
            None
        }
    }
}

/// Reads a decimal integer literal as `i64::from_str` does.
pub fn parse_i64_text(s: &Vec<char>) -> (res: Option<i64>)
    ensures
        res == parse_i64(s@),
{
    let n = s.len();
    let mut start: usize = 0;
    let mut neg = false;
    if n > 0 && (s[0] == '+' || s[0] == '-') {
        neg = s[0] == '-';
        start = 1;
    }
    let ghost ds = s@.subrange(start as int, n as int);
    assert(start == 1 ==> ds =~= s@.drop_first());
    assert(start == 0 ==> ds =~= s@);
    if start == n {
        return None;
    }
    // accumulate the magnitude in i128, giving up once it leaves the range of i64
    let mut v: i128 = 0;
    let mut i: usize = start;
    while i < n
        invariant
            start <= i <= n,
            n == s@.len(),
            ds == s@.subrange(start as int, n as int),
            start == 0 ==> ds == s@ && !neg && !(s@[0] == '+' || s@[0] == '-'),
            start == 1 ==> ds == s@.drop_first() && (s@[0] == '+' || s@[0] == '-') && neg == (s@[0] == '-'),
            start < n,
            start <= 1,
            all_digits(s@.subrange(start as int, i as int)),
            v as int == digits_value(s@.subrange(start as int, i as int)),
            0 <= v <= 0x8000_0000_0000_0000,
        decreases n - i,
    {
        let c = s[i];
        if !('0' <= c && c <= '9') {
            assert(!all_digits(ds)) by {
                assert(ds[i - start] == c);
            }
            return None;
        }
        let d = (c as u32 - '0' as u32) as i128;
        let ghost next = s@.subrange(start as int, i + 1);
        assert(next.drop_last() =~= s@.subrange(start as int, i as int));
        assert(all_digits(next)) by {
            assert forall|j: int| 0 <= j < next.len() implies is_digit(#[trigger] next[j]) by {
                if j < next.len() - 1 {
                    assert(next[j] == s@.subrange(start as int, i as int)[j]);
                }
            }
        }
        let nv = v * 10 + d;
        assert(digits_value(next) == nv);
        if nv > 0x8000_0000_0000_0000 {
            // every further digit keeps the value at least this large
            proof {
                assert(ds.subrange(0, i + 1 - start) =~= next);
                lemma_digits_grow(ds, i + 1 - start, 0x8000_0000_0000_0000);
            }
            return None;
        }
        v = nv;
        i = i + 1;
    }
    assert(s@.subrange(start as int, n as int) =~= ds);
    if neg {
        Some((-v) as i64)
    } else {
        if v > 0x7fff_ffff_ffff_ffff {
            None
        } else {
            Some(v as i64)
        }
    }
}

/// What `bool::from_str` gives for the text: `true` for exactly `true`, `false`
/// for exactly `false`, else `None`.
pub open spec fn parse_bool(s: Seq<char>) -> Option<bool> {
    if s == seq!['t', 'r', 'u', 'e'] {
        Some(true)
    } else if s == seq!['f', 'a', 'l', 's', 'e'] {
        Some(false)
    } else {
        None
    }
}

/// Reads a boolean as `bool::from_str` does.
pub fn parse_bool_text(s: &Vec<char>) -> (res: Option<bool>)
    ensures
        res == parse_bool(s@),
{
    if s.len() == 4 && s[0] == 't' && s[1] == 'r' && s[2] == 'u' && s[3] == 'e' {
        assert(s@ =~= seq!['t', 'r', 'u', 'e']);
        Some(true)
    } else if s.len() == 5 && s[0] == 'f' && s[1] == 'a' && s[2] == 'l' && s[3] == 's' && s[4] == 'e' {
        assert(s@ =~= seq!['f', 'a', 'l', 's', 'e']);
        Some(false)
    } else {
        assert(s@ != seq!['t', 'r', 'u', 'e'] && s@ != seq!['f', 'a', 'l', 's', 'e']) by {
            if s@ == seq!['t', 'r', 'u', 'e'] {
                assert(s@[0] == 't' && s@[1] == 'r' && s@[2] == 'u' && s@[3] == 'e');
            }
            if s@ == seq!['f', 'a', 'l', 's', 'e'] {
                assert(s@[0] == 'f' && s@[1] == 'a' && s@[2] == 'l' && s@[3] == 's' && s@[4] == 'e');
            }
        }
        None
    }
}

/// The decimal rendering of an integer, with a `-` for negative ones (as `to_string` gives).
pub open spec fn signed_decimal(v: int) -> Seq<char> {
    if v < 0 {
        seq!['-'] + decimal((-v) as nat)
    } else {
        decimal(v as nat)
    }
}

/// Renders an `i32` in decimal, as `to_string` does.
pub fn i32_to_decimal(v: i32) -> (res: String)
    ensures
        res@ == signed_decimal(v as int),
{
    if v < 0 {
        let mut s = String::new();
        push_char(&mut s, '-');
        let m: u128 = (-(v as i64)) as u128;
        let d = to_decimal(m);
        push_str(&mut s, d.as_str());
        s
    } else {
        to_decimal(v as u128)
    }
}
} // verus!

verus! {

/// The length of the run of ASCII digits in `s` that starts at `i`.
pub open spec fn digit_run(s: Seq<char>, i: int) -> nat
    decreases s.len() - i,
{
    if 0 <= i < s.len() && is_digit(s[i]) {
        1 + digit_run(s, i + 1)
    } else {
        0
    }
}

/// The exponent part of a float literal, from `i` to the end of `s`: nothing,
/// or `e`/`E`, an optional sign and one or more digits.
pub open spec fn exponent_from(s: Seq<char>, i: int) -> bool {
    ||| i == s.len()
    ||| {
        &&& 0 <= i < s.len()
        &&& (s[i] == 'e' || s[i] == 'E')
        &&& {
            let j = if i + 1 < s.len() && (s[i + 1] == '+' || s[i + 1] == '-') { i + 2 } else { i + 1 };
            digit_run(s, j) > 0 && j + digit_run(s, j) == s.len()
        }
    }
}

/// The unsigned number part of a float literal, from `i` to the end of `s`:
/// `Digit+`, `Digit+ '.' Digit*` or `Digit* '.' Digit+`, then the exponent part.
pub open spec fn float_number_from(s: Seq<char>, i: int) -> bool {
    let a = digit_run(s, i);
    let p = i + a;
    if p < s.len() && s[p] == '.' {
        let b = digit_run(s, p + 1);
        a + b > 0 && exponent_from(s, p + 1 + b)
    } else {
        a > 0 && exponent_from(s, p)
    }
}

/// For text that holds a `.`, whether `f64::from_str` accepts it: an optional
/// sign, then a number as above (the words `inf`, `infinity` and `nan`, which
/// that function also takes, hold no `.`).
pub open spec fn is_float_literal(s: Seq<char>) -> bool {
    let i: int = if s.len() > 0 && (s[0] == '+' || s[0] == '-') { 1 } else { 0 };
    float_number_from(s, i)
}

/// The end of the run of ASCII digits that starts at `i`.
fn digit_run_end(s: &Vec<char>, i: usize) -> (res: usize)
    requires
        i <= s@.len(),
    ensures
        res == i + digit_run(s@, i as int),
        res <= s@.len(),
{
    let mut j = i;
    while j < s.len() && '0' <= s[j] && s[j] <= '9'
        invariant
            i <= j <= s@.len(),
            digit_run(s@, i as int) == (j - i) + digit_run(s@, j as int),
        decreases s@.len() - j,
    {
        j = j + 1;
    }
    j
}

/// Whether the text from `i` on is the exponent part of a float literal.
fn exponent_at(s: &Vec<char>, i: usize) -> (res: bool)
    requires
        i <= s@.len(),
    ensures
        res == exponent_from(s@, i as int),
{
    let n = s.len();
    if i == n {
        return true;
    }
    if !(s[i] == 'e' || s[i] == 'E') {
        return false;
    }
    let j = if i + 1 < n && (s[i + 1] == '+' || s[i + 1] == '-') { i + 2 } else { i + 1 };
    let k = digit_run_end(s, j);
    k > j && k == n
}

/// Whether the text holds a float literal as `f64::from_str` reads one (for text
/// with a `.` in it).
pub fn float_literal(s: &Vec<char>) -> (res: bool)
    ensures
        res == is_float_literal(s@),
{
    let n = s.len();
    let i: usize = if n > 0 && (s[0] == '+' || s[0] == '-') { 1 } else { 0 };
    let p = digit_run_end(s, i);
    if p < n && s[p] == '.' {
        let q = digit_run_end(s, p + 1);
        (p - i) + (q - p - 1) > 0 && exponent_at(s, q)
    } else {
        p > i && exponent_at(s, p)
    }
}

} // verus!

verus! {

/// Whether two texts are the same.
pub fn same_text(a: &str, b: &str) -> (res: bool)
    ensures
        res == (a@ == b@),
{
    let xs = chars_of(a);
    let ys = chars_of(b);
    if xs.len() != ys.len() {
        return false;
    }
    let mut i: usize = 0;
    while i < xs.len()
        invariant
            i <= xs@.len(),
            xs@.len() == ys@.len(),
            xs@ == a@,
            ys@ == b@,
            forall|j: int| 0 <= j < i ==> xs@[j] == ys@[j],
        decreases xs@.len() - i,
    {
        if xs[i] != ys[i] {
            assert(a@[i as int] != b@[i as int]);
            return false;
        }
        i = i + 1;
    }
    assert(xs@ =~= ys@);
    true
}

} // verus!

verus! {

/// The ASCII lower-case form of a character.
pub open spec fn ascii_lower(c: char) -> char {
    if 'A' <= c && c <= 'Z' { ((c as u32) + 32) as char } else { c }
}

/// The text is the (lower-case) word, ignoring ASCII case.
pub open spec fn is_word_ignoring_case(s: Seq<char>, w: Seq<char>) -> bool {
    s.len() == w.len() && forall|i: int| 0 <= i < s.len() ==> ascii_lower(#[trigger] s[i]) == w[i]
}

/// Whether `f64::from_str` accepts the text: an optional sign, then `inf`,
/// `infinity` or `nan` (in any case), or a number with an optional exponent.
pub open spec fn is_f64_text(s: Seq<char>) -> bool {
    let i: int = if s.len() > 0 && (s[0] == '+' || s[0] == '-') { 1 } else { 0 };
    let body = s.subrange(i, s.len() as int);
    ||| is_word_ignoring_case(body, seq!['i', 'n', 'f'])
    ||| is_word_ignoring_case(body, seq!['i', 'n', 'f', 'i', 'n', 'i', 't', 'y'])
    ||| is_word_ignoring_case(body, seq!['n', 'a', 'n'])
    ||| float_number_from(s, i)
}

/// Whether the character is `w` once made lower case.
fn lower_is(c: char, w: char) -> (res: bool)
    ensures
        res == (ascii_lower(c) == w),
{
    if 'A' <= c && c <= 'Z' {
        let u = (c as u32) + 32;
        proof {
            let lc = ((c as u32) + 32) as char;
            assert(lc as u32 == u) by {
                assert(0x61 <= u <= 0x7a);
                vstd::utf8::char_u32_cast(lc, u);
            }
        }
        u == w as u32
    } else {
        c == w
    }
}

/// Whether the characters from `i` on are the word, ignoring ASCII case.
fn word_at_ignoring_case(s: &Vec<char>, i: usize, w: &Vec<char>) -> (res: bool)
    requires
        i <= s@.len(),
    ensures
        res == is_word_ignoring_case(s@.subrange(i as int, s@.len() as int), w@),
{
    let ghost body = s@.subrange(i as int, s@.len() as int);
    if s.len() - i != w.len() {
        return false;
    }
    let mut k: usize = 0;
    while k < w.len()
        invariant
            k <= w@.len(),
            i + w@.len() == s@.len(),
            s@.len() <= usize::MAX,
            body == s@.subrange(i as int, s@.len() as int),
            forall|j: int| 0 <= j < k ==> ascii_lower(#[trigger] body[j]) == w@[j],
        decreases w@.len() - k,
    {
        if !lower_is(s[i + k], w[k]) {
            assert(ascii_lower(body[k as int]) != w@[k as int]);
            return false;
        }
        k = k + 1;
    }
    true
}

/// Whether `f64::from_str` accepts the text.
pub fn f64_text(s: &Vec<char>) -> (res: bool)
    ensures
        res == is_f64_text(s@),
{
    let n = s.len();
    let i: usize = if n > 0 && (s[0] == '+' || s[0] == '-') { 1 } else { 0 };
    let inf = vec!['i', 'n', 'f'];
    let infinity = vec!['i', 'n', 'f', 'i', 'n', 'i', 't', 'y'];
    let nan = vec!['n', 'a', 'n'];
    assert(inf@ =~= seq!['i', 'n', 'f']);
    assert(infinity@ =~= seq!['i', 'n', 'f', 'i', 'n', 'i', 't', 'y']);
    assert(nan@ =~= seq!['n', 'a', 'n']);
    if word_at_ignoring_case(s, i, &inf) || word_at_ignoring_case(s, i, &infinity) || word_at_ignoring_case(s, i, &nan) {
        return true;
    }
    let p = digit_run_end(s, i);
    if p < n && s[p] == '.' {
        let q = digit_run_end(s, p + 1);
        (p - i) + (q - p - 1) > 0 && exponent_at(s, q)
    } else {
        p > i && exponent_at(s, p)
    }
}

} // verus!

verus! {

/// The length in bytes of the UTF-8 encoding of a text (what `str::len` gives).
pub open spec fn utf8_len(s: Seq<char>) -> nat {
    vstd::utf8::encode_utf8(s).len()
}

/// The length in bytes of the UTF-8 encoding of a character.
pub open spec fn char_utf8_len(c: char) -> nat {
    vstd::utf8::encode_scalar(c as u32).len()
}

/// How many of the first characters of `s` take up exactly the first `n`
/// bytes of its UTF-8 encoding; `None` where byte `n` falls inside a character
/// or past the end.
pub open spec fn chars_in_bytes(s: Seq<char>, n: int) -> Option<int>
    decreases s.len(),
{
    if n == 0 {
        Some(0)
    } else if n < 0 || s.len() == 0 {
        None
    } else {
        match chars_in_bytes(s.drop_first(), n - char_utf8_len(s[0])) {
            Some(k) => Some(k + 1),
            None => None,
        }
    }
}

pub proof fn lemma_char_utf8_len(c: char)
    ensures
        1 <= char_utf8_len(c) <= 4,
        (c as u32) < 0x80 ==> char_utf8_len(c) == 1,
{
}

pub proof fn lemma_utf8_len_nonempty(s: Seq<char>)
    requires
        s.len() > 0,
    ensures
        utf8_len(s) == char_utf8_len(s[0]) + utf8_len(s.drop_first()),
{
}

/// The encoding of two texts one after the other is their encodings one after
/// the other.
pub proof fn lemma_utf8_len_append(a: Seq<char>, b: Seq<char>)
    ensures
        utf8_len(a + b) == utf8_len(a) + utf8_len(b),
    decreases a.len(),
{
    if a.len() == 0 {
        assert(a + b =~= b);
    } else {
        lemma_utf8_len_append(a.drop_first(), b);
        assert((a + b).drop_first() =~= a.drop_first() + b);
        assert((a + b)[0] == a[0]);
        lemma_utf8_len_nonempty(a + b);
        lemma_utf8_len_nonempty(a);
    }
}

/// Spaces take one byte each.
pub proof fn lemma_utf8_len_spaces(n: nat)
    ensures
        utf8_len(repeat_char(' ', n)) == n,
    decreases n,
{
    if n > 0 {
        lemma_utf8_len_spaces((n - 1) as nat);
        assert(repeat_char(' ', n).drop_first() =~= repeat_char(' ', (n - 1) as nat));
        lemma_utf8_len_nonempty(repeat_char(' ', n));
        assert((' ' as u32) == 32);
        lemma_char_utf8_len(' ');
    }
}

/// A cut at a character boundary gives a prefix whose encoding has exactly
/// that many bytes.
pub proof fn lemma_chars_in_bytes(s: Seq<char>, n: int)
    requires
        chars_in_bytes(s, n) is Some,
    ensures
        0 <= chars_in_bytes(s, n)->Some_0 <= s.len(),
        utf8_len(s.take(chars_in_bytes(s, n)->Some_0)) == n,
        n <= utf8_len(s),
    decreases s.len(),
{
    if n == 0 {
        assert(s.take(0) =~= Seq::<char>::empty());
    } else {
        let w = char_utf8_len(s[0]);
        lemma_chars_in_bytes(s.drop_first(), n - w);
        let k = chars_in_bytes(s.drop_first(), n - w)->Some_0;
        assert(s.take(k + 1).drop_first() =~= s.drop_first().take(k));
        assert(s.take(k + 1)[0] == s[0]);
        lemma_utf8_len_nonempty(s.take(k + 1));
        lemma_utf8_len_nonempty(s);
    }
}

/// The number of bytes of the UTF-8 encoding of a character (as
/// `char::len_utf8` gives).
pub fn char_len_utf8(c: char) -> (res: usize)
    ensures
        res == char_utf8_len(c),
{
    let u = c as u32;
    proof {
        vstd::utf8::char_is_scalar(c);
    }
    if u <= 0x7F {
        1
    } else if u <= 0x7FF {
        2
    } else if u <= 0xFFFF {
        3
    } else {
        4
    }
}

/// How many of the first characters of the text take up exactly its first `n`
/// bytes (see [`chars_in_bytes`]).
pub fn chars_in_first_bytes(s: &str, n: usize) -> (res: Option<usize>)
    ensures
        match res {
            Some(k) => chars_in_bytes(s@, n as int) == Some(k as int),
            None => chars_in_bytes(s@, n as int) is None,
        },
{
    let cs = chars_of(s);
    let mut i: usize = 0;
    let mut r: usize = n;
    assert(cs@.skip(0) =~= cs@);
    while i < cs.len()
        invariant
            i <= cs@.len(),
            cs@ == s@,
            r <= n,
            chars_in_bytes(s@, n as int) == match chars_in_bytes(cs@.skip(i as int), r as int) {
                Some(k) => Some(k + i),
                None => None::<int>,
            },
        decreases cs@.len() - i,
    {
        if r == 0 {
            return Some(i);
        }
        let w = char_len_utf8(cs[i]);
        assert(cs@.skip(i as int).drop_first() =~= cs@.skip(i + 1));
        assert(cs@.skip(i as int)[0] == cs@[i as int]);
        if w > r {
            assert(chars_in_bytes(cs@.skip(i + 1), r - w) is None);
            return None;
        }
        r = r - w;
        i = i + 1;
    }
    if r == 0 {
        Some(i)
    } else {
        None
    }
}

} // verus!
