//! The feed parser: raw feed content to an ordered sequence of entries.
//!
//! The feed is a JSON array of objects, each with a string field `text`, a
//! decimal field `start_time` (seconds), an optional decimal field
//! `end_time` (seconds, may also be `null`), and an integer field
//! `timestamp`.  Parsing is one-shot over the whole content and pure; any
//! malformed content yields a [`ParseError`] and nothing else, so a caller
//! can treat it as "no update this cycle".
//!
//! The accepted grammar is the JSON of the feed: numbers with optional
//! fraction and exponent, strings with the standard escapes including
//! surrogate pairs (a lone surrogate is malformed), and objects in which
//! each of the four entry fields appears at most once while unknown members
//! are skipped, whatever well-formed value they hold.  Seconds are converted
//! to signed integer milliseconds, truncated toward zero.  Machine limits of
//! that representation are parse errors: a value whose significant
//! millisecond digits run past eighteen (`timestamp`: eighteen digits, no
//! fraction, no exponent), or an exponent of more than eighteen significant
//! digits that would grow a non-zero value.
//!
//! The spec functions below are the grammar's meaning; each returns the
//! position after what it consumed together with the value denoted, or
//! `None` for malformed input.

use crate::entry::{entry_views, SubtitleEntry, SubtitleEntryView};
use crate::text::{char_from_scalar, chars_of_str, string_from_chars};
use vstd::prelude::*;

verus! {

/// Content read but not well-formed; the transcript must be kept as it was.
#[derive(Debug, Clone, Copy, PartialEq, Eq, Structural)]
pub struct ParseError;

/// JSON insignificant whitespace.
pub open spec fn is_ws(c: char) -> bool {
    c == ' ' || c == '\t' || c == '\n' || c == '\r'
}

/// A decimal digit.
pub open spec fn is_digit(c: char) -> bool {
    48 <= c as u32 && c as u32 <= 57
}

/// The value of a decimal digit.
pub open spec fn digit_val(c: char) -> int
    recommends
        is_digit(c),
{
    c as u32 - 48
}

/// The first position at or after `i` holding no whitespace.
pub open spec fn skip_ws(s: Seq<char>, i: int) -> int
    decreases s.len() - i,
{
    if 0 <= i && i < s.len() && is_ws(s[i]) {
        skip_ws(s, i + 1)
    } else {
        i
    }
}

/// The first position at or after `i` holding no digit.
pub open spec fn digits_end(s: Seq<char>, i: int) -> int
    decreases s.len() - i,
{
    if 0 <= i && i < s.len() && is_digit(s[i]) {
        digits_end(s, i + 1)
    } else {
        i
    }
}

/// The character denoted by a single-character string escape, if any.
pub open spec fn escape_char(c: char) -> Option<char> {
    if c == '"' {
        Some('"')
    } else if c == '\\' {
        Some('\\')
    } else if c == '/' {
        Some('/')
    } else if c == 'b' {
        Some('\u{0008}')
    } else if c == 'f' {
        Some('\u{000C}')
    } else if c == 'n' {
        Some('\n')
    } else if c == 'r' {
        Some('\r')
    } else if c == 't' {
        Some('\t')
    } else {
        None
    }
}

/// The value of a hexadecimal digit, if any.
pub open spec fn hex_val(c: char) -> Option<int> {
    let u = c as u32;
    if 48 <= u && u <= 57 {
        Some(u - 48)
    } else if 97 <= u && u <= 102 {
        Some(u - 87)
    } else if 65 <= u && u <= 70 {
        Some(u - 55)
    } else {
        None
    }
}

/// The rest of a string literal, starting just after the opening quote:
/// the position after the closing quote and the characters denoted.
pub open spec fn parse_string_rest(s: Seq<char>, i: int) -> Option<(int, Seq<char>)>
    decreases s.len() - i,
    when 0 <= i <= s.len()
{
    if i == s.len() {
        None
    } else if s[i] == '"' {
        Some((i + 1, Seq::empty()))
    } else if s[i] == '\\' {
        if i + 1 == s.len() {
            None
        } else if s[i + 1] == 'u' {
            if i + 6 > s.len() {
                None
            } else {
                match (hex_val(s[i + 2]), hex_val(s[i + 3]), hex_val(s[i + 4]), hex_val(s[i + 5])) {
                    (Some(h3), Some(h2), Some(h1), Some(h0)) => {
                        let v = h3 * 4096 + h2 * 256 + h1 * 16 + h0;
                        if 0xDC00 <= v && v < 0xE000 {
                            None
                        } else if 0xD800 <= v && v < 0xDC00 {
                            // A high surrogate: only valid as the first half
                            // of a pair with a low surrogate escape.
                            if i + 12 > s.len() || s[i + 6] != '\\' || s[i + 7] != 'u' {
                                None
                            } else {
                                match (
                                    hex_val(s[i + 8]),
                                    hex_val(s[i + 9]),
                                    hex_val(s[i + 10]),
                                    hex_val(s[i + 11]),
                                ) {
                                    (Some(g3), Some(g2), Some(g1), Some(g0)) => {
                                        let w = g3 * 4096 + g2 * 256 + g1 * 16 + g0;
                                        if !(0xDC00 <= w && w < 0xE000) {
                                            None
                                        } else {
                                            let u = 0x10000 + (v - 0xD800) * 0x400 + (w - 0xDC00);
                                            match parse_string_rest(s, i + 12) {
                                                Some((j, rest)) => Some(
                                                    (j, seq![(u as u32) as char] + rest),
                                                ),
                                                None => None,
                                            }
                                        }
                                    },
                                    _ => None,
                                }
                            }
                        } else {
                            match parse_string_rest(s, i + 6) {
                                Some((j, rest)) => Some((j, seq![(v as u32) as char] + rest)),
                                None => None,
                            }
                        }
                    },
                    _ => None,
                }
            }
        } else {
            match escape_char(s[i + 1]) {
                Some(c) => match parse_string_rest(s, i + 2) {
                    Some((j, rest)) => Some((j, seq![c] + rest)),
                    None => None,
                },
                None => None,
            }
        }
    } else if (s[i] as u32) < 32 {
        None
    } else {
        match parse_string_rest(s, i + 1) {
            Some((j, rest)) => Some((j, seq![s[i]] + rest)),
            None => None,
        }
    }
}

/// A number token: where it ends, its sign, and its digit runs.
pub ghost struct NumTok {
    pub end: int,
    pub neg: bool,
    pub int_digits: Seq<char>,
    pub frac_digits: Seq<char>,
    pub exp_neg: bool,
    pub exp_digits: Seq<char>,
}

/// The exponent part of a number continuing at `i`: its end, its sign and
/// its digits; `i` itself with no digits when the number has no exponent.
/// Superfluous leading zeros are allowed here, as JSON allows them.
pub open spec fn parse_exponent(s: Seq<char>, i: int) -> Option<(int, bool, Seq<char>)> {
    if 0 <= i && i < s.len() && (s[i] == 'e' || s[i] == 'E') {
        let eneg = i + 1 < s.len() && s[i + 1] == '-';
        let k = if i + 1 < s.len() && (s[i + 1] == '+' || s[i + 1] == '-') {
            i + 2
        } else {
            i + 1
        };
        if !(k < s.len() && is_digit(s[k])) {
            None
        } else {
            Some((digits_end(s, k), eneg, s.subrange(k, digits_end(s, k))))
        }
    } else {
        Some((i, false, Seq::empty()))
    }
}

/// A number starting at `i`: optional minus, an integer part without
/// superfluous leading zeros, an optional fraction, an optional exponent.
pub open spec fn parse_number(s: Seq<char>, i: int) -> Option<NumTok> {
    let neg = 0 <= i && i < s.len() && s[i] == '-';
    let j = if neg {
        i + 1
    } else {
        i
    };
    if !(0 <= j && j < s.len() && is_digit(s[j])) {
        None
    } else {
        let ie = if s[j] == '0' {
            j + 1
        } else {
            digits_end(s, j)
        };
        if ie < s.len() && is_digit(s[ie]) {
            None
        } else {
            let int_digits = s.subrange(j, ie);
            let fe = if ie < s.len() && s[ie] == '.' {
                let fs = ie + 1;
                if !(fs < s.len() && is_digit(s[fs])) {
                    ie
                } else {
                    digits_end(s, fs)
                }
            } else {
                ie
            };
            if ie < s.len() && s[ie] == '.' && fe == ie {
                None
            } else {
                let frac_digits = if fe == ie {
                    Seq::empty()
                } else {
                    s.subrange(ie + 1, fe)
                };
                match parse_exponent(s, fe) {
                    Some((xe, exp_neg, exp_digits)) => Some(
                        NumTok { end: xe, neg, int_digits, frac_digits, exp_neg, exp_digits },
                    ),
                    None => None,
                }
            }
        }
    }
}

/// The value of a digit sequence read as a decimal numeral.
pub open spec fn digits_val(ds: Seq<char>) -> int
    decreases ds.len(),
{
    if ds.len() == 0 {
        0
    } else {
        digits_val(ds.drop_last()) * 10 + digit_val(ds.last())
    }
}

/// Ten to the `k`.
pub open spec fn pow10(k: nat) -> int
    decreases k,
{
    if k == 0 {
        1
    } else {
        10 * pow10((k - 1) as nat)
    }
}

/// `n` zero digits (none when `n` is not positive).
pub open spec fn zeros(n: int) -> Seq<char> {
    Seq::new(
        if n <= 0 {
            0
        } else {
            n as nat
        },
        |k: int| '0',
    )
}

/// `ds` without its leading zero digits.
pub open spec fn strip_zeros(ds: Seq<char>) -> Seq<char>
    decreases ds.len(),
{
    if ds.len() > 0 && ds[0] == '0' {
        strip_zeros(ds.drop_first())
    } else {
        ds
    }
}

/// The signed value of a number token's exponent.
pub open spec fn exp_val(t: NumTok) -> int {
    if t.exp_neg {
        -digits_val(t.exp_digits)
    } else {
        digits_val(t.exp_digits)
    }
}

/// The magnitude of a number of seconds, scaled to milliseconds and
/// truncated toward zero, as a digit numeral: the digits `int.frac` with
/// the decimal point moved right by the exponent plus three, cut at the
/// point.
pub open spec fn millis_digits(t: NumTok) -> Seq<char> {
    let all = t.int_digits + t.frac_digits;
    let point = t.int_digits.len() + exp_val(t) + 3;
    if point <= 0 {
        Seq::empty()
    } else if point >= all.len() {
        all + zeros(point - all.len())
    } else {
        all.take(point)
    }
}

/// The value of a number of seconds as signed integer milliseconds,
/// truncated toward zero.  `None` when the value cannot be safely
/// represented: its significant millisecond digits run past eighteen, or
/// the exponent itself has more than eighteen significant digits while
/// still growing a non-zero value (both machine limits of the 64-bit
/// representation).
pub open spec fn num_millis(t: NumTok) -> Option<int> {
    if strip_zeros(t.exp_digits).len() > 18 {
        if t.exp_neg || digits_val(t.int_digits + t.frac_digits) == 0 {
            Some(0)
        } else {
            None
        }
    } else if strip_zeros(millis_digits(t)).len() > 18 {
        None
    } else {
        let m = digits_val(millis_digits(t));
        Some(
            if t.neg {
                -m
            } else {
                m
            },
        )
    }
}

/// The value of a number as a signed integer; `None` when it has fraction
/// digits or an exponent, or is too long to be safely representable.
pub open spec fn num_int(t: NumTok) -> Option<int> {
    if t.frac_digits.len() != 0 || t.exp_digits.len() != 0 || t.int_digits.len() > 18 {
        None
    } else {
        let v = digits_val(t.int_digits);
        Some(
            if t.neg {
                -v
            } else {
                v
            },
        )
    }
}

/// The fields of an entry object gathered so far.
pub ghost struct PartialEntry {
    pub text: Option<Seq<char>>,
    pub start_time_ms: Option<int>,
    pub end_time_ms: Option<Option<int>>,
    pub timestamp: Option<int>,
}

/// No fields gathered yet.
pub open spec fn empty_partial() -> PartialEntry {
    PartialEntry { text: None, start_time_ms: None, end_time_ms: None, timestamp: None }
}

/// Whether `s` holds the keyword `null` at `i`.
pub open spec fn is_null_at(s: Seq<char>, i: int) -> bool {
    0 <= i && i + 4 <= s.len() && s[i] == 'n' && s[i + 1] == 'u' && s[i + 2] == 'l' && s[i + 3]
        == 'l'
}

/// The end of any well-formed JSON value starting at `i`.  Used to skip
/// the values of object keys the entry does not use: the producer may add
/// fields, and unknown members are ignored rather than rejected.
/// The guards on each recursive position always hold of the positions the
/// grammar produces; they make termination evident.
pub open spec fn skip_value(s: Seq<char>, i: int) -> Option<int>
    decreases s.len() - i, 0int,
    when 0 <= i <= s.len()
{
    if i >= s.len() {
        None
    } else if s[i] == '"' {
        match parse_string_rest(s, i + 1) {
            Some((j, _)) => Some(j),
            None => None,
        }
    } else if s[i] == '{' {
        let j = skip_ws(s, i + 1);
        if j < s.len() && s[j] == '}' {
            Some(j + 1)
        } else if i < j && j <= s.len() {
            match skip_members(s, j) {
                Some(k) => {
                    let m = skip_ws(s, k);
                    if m < s.len() && s[m] == '}' {
                        Some(m + 1)
                    } else {
                        None
                    }
                },
                None => None,
            }
        } else {
            None
        }
    } else if s[i] == '[' {
        let j = skip_ws(s, i + 1);
        if j < s.len() && s[j] == ']' {
            Some(j + 1)
        } else if i < j && j <= s.len() {
            match skip_elements(s, j) {
                Some(k) => {
                    let m = skip_ws(s, k);
                    if m < s.len() && s[m] == ']' {
                        Some(m + 1)
                    } else {
                        None
                    }
                },
                None => None,
            }
        } else {
            None
        }
    } else if s[i] == 't' {
        if i + 4 <= s.len() && s[i + 1] == 'r' && s[i + 2] == 'u' && s[i + 3] == 'e' {
            Some(i + 4)
        } else {
            None
        }
    } else if s[i] == 'f' {
        if i + 5 <= s.len() && s[i + 1] == 'a' && s[i + 2] == 'l' && s[i + 3] == 's' && s[i + 4]
            == 'e' {
            Some(i + 5)
        } else {
            None
        }
    } else if s[i] == 'n' {
        if is_null_at(s, i) {
            Some(i + 4)
        } else {
            None
        }
    } else {
        match parse_number(s, i) {
            Some(t) => Some(t.end),
            None => None,
        }
    }
}

/// The members of an object being skipped, starting at the first key's
/// opening quote: the position after the last member's value.
pub open spec fn skip_members(s: Seq<char>, i: int) -> Option<int>
    decreases s.len() - i, 1int,
    when 0 <= i <= s.len()
{
    if !(i < s.len() && s[i] == '"') {
        None
    } else {
        match parse_string_rest(s, i + 1) {
            Some((j, _)) => {
                let c = skip_ws(s, j);
                if !(0 <= c && c < s.len() && s[c] == ':') {
                    None
                } else {
                    let v = skip_ws(s, c + 1);
                    if !(i < v && v <= s.len()) {
                        None
                    } else {
                        match skip_value(s, v) {
                            Some(w) => {
                                let t = skip_ws(s, w);
                                if t < s.len() && s[t] == ',' {
                                    let n = skip_ws(s, t + 1);
                                    if i < n && n <= s.len() {
                                        skip_members(s, n)
                                    } else {
                                        None
                                    }
                                } else {
                                    Some(w)
                                }
                            },
                            None => None,
                        }
                    }
                }
            },
            None => None,
        }
    }
}

/// The elements of an array being skipped, the first starting at `i`: the
/// position after the last element.
pub open spec fn skip_elements(s: Seq<char>, i: int) -> Option<int>
    decreases s.len() - i, 1int,
    when 0 <= i <= s.len()
{
    match skip_value(s, i) {
        Some(j) => {
            let k = skip_ws(s, j);
            if k < s.len() && s[k] == ',' {
                let n = skip_ws(s, k + 1);
                if i < n && n <= s.len() {
                    skip_elements(s, n)
                } else {
                    None
                }
            } else {
                Some(j)
            }
        },
        None => None,
    }
}

/// One member's value starting at `i`, keyed by `key`, added to `acc`.
/// A repeated key or a value of the wrong shape is malformed; a key other
/// than the four entry fields is skipped together with its value.
pub open spec fn parse_member_value(s: Seq<char>, i: int, key: Seq<char>, acc: PartialEntry) -> Option<
    (int, PartialEntry),
> {
    if key == "text"@ {
        if acc.text is Some {
            None
        } else if 0 <= i && i < s.len() && s[i] == '"' {
            match parse_string_rest(s, i + 1) {
                Some((j, txt)) => Some((j, PartialEntry { text: Some(txt), ..acc })),
                None => None,
            }
        } else {
            None
        }
    } else if key == "start_time"@ {
        if acc.start_time_ms is Some {
            None
        } else {
            match parse_number(s, i) {
                Some(t) => match num_millis(t) {
                    Some(v) => Some((t.end, PartialEntry { start_time_ms: Some(v), ..acc })),
                    None => None,
                },
                None => None,
            }
        }
    } else if key == "end_time"@ {
        if acc.end_time_ms is Some {
            None
        } else if is_null_at(s, i) {
            Some((i + 4, PartialEntry { end_time_ms: Some(None), ..acc }))
        } else {
            match parse_number(s, i) {
                Some(t) => match num_millis(t) {
                    Some(v) => Some((t.end, PartialEntry { end_time_ms: Some(Some(v)), ..acc })),
                    None => None,
                },
                None => None,
            }
        }
    } else if key == "timestamp"@ {
        if acc.timestamp is Some {
            None
        } else {
            match parse_number(s, i) {
                Some(t) => match num_int(t) {
                    Some(v) => Some((t.end, PartialEntry { timestamp: Some(v), ..acc })),
                    None => None,
                },
                None => None,
            }
        }
    } else {
        match skip_value(s, i) {
            Some(j) => Some((j, acc)),
            None => None,
        }
    }
}

/// The members of an entry object, starting at the first key's opening
/// quote: the position after the last member's value, and all fields
/// gathered.
pub open spec fn parse_members(s: Seq<char>, i: int, acc: PartialEntry) -> Option<
    (int, PartialEntry),
>
    decreases s.len() - i,
    when 0 <= i <= s.len()
{
    if !(i < s.len() && s[i] == '"') {
        None
    } else {
        match parse_string_rest(s, i + 1) {
            Some((j, key)) => {
                let c = skip_ws(s, j);
                if !(c < s.len() && s[c] == ':') {
                    None
                } else {
                    let v = skip_ws(s, c + 1);
                    match parse_member_value(s, v, key, acc) {
                        Some((w, acc2)) => {
                            let t = skip_ws(s, w);
                            if t < s.len() && s[t] == ',' {
                                let n = skip_ws(s, t + 1);
                                proof {
                                    lemma_parse_string_rest_bounds(s, i + 1);
                                    lemma_skip_ws_bounds(s, j);
                                    lemma_skip_ws_bounds(s, c + 1);
                                    lemma_parse_member_value_bounds(s, v, key, acc);
                                    lemma_skip_ws_bounds(s, w);
                                    lemma_skip_ws_bounds(s, t + 1);
                                }
                                parse_members(s, n, acc2)
                            } else {
                                Some((w, acc2))
                            }
                        },
                        None => None,
                    }
                }
            },
            None => None,
        }
    }
}

/// One entry object starting at `i`: the position after its closing brace
/// and the entry denoted.  The fields `text`, `start_time` and `timestamp`
/// are required; `end_time` is optional.
pub open spec fn parse_object(s: Seq<char>, i: int) -> Option<(int, SubtitleEntryView)> {
    if !(0 <= i && i < s.len() && s[i] == '{') {
        None
    } else {
        let j = skip_ws(s, i + 1);
        match parse_members(s, j, empty_partial()) {
            Some((k, p)) => {
                let m = skip_ws(s, k);
                if !(m < s.len() && s[m] == '}') {
                    None
                } else {
                    match (p.text, p.start_time_ms, p.timestamp) {
                        (Some(txt), Some(st), Some(ts)) => Some(
                            (
                                m + 1,
                                SubtitleEntryView {
                                    text: txt,
                                    start_time_ms: st,
                                    end_time_ms: match p.end_time_ms {
                                        Some(e) => e,
                                        None => None,
                                    },
                                    timestamp: ts,
                                },
                            ),
                        ),
                        _ => None,
                    }
                }
            },
            None => None,
        }
    }
}

/// One or more comma-separated entry objects, the first starting at `i`:
/// the position after the last object and the entries in order.
pub open spec fn parse_elements(s: Seq<char>, i: int) -> Option<(int, Seq<SubtitleEntryView>)>
    decreases s.len() - i,
    when 0 <= i <= s.len()
{
    match parse_object(s, i) {
        Some((j, e)) => {
            let k = skip_ws(s, j);
            if k < s.len() && s[k] == ',' {
                let n = skip_ws(s, k + 1);
                proof {
                    lemma_parse_object_bounds(s, i);
                    lemma_skip_ws_bounds(s, j);
                    lemma_skip_ws_bounds(s, k + 1);
                }
                match parse_elements(s, n) {
                    Some((j2, rest)) => Some((j2, seq![e] + rest)),
                    None => None,
                }
            } else {
                Some((j, seq![e]))
            }
        },
        None => None,
    }
}

/// A whole feed: whitespace, an array of entry objects, whitespace, end of
/// input.  `None` exactly for malformed content.
pub open spec fn parse_feed(s: Seq<char>) -> Option<Seq<SubtitleEntryView>> {
    let i0 = skip_ws(s, 0);
    if !(i0 < s.len() && s[i0] == '[') {
        None
    } else {
        let i1 = skip_ws(s, i0 + 1);
        if i1 < s.len() && s[i1] == ']' {
            if skip_ws(s, i1 + 1) == s.len() {
                Some(Seq::empty())
            } else {
                None
            }
        } else {
            match parse_elements(s, i1) {
                Some((j, es)) => {
                    let k = skip_ws(s, j);
                    if k < s.len() && s[k] == ']' {
                        if skip_ws(s, k + 1) == s.len() {
                            Some(es)
                        } else {
                            None
                        }
                    } else {
                        None
                    }
                },
                None => None,
            }
        }
    }
}

pub proof fn lemma_pow10_pos(k: nat)
    ensures
        pow10(k) >= 1,
    decreases k,
{
    if k > 0 {
        lemma_pow10_pos((k - 1) as nat);
    }
}

pub proof fn lemma_pow10_mono(a: nat, b: nat)
    requires
        a <= b,
    ensures
        pow10(a) <= pow10(b),
    decreases b,
{
    if a < b {
        lemma_pow10_mono(a, (b - 1) as nat);
        lemma_pow10_pos((b - 1) as nat);
    }
}

proof fn lemma_pow10_18()
    ensures
        pow10(18) == 1000000000000000000,
{
    reveal_with_fuel(pow10, 20);
}

proof fn lemma_digits_val_append_zeros(ds: Seq<char>, e: int)
    requires
        e >= 0,
    ensures
        digits_val(ds + zeros(e)) == digits_val(ds) * pow10(e as nat),
    decreases e,
{
    if e == 0 {
        assert(ds + zeros(0) =~= ds);
    } else {
        lemma_digits_val_append_zeros(ds, e - 1);
        let w = ds + zeros(e);
        assert(w.drop_last() =~= ds + zeros(e - 1));
        assert(w.last() == '0');
        assert(digit_val('0') == 0);
        assert(pow10(e as nat) == 10 * pow10((e - 1) as nat));
        let d = digits_val(ds);
        let p = pow10((e - 1) as nat);
        assert((d * p) * 10 == d * (10 * p)) by (nonlinear_arith);
    }
}

proof fn lemma_digits_val_drop_first_zero(ds: Seq<char>)
    requires
        ds.len() > 0,
        ds[0] == '0',
    ensures
        digits_val(ds) == digits_val(ds.drop_first()),
    decreases ds.len(),
{
    if ds.len() == 1 {
        assert(ds.drop_first() =~= Seq::<char>::empty());
        assert(ds.drop_last() =~= Seq::<char>::empty());
        assert(digit_val('0') == 0);
    } else {
        lemma_digits_val_drop_first_zero(ds.drop_last());
        assert(ds.drop_last().drop_first() =~= ds.drop_first().drop_last());
        assert(ds.drop_first().last() == ds.last());
    }
}

proof fn lemma_digits_val_skip_zeros(ds: Seq<char>, k: int)
    requires
        0 <= k <= ds.len(),
        forall|j: int| 0 <= j < k ==> ds[j] == '0',
    ensures
        digits_val(ds.skip(k)) == digits_val(ds),
    decreases k,
{
    if k == 0 {
        assert(ds.skip(0) =~= ds);
    } else {
        lemma_digits_val_drop_first_zero(ds);
        lemma_digits_val_skip_zeros(ds.drop_first(), k - 1);
        assert(ds.drop_first().skip(k - 1) =~= ds.skip(k));
    }
}

proof fn lemma_strip_zeros_skip(ds: Seq<char>, k: int)
    requires
        0 <= k <= ds.len(),
        forall|j: int| 0 <= j < k ==> ds[j] == '0',
        k == ds.len() || ds[k] != '0',
    ensures
        strip_zeros(ds) == ds.skip(k),
    decreases k,
{
    if k == 0 {
        assert(ds.skip(0) =~= ds);
    } else {
        lemma_strip_zeros_skip(ds.drop_first(), k - 1);
        assert(ds.drop_first().skip(k - 1) =~= ds.skip(k));
    }
}

proof fn lemma_digits_val_lower(ds: Seq<char>)
    requires
        ds.len() > 0,
        ds[0] != '0',
        forall|j: int| 0 <= j < ds.len() ==> is_digit(#[trigger] ds[j]),
    ensures
        digits_val(ds) >= pow10((ds.len() - 1) as nat),
        digits_val(ds) >= 1,
    decreases ds.len(),
{
    if ds.len() == 1 {
        assert(is_digit(ds[0]));
        assert('0' as u32 == 48);
        if ds[0] as u32 == 48 {
            vstd::utf8::char_u32_cast(ds[0], 48);
            vstd::utf8::char_u32_cast('0', 48);
            assert(false);
        }
        assert(ds.drop_last() =~= Seq::<char>::empty());
    } else {
        assert(forall|j: int|
            0 <= j < ds.drop_last().len() ==> is_digit(#[trigger] ds.drop_last()[j]));
        assert(ds.drop_last()[0] == ds[0]);
        lemma_digits_val_lower(ds.drop_last());
        assert(is_digit(ds.last()));
        assert(pow10((ds.len() - 1) as nat) == 10 * pow10((ds.len() - 2) as nat));
        let d = digits_val(ds.drop_last());
        let p = pow10((ds.len() - 2) as nat);
        assert(d >= p ==> d * 10 >= p * 10) by (nonlinear_arith);
    }
}

pub proof fn lemma_skip_ws_bounds(s: Seq<char>, i: int)
    requires
        0 <= i <= s.len(),
    ensures
        i <= skip_ws(s, i) <= s.len(),
    decreases s.len() - i,
{
    if i < s.len() && is_ws(s[i]) {
        lemma_skip_ws_bounds(s, i + 1);
    }
}

pub proof fn lemma_digits_end_bounds(s: Seq<char>, i: int)
    requires
        0 <= i <= s.len(),
    ensures
        i <= digits_end(s, i) <= s.len(),
        forall|j: int| i <= j < digits_end(s, i) ==> is_digit(#[trigger] s[j]),
    decreases s.len() - i,
{
    if i < s.len() && is_digit(s[i]) {
        lemma_digits_end_bounds(s, i + 1);
    }
}

pub proof fn lemma_parse_string_rest_bounds(s: Seq<char>, i: int)
    requires
        0 <= i <= s.len(),
    ensures
        match parse_string_rest(s, i) {
            Some((j, _)) => i < j <= s.len(),
            None => true,
        },
    decreases s.len() - i,
{
    if i < s.len() {
        if s[i] == '"' {
        } else if s[i] == '\\' {
            if i + 1 == s.len() {
            } else if s[i + 1] == 'u' {
                if i + 6 <= s.len() {
                    lemma_parse_string_rest_bounds(s, i + 6);
                }
                if i + 12 <= s.len() {
                    lemma_parse_string_rest_bounds(s, i + 12);
                }
            } else {
                lemma_parse_string_rest_bounds(s, i + 2);
            }
        } else {
            lemma_parse_string_rest_bounds(s, i + 1);
        }
    }
}

pub proof fn lemma_parse_number_bounds(s: Seq<char>, i: int)
    requires
        0 <= i <= s.len(),
    ensures
        match parse_number(s, i) {
            Some(t) => i < t.end <= s.len(),
            None => true,
        },
{
    let neg = 0 <= i && i < s.len() && s[i] == '-';
    let j = if neg {
        i + 1
    } else {
        i
    };
    if 0 <= j && j < s.len() && is_digit(s[j]) {
        lemma_digits_end_bounds(s, j);
        let ie = if s[j] == '0' {
            j + 1
        } else {
            digits_end(s, j)
        };
        if ie < s.len() && s[ie] == '.' {
            lemma_digits_end_bounds(s, ie + 1);
        }
        let fe = if ie < s.len() && s[ie] == '.' {
            let fs = ie + 1;
            if !(fs < s.len() && is_digit(s[fs])) {
                ie
            } else {
                digits_end(s, fs)
            }
        } else {
            ie
        };
        if fe < s.len() && (s[fe] == 'e' || s[fe] == 'E') {
            let k = if fe + 1 < s.len() && (s[fe + 1] == '+' || s[fe + 1] == '-') {
                fe + 2
            } else {
                fe + 1
            };
            if k < s.len() && is_digit(s[k]) {
                lemma_digits_end_bounds(s, k);
            }
        }
    }
}

pub proof fn lemma_skip_value_bounds(s: Seq<char>, i: int)
    requires
        0 <= i <= s.len(),
    ensures
        match skip_value(s, i) {
            Some(j) => i < j <= s.len(),
            None => true,
        },
    decreases s.len() - i, 0int,
{
    if i < s.len() {
        if s[i] == '"' {
            lemma_parse_string_rest_bounds(s, i + 1);
        } else if s[i] == '{' {
            let j = skip_ws(s, i + 1);
            lemma_skip_ws_bounds(s, i + 1);
            if !(j < s.len() && s[j] == '}') && i < j && j <= s.len() {
                lemma_skip_members_bounds(s, j);
                match skip_members(s, j) {
                    Some(k) => {
                        lemma_skip_ws_bounds(s, k);
                    },
                    None => {},
                }
            }
        } else if s[i] == '[' {
            let j = skip_ws(s, i + 1);
            lemma_skip_ws_bounds(s, i + 1);
            if !(j < s.len() && s[j] == ']') && i < j && j <= s.len() {
                lemma_skip_elements_bounds(s, j);
                match skip_elements(s, j) {
                    Some(k) => {
                        lemma_skip_ws_bounds(s, k);
                    },
                    None => {},
                }
            }
        } else if s[i] == 't' || s[i] == 'f' || s[i] == 'n' {
        } else {
            lemma_parse_number_bounds(s, i);
        }
    }
}

pub proof fn lemma_skip_members_bounds(s: Seq<char>, i: int)
    requires
        0 <= i <= s.len(),
    ensures
        match skip_members(s, i) {
            Some(j) => i < j <= s.len(),
            None => true,
        },
    decreases s.len() - i, 1int,
{
    if i < s.len() && s[i] == '"' {
        lemma_parse_string_rest_bounds(s, i + 1);
        match parse_string_rest(s, i + 1) {
            Some((j, _)) => {
                lemma_skip_ws_bounds(s, j);
                let c = skip_ws(s, j);
                if c < s.len() && s[c] == ':' {
                    lemma_skip_ws_bounds(s, c + 1);
                    let v = skip_ws(s, c + 1);
                    if i < v && v <= s.len() {
                        lemma_skip_value_bounds(s, v);
                        match skip_value(s, v) {
                            Some(w) => {
                                lemma_skip_ws_bounds(s, w);
                                let t = skip_ws(s, w);
                                if t < s.len() && s[t] == ',' {
                                    lemma_skip_ws_bounds(s, t + 1);
                                    let n = skip_ws(s, t + 1);
                                    if i < n && n <= s.len() {
                                        lemma_skip_members_bounds(s, n);
                                    }
                                }
                            },
                            None => {},
                        }
                    }
                }
            },
            None => {},
        }
    }
}

pub proof fn lemma_skip_elements_bounds(s: Seq<char>, i: int)
    requires
        0 <= i <= s.len(),
    ensures
        match skip_elements(s, i) {
            Some(j) => i < j <= s.len(),
            None => true,
        },
    decreases s.len() - i, 1int,
{
    lemma_skip_value_bounds(s, i);
    match skip_value(s, i) {
        Some(j) => {
            lemma_skip_ws_bounds(s, j);
            let k = skip_ws(s, j);
            if k < s.len() && s[k] == ',' {
                lemma_skip_ws_bounds(s, k + 1);
                let n = skip_ws(s, k + 1);
                if i < n && n <= s.len() {
                    lemma_skip_elements_bounds(s, n);
                }
            }
        },
        None => {},
    }
}

pub proof fn lemma_parse_member_value_bounds(s: Seq<char>, i: int, key: Seq<char>, acc: PartialEntry)
    requires
        0 <= i <= s.len(),
    ensures
        match parse_member_value(s, i, key, acc) {
            Some((j, _)) => i < j <= s.len(),
            None => true,
        },
{
    if key == "text"@ {
        if 0 <= i && i < s.len() && s[i] == '"' {
            lemma_parse_string_rest_bounds(s, i + 1);
        }
    } else if key == "start_time"@ || key == "end_time"@ || key == "timestamp"@ {
        lemma_parse_number_bounds(s, i);
    } else {
        lemma_skip_value_bounds(s, i);
    }
}

pub proof fn lemma_parse_members_bounds(s: Seq<char>, i: int, acc: PartialEntry)
    requires
        0 <= i <= s.len(),
    ensures
        match parse_members(s, i, acc) {
            Some((j, _)) => i < j <= s.len(),
            None => true,
        },
    decreases s.len() - i,
{
    if i < s.len() && s[i] == '"' {
        lemma_parse_string_rest_bounds(s, i + 1);
        match parse_string_rest(s, i + 1) {
            Some((j, key)) => {
                lemma_skip_ws_bounds(s, j);
                let c = skip_ws(s, j);
                if c < s.len() && s[c] == ':' {
                    lemma_skip_ws_bounds(s, c + 1);
                    let v = skip_ws(s, c + 1);
                    lemma_parse_member_value_bounds(s, v, key, acc);
                    match parse_member_value(s, v, key, acc) {
                        Some((w, acc2)) => {
                            lemma_skip_ws_bounds(s, w);
                            let t = skip_ws(s, w);
                            if t < s.len() && s[t] == ',' {
                                lemma_skip_ws_bounds(s, t + 1);
                                let n = skip_ws(s, t + 1);
                                lemma_parse_members_bounds(s, n, acc2);
                            }
                        },
                        None => {},
                    }
                }
            },
            None => {},
        }
    }
}

fn is_ws_x(c: char) -> (r: bool)
    ensures
        r == is_ws(c),
{
    c == ' ' || c == '\t' || c == '\n' || c == '\r'
}

fn is_digit_x(c: char) -> (r: bool)
    ensures
        r == is_digit(c),
{
    let u = c as u32;
    48 <= u && u <= 57
}

fn hex_val_x(c: char) -> (r: Option<u32>)
    ensures
        match r {
            Some(v) => hex_val(c) == Some(v as int) && v < 16,
            None => hex_val(c) is None,
        },
{
    let u = c as u32;
    if 48 <= u && u <= 57 {
        Some(u - 48)
    } else if 97 <= u && u <= 102 {
        Some(u - 87)
    } else if 65 <= u && u <= 70 {
        Some(u - 55)
    } else {
        None
    }
}

fn escape_char_x(c: char) -> (r: Option<char>)
    ensures
        r == escape_char(c),
{
    if c == '"' {
        Some('"')
    } else if c == '\\' {
        Some('\\')
    } else if c == '/' {
        Some('/')
    } else if c == 'b' {
        Some('\u{0008}')
    } else if c == 'f' {
        Some('\u{000C}')
    } else if c == 'n' {
        Some('\n')
    } else if c == 'r' {
        Some('\r')
    } else if c == 't' {
        Some('\t')
    } else {
        None
    }
}

fn skip_ws_x(s: &Vec<char>, i: usize) -> (j: usize)
    requires
        i <= s.len(),
    ensures
        j as int == skip_ws(s@, i as int),
        i <= j <= s.len(),
{
    let mut j = i;
    while j < s.len() && is_ws_x(s[j])
        invariant
            i <= j <= s.len(),
            skip_ws(s@, i as int) == skip_ws(s@, j as int),
        decreases s.len() - j,
    {
        j += 1;
    }
    j
}

fn digits_end_x(s: &Vec<char>, i: usize) -> (j: usize)
    requires
        i <= s.len(),
    ensures
        j as int == digits_end(s@, i as int),
        i <= j <= s.len(),
{
    let mut j = i;
    while j < s.len() && is_digit_x(s[j])
        invariant
            i <= j <= s.len(),
            digits_end(s@, i as int) == digits_end(s@, j as int),
        decreases s.len() - j,
    {
        j += 1;
    }
    j
}

/// The value of the digit run `s[from..to]`, read as a decimal numeral.
fn digits_val_x(s: &Vec<char>, from: usize, to: usize) -> (v: i64)
    requires
        from <= to <= s.len(),
        to - from <= 18,
        forall|j: int| from <= j < to ==> is_digit(#[trigger] s@[j]),
    ensures
        v as int == digits_val(s@.subrange(from as int, to as int)),
        0 <= v,
        (v as int) < pow10((to - from) as nat),
{
    proof {
        lemma_pow10_18();
        assert(s@.subrange(from as int, from as int) =~= Seq::<char>::empty());
    }
    let mut v: i64 = 0;
    let mut k = from;
    while k < to
        invariant
            from <= k <= to <= s.len(),
            to - from <= 18,
            forall|j: int| from <= j < to ==> is_digit(#[trigger] s@[j]),
            v as int == digits_val(s@.subrange(from as int, k as int)),
            0 <= v,
            (v as int) < pow10((k - from) as nat),
            pow10(18) == 1000000000000000000,
        decreases to - k,
    {
        proof {
            lemma_pow10_mono((k - from) as nat, 17);
            lemma_pow10_mono(17, 18);
            assert(pow10(((k - from) + 1) as nat) == 10 * pow10((k - from) as nat));
        }
        let c = s[k];
        let d = (c as u32 - 48) as i64;
        v = v * 10 + d;
        k += 1;
        proof {
            let sub = s@.subrange(from as int, k as int);
            assert(sub.drop_last() =~= s@.subrange(from as int, k as int - 1));
            assert(sub.last() == s@[k as int - 1]);
        }
    }
    v
}

/// The rest of a string literal, starting just after the opening quote.
fn parse_string_x(s: &Vec<char>, i: usize) -> (r: Option<(usize, Vec<char>)>)
    requires
        i <= s.len(),
    ensures
        match r {
            Some(p) => parse_string_rest(s@, i as int) == Some((p.0 as int, p.1@)) && i < p.0
                <= s.len(),
            None => parse_string_rest(s@, i as int) is None,
        },
{
    let mut cur = i;
    let mut acc: Vec<char> = Vec::new();
    proof {
        lemma_parse_string_rest_bounds(s@, i as int);
        if parse_string_rest(s@, i as int) is Some {
            let (j0, rest0) = parse_string_rest(s@, i as int).unwrap();
            assert(Seq::<char>::empty() + rest0 =~= rest0);
        }
    }
    loop
        invariant
            i <= cur <= s.len(),
            match parse_string_rest(s@, cur as int) {
                Some(q) => parse_string_rest(s@, i as int) == Some((q.0, acc@ + q.1)) && cur < q.0
                    <= s.len(),
                None => parse_string_rest(s@, i as int) is None,
            },
        decreases s.len() - cur,
    {
        proof {
            lemma_parse_string_rest_bounds(s@, cur as int);
        }
        if cur == s.len() {
            return None;
        }
        let c = s[cur];
        if c == '"' {
            proof {
                assert(acc@ + Seq::<char>::empty() =~= acc@);
            }
            return Some((cur + 1, acc));
        }
        if c == '\\' {
            if s.len() - cur < 2 {
                return None;
            }
            let e = s[cur + 1];
            if e == 'u' {
                if s.len() - cur < 6 {
                    return None;
                }
                let h3 = match hex_val_x(s[cur + 2]) {
                    Some(h) => h,
                    None => {
                        return None;
                    },
                };
                let h2 = match hex_val_x(s[cur + 3]) {
                    Some(h) => h,
                    None => {
                        return None;
                    },
                };
                let h1 = match hex_val_x(s[cur + 4]) {
                    Some(h) => h,
                    None => {
                        return None;
                    },
                };
                let h0 = match hex_val_x(s[cur + 5]) {
                    Some(h) => h,
                    None => {
                        return None;
                    },
                };
                let v = h3 * 4096 + h2 * 256 + h1 * 16 + h0;
                if 0xDC00 <= v && v < 0xE000 {
                    return None;
                }
                if 0xD800 <= v && v < 0xDC00 {
                    // A high surrogate: a low surrogate escape must follow.
                    if s.len() - cur < 12 {
                        return None;
                    }
                    if !(s[cur + 6] == '\\' && s[cur + 7] == 'u') {
                        return None;
                    }
                    let g3 = match hex_val_x(s[cur + 8]) {
                        Some(h) => h,
                        None => {
                            return None;
                        },
                    };
                    let g2 = match hex_val_x(s[cur + 9]) {
                        Some(h) => h,
                        None => {
                            return None;
                        },
                    };
                    let g1 = match hex_val_x(s[cur + 10]) {
                        Some(h) => h,
                        None => {
                            return None;
                        },
                    };
                    let g0 = match hex_val_x(s[cur + 11]) {
                        Some(h) => h,
                        None => {
                            return None;
                        },
                    };
                    let w = g3 * 4096 + g2 * 256 + g1 * 16 + g0;
                    if !(0xDC00 <= w && w < 0xE000) {
                        return None;
                    }
                    let u = 0x10000 + (v - 0xD800) * 0x400 + (w - 0xDC00);
                    let ch = char_from_scalar(u);
                    proof {
                        vstd::utf8::char_u32_cast(ch, u);
                        lemma_parse_string_rest_bounds(s@, cur as int + 12);
                        if parse_string_rest(s@, cur as int + 12) is Some {
                            let (j2, rest) = parse_string_rest(s@, cur as int + 12).unwrap();
                            assert((acc@ + seq![ch]) + rest =~= acc@ + (seq![ch] + rest));
                        }
                        assert(acc@.push(ch) =~= acc@ + seq![ch]);
                    }
                    acc.push(ch);
                    cur = cur + 12;
                    continue;
                }
                let ch = char_from_scalar(v);
                proof {
                    vstd::utf8::char_u32_cast(ch, v);
                    lemma_parse_string_rest_bounds(s@, cur as int + 6);
                    if parse_string_rest(s@, cur as int + 6) is Some {
                        let (j2, rest) = parse_string_rest(s@, cur as int + 6).unwrap();
                        assert((acc@ + seq![ch]) + rest =~= acc@ + (seq![ch] + rest));
                    }
                    assert(acc@.push(ch) =~= acc@ + seq![ch]);
                }
                acc.push(ch);
                cur = cur + 6;
            } else {
                let ch = match escape_char_x(e) {
                    Some(ch) => ch,
                    None => {
                        return None;
                    },
                };
                proof {
                    lemma_parse_string_rest_bounds(s@, cur as int + 2);
                    if parse_string_rest(s@, cur as int + 2) is Some {
                        let (j2, rest) = parse_string_rest(s@, cur as int + 2).unwrap();
                        assert((acc@ + seq![ch]) + rest =~= acc@ + (seq![ch] + rest));
                    }
                    assert(acc@.push(ch) =~= acc@ + seq![ch]);
                }
                acc.push(ch);
                cur = cur + 2;
            }
        } else if (c as u32) < 32 {
            return None;
        } else {
            proof {
                lemma_parse_string_rest_bounds(s@, cur as int + 1);
                if parse_string_rest(s@, cur as int + 1) is Some {
                    let (j2, rest) = parse_string_rest(s@, cur as int + 1).unwrap();
                    assert((acc@ + seq![c]) + rest =~= acc@ + (seq![c] + rest));
                }
                assert(acc@.push(c) =~= acc@ + seq![c]);
            }
            acc.push(c);
            cur = cur + 1;
        }
    }
}

/// A number token's place in the input: where it ends, its sign, and the
/// index ranges of its integer, fraction and exponent digit runs.
struct NumSpan {
    end: usize,
    neg: bool,
    int_from: usize,
    int_to: usize,
    frac_from: usize,
    frac_to: usize,
    exp_neg: bool,
    exp_from: usize,
    exp_to: usize,
}

spec fn span_wf(s: Seq<char>, nx: NumSpan) -> bool {
    &&& nx.int_from <= nx.int_to <= s.len()
    &&& nx.frac_from <= nx.frac_to <= s.len()
    &&& nx.exp_from <= nx.exp_to <= s.len()
    &&& nx.int_to - nx.int_from >= 1
    &&& forall|j: int| nx.int_from <= j < nx.int_to ==> is_digit(#[trigger] s[j])
    &&& forall|j: int| nx.frac_from <= j < nx.frac_to ==> is_digit(#[trigger] s[j])
    &&& forall|j: int| nx.exp_from <= j < nx.exp_to ==> is_digit(#[trigger] s[j])
}

spec fn span_tok(s: Seq<char>, nx: NumSpan) -> NumTok {
    NumTok {
        end: nx.end as int,
        neg: nx.neg,
        int_digits: s.subrange(nx.int_from as int, nx.int_to as int),
        frac_digits: s.subrange(nx.frac_from as int, nx.frac_to as int),
        exp_neg: nx.exp_neg,
        exp_digits: s.subrange(nx.exp_from as int, nx.exp_to as int),
    }
}

/// A number token starting at `i`.
fn parse_number_x(s: &Vec<char>, i: usize) -> (r: Option<NumSpan>)
    requires
        i <= s.len(),
    ensures
        match r {
            Some(nx) => span_wf(s@, nx) && parse_number(s@, i as int) == Some(span_tok(s@, nx))
                && i < nx.end <= s.len(),
            None => parse_number(s@, i as int) is None,
        },
{
    let neg = i < s.len() && s[i] == '-';
    let j = if neg {
        i + 1
    } else {
        i
    };
    if !(j < s.len() && is_digit_x(s[j])) {
        return None;
    }
    proof {
        lemma_digits_end_bounds(s@, j as int);
    }
    let ie = if s[j] == '0' {
        j + 1
    } else {
        digits_end_x(s, j)
    };
    if ie < s.len() && is_digit_x(s[ie]) {
        return None;
    }
    let (fs, fe) = if ie < s.len() && s[ie] == '.' {
        let fs = ie + 1;
        if !(fs < s.len() && is_digit_x(s[fs])) {
            return None;
        }
        proof {
            lemma_digits_end_bounds(s@, fs as int);
        }
        (fs, digits_end_x(s, fs))
    } else {
        (ie, ie)
    };
    let (xe, eneg, ef, et) = if fe < s.len() && (s[fe] == 'e' || s[fe] == 'E') {
        let eneg = fe + 1 < s.len() && s[fe + 1] == '-';
        let k = if fe + 1 < s.len() && (s[fe + 1] == '+' || s[fe + 1] == '-') {
            fe + 2
        } else {
            fe + 1
        };
        if !(k < s.len() && is_digit_x(s[k])) {
            return None;
        }
        proof {
            lemma_digits_end_bounds(s@, k as int);
        }
        let de = digits_end_x(s, k);
        (de, eneg, k, de)
    } else {
        (fe, false, fe, fe)
    };
    proof {
        assert(s@.subrange(ie as int, ie as int) =~= Seq::<char>::empty());
        assert(s@.subrange(fe as int, fe as int) =~= Seq::<char>::empty());
    }
    Some(
        NumSpan {
            end: xe,
            neg,
            int_from: j,
            int_to: ie,
            frac_from: fs,
            frac_to: fe,
            exp_neg: eneg,
            exp_from: ef,
            exp_to: et,
        },
    )
}

/// The value of a number of seconds as signed integer milliseconds.
fn num_millis_x(s: &Vec<char>, nx: &NumSpan) -> (r: Option<i64>)
    requires
        span_wf(s@, *nx),
    ensures
        match r {
            Some(v) => num_millis(span_tok(s@, *nx)) == Some(v as int),
            None => num_millis(span_tok(s@, *nx)) is None,
        },
{
    let ghost t = span_tok(s@, *nx);
    // Materialize the digit run `int.frac` without its decimal point.
    let mut all: Vec<char> = Vec::new();
    let mut k = nx.int_from;
    while k < nx.int_to
        invariant
            nx.int_from <= k <= nx.int_to <= s.len(),
            all@ == s@.subrange(nx.int_from as int, k as int),
        decreases nx.int_to - k,
    {
        all.push(s[k]);
        proof {
            assert(all@ =~= s@.subrange(nx.int_from as int, k + 1));
        }
        k += 1;
    }
    let mut k2 = nx.frac_from;
    proof {
        assert(s@.subrange(nx.frac_from as int, nx.frac_from as int) =~= Seq::<char>::empty());
        assert(all@ =~= s@.subrange(nx.int_from as int, nx.int_to as int) + s@.subrange(
            nx.frac_from as int,
            nx.frac_from as int,
        ));
    }
    while k2 < nx.frac_to
        invariant
            nx.frac_from <= k2 <= nx.frac_to <= s.len(),
            nx.int_from <= nx.int_to <= s.len(),
            all@ == s@.subrange(nx.int_from as int, nx.int_to as int) + s@.subrange(
                nx.frac_from as int,
                k2 as int,
            ),
        decreases nx.frac_to - k2,
    {
        all.push(s[k2]);
        proof {
            assert(all@ =~= s@.subrange(nx.int_from as int, nx.int_to as int) + s@.subrange(
                nx.frac_from as int,
                k2 + 1,
            ));
        }
        k2 += 1;
    }
    proof {
        assert(all@ =~= t.int_digits + t.frac_digits);
        assert forall|j: int| 0 <= j < all@.len() implies is_digit(#[trigger] all@[j]) by {
            if j < t.int_digits.len() {
                assert(all@[j] == s@[nx.int_from + j]);
            } else {
                assert(all@[j] == s@[nx.frac_from + (j - t.int_digits.len())]);
            }
        }
    }
    let all_len = all.len();
    // Leading zeros of the exponent digits.
    let mut el = nx.exp_from;
    while el < nx.exp_to && s[el] == '0'
        invariant
            nx.exp_from <= el <= nx.exp_to <= s.len(),
            forall|j: int| nx.exp_from <= j < el ==> s@[j] == '0',
        decreases nx.exp_to - el,
    {
        el += 1;
    }
    proof {
        let eds = t.exp_digits;
        assert(forall|j: int| 0 <= j < el - nx.exp_from ==> eds[j] == '0');
        lemma_strip_zeros_skip(eds, el - nx.exp_from);
        lemma_digits_val_skip_zeros(eds, el - nx.exp_from);
        assert(eds.skip(el - nx.exp_from) =~= s@.subrange(el as int, nx.exp_to as int));
    }
    // Leading zeros of the mantissa digits.
    let mut lead: usize = 0;
    while lead < all_len && all[lead] == '0'
        invariant
            lead <= all_len == all@.len(),
            forall|j: int| 0 <= j < lead ==> all@[j] == '0',
        decreases all_len - lead,
    {
        lead += 1;
    }
    if nx.exp_to - el > 18 {
        // The exponent itself is astronomical: a shrinking one or a zero
        // mantissa still gives zero; anything else cannot be represented.
        if nx.exp_neg {
            return Some(0);
        }
        if lead == all_len {
            proof {
                lemma_digits_val_skip_zeros(all@, all@.len() as int);
                assert(all@.skip(all@.len() as int) =~= Seq::<char>::empty());
            }
            return Some(0);
        }
        proof {
            lemma_digits_val_skip_zeros(all@, lead as int);
            assert(all@.skip(lead as int)[0] == all@[lead as int]);
            assert forall|j: int| 0 <= j < all@.skip(lead as int).len() implies is_digit(
                #[trigger] all@.skip(lead as int)[j],
            ) by {
                assert(all@.skip(lead as int)[j] == all@[lead + j]);
            }
            lemma_digits_val_lower(all@.skip(lead as int));
        }
        return None;
    }
    let ev: i64 = if el < nx.exp_to {
        digits_val_x(s, el, nx.exp_to)
    } else {
        0
    };
    proof {
        assert(s@.subrange(el as int, el as int) =~= Seq::<char>::empty());
        assert(exp_val(t) == if nx.exp_neg { -(ev as int) } else { ev as int });
    }
    let evs: i128 = if nx.exp_neg {
        -(ev as i128)
    } else {
        ev as i128
    };
    let point: i128 = nx.int_to as i128 - nx.int_from as i128 + evs + 3;
    let ghost md = millis_digits(t);
    proof {
        assert(t.int_digits.len() == nx.int_to - nx.int_from);
        assert(point as int == t.int_digits.len() + exp_val(t) + 3);
    }
    if point <= 0 {
        proof {
            assert(md =~= Seq::<char>::empty());
        }
        return Some(0);
    }
    if lead == all_len {
        // The mantissa is zero: so are the scaled digits.
        proof {
            assert forall|j: int| 0 <= j < md.len() implies md[j] == '0' by {
                if (point as int) >= all@.len() {
                    if j < all@.len() {
                        assert(md[j] == all@[j]);
                    } else {
                        assert(md[j] == zeros(point as int - all@.len())[j - all@.len()]);
                    }
                } else {
                    assert(md[j] == all@[j]);
                }
            }
            lemma_digits_val_skip_zeros(md, md.len() as int);
            lemma_strip_zeros_skip(md, md.len() as int);
            assert(md.skip(md.len() as int) =~= Seq::<char>::empty());
        }
        return Some(0);
    }
    if point <= lead as i128 {
        // Only zero digits lie before the point.
        proof {
            assert((point as int) < all@.len());
            assert(md =~= all@.take(point as int));
            assert forall|j: int| 0 <= j < md.len() implies md[j] == '0' by {
                assert(md[j] == all@[j]);
            }
            lemma_digits_val_skip_zeros(md, md.len() as int);
            lemma_strip_zeros_skip(md, md.len() as int);
            assert(md.skip(md.len() as int) =~= Seq::<char>::empty());
        }
        return Some(0);
    }
    // The significant scaled digits are md without its `lead` zeros.
    proof {
        if (point as int) >= all@.len() {
            assert(md =~= all@ + zeros(point as int - all@.len()));
        } else {
            assert(md =~= all@.take(point as int));
        }
        assert(md.len() == point as int);
        assert forall|j: int| 0 <= j < lead implies md[j] == '0' by {
            assert(md[j] == all@[j]);
        }
        assert(md[lead as int] == all@[lead as int]);
        lemma_strip_zeros_skip(md, lead as int);
        lemma_digits_val_skip_zeros(md, lead as int);
    }
    if point - (lead as i128) > 18 {
        return None;
    }
    let m: i64 = if point >= all_len as i128 {
        let base = digits_val_x(&all, lead, all_len);
        let scale: usize = (point - all_len as i128) as usize;
        proof {
            assert(all@.subrange(lead as int, all_len as int) =~= all@.skip(lead as int));
            lemma_digits_val_append_zeros(all@, point as int - all@.len());
            lemma_digits_val_skip_zeros(all@, lead as int);
            lemma_pow10_18();
        }
        let mut m = base;
        let mut c: usize = 0;
        while c < scale
            invariant
                c <= scale,
                scale + (all_len - lead) <= 18,
                lead < all_len,
                m as int == digits_val(all@.subrange(lead as int, all_len as int)) * pow10(
                    c as nat,
                ),
                0 <= m,
                (m as int) < pow10(((all_len - lead) + c) as nat),
                pow10(18) == 1000000000000000000,
                digits_val(all@.subrange(lead as int, all_len as int)) < pow10(
                    (all_len - lead) as nat,
                ),
            decreases scale - c,
        {
            proof {
                lemma_pow10_mono(((all_len - lead) + c) as nat, 17);
                assert(pow10((c + 1) as nat) == 10 * pow10(c as nat));
                assert(pow10(((all_len - lead) + c + 1) as nat) == 10 * pow10(
                    ((all_len - lead) + c) as nat,
                ));
                let d = digits_val(all@.subrange(lead as int, all_len as int));
                let p = pow10(c as nat);
                assert((d * p) * 10 == d * (10 * p)) by (nonlinear_arith);
            }
            m = m * 10;
            c += 1;
        }
        proof {
            assert(digits_val(md) == m as int);
        }
        m
    } else {
        let p: usize = point as usize;
        proof {
            assert(md.skip(lead as int) =~= all@.subrange(lead as int, p as int));
        }
        let v = digits_val_x(&all, lead, p);
        proof {
            assert(digits_val(md) == v as int);
        }
        v
    };
    proof {
        assert(strip_zeros(md).len() == point as int - lead);
        assert(digits_val(md) == m as int);
    }
    if nx.neg {
        Some(-m)
    } else {
        Some(m)
    }
}

/// The value of a number as a signed integer.
fn num_int_x(s: &Vec<char>, nx: &NumSpan) -> (r: Option<i64>)
    requires
        span_wf(s@, *nx),
    ensures
        match r {
            Some(v) => num_int(span_tok(s@, *nx)) == Some(v as int),
            None => num_int(span_tok(s@, *nx)) is None,
        },
{
    if nx.frac_to - nx.frac_from != 0 || nx.exp_to - nx.exp_from != 0 || nx.int_to - nx.int_from
        > 18 {
        return None;
    }
    proof {
        lemma_pow10_mono((nx.int_to - nx.int_from) as nat, 18);
        lemma_pow10_18();
    }
    let v = digits_val_x(s, nx.int_from, nx.int_to);
    if nx.neg {
        Some(-v)
    } else {
        Some(v)
    }
}

/// The fields of an entry object gathered so far, as parsed values.
struct PartialX {
    text: Option<Vec<char>>,
    start_time_ms: Option<i64>,
    end_time_ms: Option<Option<i64>>,
    timestamp: Option<i64>,
}

spec fn partial_view(p: PartialX) -> PartialEntry {
    PartialEntry {
        text: match p.text {
            Some(t) => Some(t@),
            None => None,
        },
        start_time_ms: match p.start_time_ms {
            Some(v) => Some(v as int),
            None => None,
        },
        end_time_ms: match p.end_time_ms {
            Some(Some(v)) => Some(Some(v as int)),
            Some(None) => Some(None),
            None => None,
        },
        timestamp: match p.timestamp {
            Some(v) => Some(v as int),
            None => None,
        },
    }
}

/// The end of any well-formed JSON value starting at `i`.
fn skip_value_x(s: &Vec<char>, i: usize) -> (r: Option<usize>)
    requires
        i <= s.len(),
    ensures
        match r {
            Some(j) => skip_value(s@, i as int) == Some(j as int) && i < j <= s.len(),
            None => skip_value(s@, i as int) is None,
        },
    decreases s.len() - i, 0int,
{
    if i == s.len() {
        return None;
    }
    let c = s[i];
    if c == '"' {
        match parse_string_x(s, i + 1) {
            Some((j, _txt)) => Some(j),
            None => None,
        }
    } else if c == '{' {
        let j = skip_ws_x(s, i + 1);
        if j < s.len() && s[j] == '}' {
            return Some(j + 1);
        }
        match skip_members_x(s, j) {
            Some(k) => {
                let m = skip_ws_x(s, k);
                if m < s.len() && s[m] == '}' {
                    Some(m + 1)
                } else {
                    None
                }
            },
            None => None,
        }
    } else if c == '[' {
        let j = skip_ws_x(s, i + 1);
        if j < s.len() && s[j] == ']' {
            return Some(j + 1);
        }
        match skip_elements_x(s, j) {
            Some(k) => {
                let m = skip_ws_x(s, k);
                if m < s.len() && s[m] == ']' {
                    Some(m + 1)
                } else {
                    None
                }
            },
            None => None,
        }
    } else if c == 't' {
        if s.len() - i >= 4 && s[i + 1] == 'r' && s[i + 2] == 'u' && s[i + 3] == 'e' {
            Some(i + 4)
        } else {
            None
        }
    } else if c == 'f' {
        if s.len() - i >= 5 && s[i + 1] == 'a' && s[i + 2] == 'l' && s[i + 3] == 's' && s[i + 4]
            == 'e' {
            Some(i + 5)
        } else {
            None
        }
    } else if c == 'n' {
        if s.len() - i >= 4 && s[i + 1] == 'u' && s[i + 2] == 'l' && s[i + 3] == 'l' {
            Some(i + 4)
        } else {
            None
        }
    } else {
        match parse_number_x(s, i) {
            Some(nx) => Some(nx.end),
            None => None,
        }
    }
}

/// The members of an object being skipped.
fn skip_members_x(s: &Vec<char>, i: usize) -> (r: Option<usize>)
    requires
        i <= s.len(),
    ensures
        match r {
            Some(j) => skip_members(s@, i as int) == Some(j as int) && i < j <= s.len(),
            None => skip_members(s@, i as int) is None,
        },
    decreases s.len() - i, 1int,
{
    let mut cur = i;
    loop
        invariant
            i <= cur <= s.len(),
            skip_members(s@, i as int) == skip_members(s@, cur as int),
        decreases s.len() - cur,
    {
        if !(cur < s.len() && s[cur] == '"') {
            return None;
        }
        let (j, _key) = match parse_string_x(s, cur + 1) {
            Some(p) => p,
            None => {
                return None;
            },
        };
        let c = skip_ws_x(s, j);
        if !(c < s.len() && s[c] == ':') {
            return None;
        }
        let v = skip_ws_x(s, c + 1);
        let w = match skip_value_x(s, v) {
            Some(w) => w,
            None => {
                return None;
            },
        };
        let t = skip_ws_x(s, w);
        if t < s.len() && s[t] == ',' {
            let n = skip_ws_x(s, t + 1);
            cur = n;
        } else {
            return Some(w);
        }
    }
}

/// The elements of an array being skipped.
fn skip_elements_x(s: &Vec<char>, i: usize) -> (r: Option<usize>)
    requires
        i <= s.len(),
    ensures
        match r {
            Some(j) => skip_elements(s@, i as int) == Some(j as int) && i < j <= s.len(),
            None => skip_elements(s@, i as int) is None,
        },
    decreases s.len() - i, 1int,
{
    let mut cur = i;
    loop
        invariant
            i <= cur <= s.len(),
            skip_elements(s@, i as int) == skip_elements(s@, cur as int),
        decreases s.len() - cur,
    {
        let j = match skip_value_x(s, cur) {
            Some(j) => j,
            None => {
                return None;
            },
        };
        let k = skip_ws_x(s, j);
        if k < s.len() && s[k] == ',' {
            let n = skip_ws_x(s, k + 1);
            cur = n;
        } else {
            return Some(j);
        }
    }
}

/// One member's value starting at `i`, keyed by `key`, added to `acc`.
fn parse_member_value_x(s: &Vec<char>, i: usize, key: &Vec<char>, acc: PartialX) -> (r: Option<
    (usize, PartialX),
>)
    requires
        i <= s.len(),
    ensures
        match r {
            Some(p) => parse_member_value(s@, i as int, key@, partial_view(acc)) == Some(
                (p.0 as int, partial_view(p.1)),
            ) && i < p.0 <= s.len(),
            None => parse_member_value(s@, i as int, key@, partial_view(acc)) is None,
        },
{
    let key_s = string_from_chars(key);
    if key_s == String::from_str("text") {
        if acc.text.is_some() {
            return None;
        }
        if !(i < s.len() && s[i] == '"') {
            return None;
        }
        match parse_string_x(s, i + 1) {
            Some((j, txt)) => Some((j, PartialX { text: Some(txt), ..acc })),
            None => None,
        }
    } else if key_s == String::from_str("start_time") {
        if acc.start_time_ms.is_some() {
            return None;
        }
        match parse_number_x(s, i) {
            Some(nx) => match num_millis_x(s, &nx) {
                Some(v) => Some((nx.end, PartialX { start_time_ms: Some(v), ..acc })),
                None => None,
            },
            None => None,
        }
    } else if key_s == String::from_str("end_time") {
        if acc.end_time_ms.is_some() {
            return None;
        }
        if s.len() - i >= 4 && s[i] == 'n' && s[i + 1] == 'u' && s[i + 2] == 'l' && s[i + 3]
            == 'l' {
            return Some((i + 4, PartialX { end_time_ms: Some(None), ..acc }));
        }
        match parse_number_x(s, i) {
            Some(nx) => match num_millis_x(s, &nx) {
                Some(v) => Some((nx.end, PartialX { end_time_ms: Some(Some(v)), ..acc })),
                None => None,
            },
            None => None,
        }
    } else if key_s == String::from_str("timestamp") {
        if acc.timestamp.is_some() {
            return None;
        }
        match parse_number_x(s, i) {
            Some(nx) => match num_int_x(s, &nx) {
                Some(v) => Some((nx.end, PartialX { timestamp: Some(v), ..acc })),
                None => None,
            },
            None => None,
        }
    } else {
        match skip_value_x(s, i) {
            Some(j) => Some((j, acc)),
            None => None,
        }
    }
}

/// The members of an entry object, starting at the first key's opening
/// quote.
fn parse_members_x(s: &Vec<char>, i: usize, acc: PartialX) -> (r: Option<(usize, PartialX)>)
    requires
        i <= s.len(),
    ensures
        match r {
            Some(p) => parse_members(s@, i as int, partial_view(acc)) == Some(
                (p.0 as int, partial_view(p.1)),
            ) && i < p.0 <= s.len(),
            None => parse_members(s@, i as int, partial_view(acc)) is None,
        },
{
    let mut cur = i;
    let mut cur_acc = acc;
    loop
        invariant
            i <= cur <= s.len(),
            parse_members(s@, i as int, partial_view(acc)) == parse_members(
                s@,
                cur as int,
                partial_view(cur_acc),
            ),
        decreases s.len() - cur,
    {
        if !(cur < s.len() && s[cur] == '"') {
            return None;
        }
        let (j, key) = match parse_string_x(s, cur + 1) {
            Some(p) => p,
            None => {
                return None;
            },
        };
        let c = skip_ws_x(s, j);
        if !(c < s.len() && s[c] == ':') {
            return None;
        }
        let v = skip_ws_x(s, c + 1);
        let (w, acc2) = match parse_member_value_x(s, v, &key, cur_acc) {
            Some(p) => p,
            None => {
                return None;
            },
        };
        let t = skip_ws_x(s, w);
        if t < s.len() && s[t] == ',' {
            let n = skip_ws_x(s, t + 1);
            cur = n;
            cur_acc = acc2;
        } else {
            return Some((w, acc2));
        }
    }
}

/// One entry object starting at `i`.
fn parse_object_x(s: &Vec<char>, i: usize) -> (r: Option<(usize, SubtitleEntry)>)
    requires
        i <= s.len(),
    ensures
        match r {
            Some(p) => parse_object(s@, i as int) == Some((p.0 as int, p.1@)) && i < p.0
                <= s.len(),
            None => parse_object(s@, i as int) is None,
        },
{
    if !(i < s.len() && s[i] == '{') {
        return None;
    }
    let j = skip_ws_x(s, i + 1);
    let acc0 = PartialX { text: None, start_time_ms: None, end_time_ms: None, timestamp: None };
    proof {
        assert(partial_view(acc0) == empty_partial());
    }
    let (k, p) = match parse_members_x(s, j, acc0) {
        Some(q) => q,
        None => {
            return None;
        },
    };
    let m = skip_ws_x(s, k);
    if !(m < s.len() && s[m] == '}') {
        return None;
    }
    let PartialX { text: pt, start_time_ms: ps, end_time_ms: pe, timestamp: pts } = p;
    match (pt, ps, pts) {
        (Some(txt), Some(st), Some(ts)) => {
            let text = string_from_chars(&txt);
            let e = SubtitleEntry {
                text,
                start_time_ms: st,
                end_time_ms: match pe {
                    Some(x) => x,
                    None => None,
                },
                timestamp: ts,
            };
            Some((m + 1, e))
        },
        _ => None,
    }
}

/// One or more comma-separated entry objects, the first starting at `i`.
fn parse_elements_x(s: &Vec<char>, i: usize) -> (r: Option<(usize, Vec<SubtitleEntry>)>)
    requires
        i <= s.len(),
    ensures
        match r {
            Some(p) => parse_elements(s@, i as int) == Some((p.0 as int, entry_views(p.1@))) && i
                < p.0 <= s.len(),
            None => parse_elements(s@, i as int) is None,
        },
{
    let mut acc: Vec<SubtitleEntry> = Vec::new();
    let mut cur = i;
    proof {
        if parse_elements(s@, i as int) is Some {
            let (j0, rest0) = parse_elements(s@, i as int).unwrap();
            assert(entry_views(acc@) + rest0 =~= rest0);
        }
    }
    loop
        invariant
            i <= cur <= s.len(),
            match parse_elements(s@, cur as int) {
                Some(q) => parse_elements(s@, i as int) == Some(
                    (q.0, entry_views(acc@) + q.1),
                ),
                None => parse_elements(s@, i as int) is None,
            },
        decreases s.len() - cur,
    {
        let (j, e) = match parse_object_x(s, cur) {
            Some(p) => p,
            None => {
                return None;
            },
        };
        let ghost ev = e@;
        let ghost pre = acc@;
        acc.push(e);
        proof {
            assert(entry_views(acc@) =~= entry_views(pre) + seq![ev]);
        }
        let k = skip_ws_x(s, j);
        if k < s.len() && s[k] == ',' {
            let n = skip_ws_x(s, k + 1);
            proof {
                if parse_elements(s@, n as int) is Some {
                    let (j2, rest2) = parse_elements(s@, n as int).unwrap();
                    assert((entry_views(pre) + seq![ev]) + rest2 =~= entry_views(pre) + (seq![ev]
                        + rest2));
                }
            }
            cur = n;
        } else {
            proof {
                assert(entry_views(pre) + seq![ev] =~= entry_views(acc@));
            }
            return Some((j, acc));
        }
    }
}

/// Parse raw feed content into its ordered sequence of entries.  Returns
/// `Ok` with exactly the entries the content denotes, `Err` exactly when the
/// content is malformed.
pub fn parse(raw: &str) -> (r: Result<Vec<SubtitleEntry>, ParseError>)
    ensures
        match r {
            Ok(v) => parse_feed(raw@) == Some(entry_views(v@)),
            Err(_) => parse_feed(raw@) is None,
        },
{
    let s = chars_of_str(raw);
    let i0 = skip_ws_x(&s, 0);
    if !(i0 < s.len() && s[i0] == '[') {
        return Err(ParseError);
    }
    let i1 = skip_ws_x(&s, i0 + 1);
    if i1 < s.len() && s[i1] == ']' {
        let i2 = skip_ws_x(&s, i1 + 1);
        if i2 == s.len() {
            let empty: Vec<SubtitleEntry> = Vec::new();
            proof {
                assert(entry_views(empty@) =~= Seq::<SubtitleEntryView>::empty());
            }
            return Ok(empty);
        } else {
            return Err(ParseError);
        }
    }
    match parse_elements_x(&s, i1) {
        None => Err(ParseError),
        Some((j, es)) => {
            let k = skip_ws_x(&s, j);
            if k < s.len() && s[k] == ']' {
                let k2 = skip_ws_x(&s, k + 1);
                if k2 == s.len() {
                    Ok(es)
                } else {
                    Err(ParseError)
                }
            } else {
                Err(ParseError)
            }
        },
    }
}

pub proof fn lemma_parse_object_bounds(s: Seq<char>, i: int)
    requires
        0 <= i <= s.len(),
    ensures
        match parse_object(s, i) {
            Some((j, _)) => i < j <= s.len(),
            None => true,
        },
{
    if 0 <= i && i < s.len() && s[i] == '{' {
        lemma_skip_ws_bounds(s, i + 1);
        let j = skip_ws(s, i + 1);
        lemma_parse_members_bounds(s, j, empty_partial());
        match parse_members(s, j, empty_partial()) {
            Some((k, _)) => {
                lemma_skip_ws_bounds(s, k);
            },
            None => {},
        }
    }
}

} // verus!
