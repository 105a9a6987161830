//! Display formatting of a start time, `H:MM:SS.t` or `M:SS.t`.
//!
//! The fraction digit is tenths of a second, truncated.  A negative time
//! (which a well-formed feed never produces) is shown as zero.

use crate::text::string_from_chars;
use vstd::prelude::*;

verus! {

/// The decimal digit character for `d`.
pub open spec fn digit_char(d: int) -> char
    recommends
        0 <= d < 10,
{
    ((d + 48) as u8) as char
}

/// The decimal digits of `n`, most significant first, without leading zeros
/// (`0` itself is the single digit `0`).
pub open spec fn dec_str(n: int) -> Seq<char>
    recommends
        n >= 0,
    decreases n,
{
    if n < 10 {
        seq![digit_char(n)]
    } else {
        dec_str(n / 10) + seq![digit_char(n % 10)]
    }
}

/// The decimal digits of `n`, zero-padded on the left to at least two.
pub open spec fn two_dec(n: int) -> Seq<char>
    recommends
        0 <= n < 100,
{
    if n < 10 {
        seq!['0'] + dec_str(n)
    } else {
        dec_str(n)
    }
}

/// The display form of a start time of `ms` milliseconds: hours, minutes,
/// seconds and tenths as `H:MM:SS.t` when there is at least one hour, as
/// `M:SS.t` otherwise.  Negative times are shown as zero.
pub open spec fn spec_format_timestamp(ms: int) -> Seq<char> {
    let msn = if ms < 0 {
        0
    } else {
        ms
    };
    let total = msn / 1000;
    let tenths = (msn % 1000) / 100;
    let hours = total / 3600;
    let minutes = (total % 3600) / 60;
    let secs = total % 60;
    if hours > 0 {
        dec_str(hours) + seq![':'] + two_dec(minutes) + seq![':'] + two_dec(secs) + seq!['.']
            + dec_str(tenths)
    } else {
        dec_str(minutes) + seq![':'] + two_dec(secs) + seq!['.'] + dec_str(tenths)
    }
}

fn push_digit(d: u64, out: &mut Vec<char>)
    requires
        d < 10,
    ensures
        final(out)@ == old(out)@ + seq![digit_char(d as int)],
{
    let c = (48 + d as u8) as char;
    out.push(c);
    proof {
        assert(final(out)@ =~= old(out)@ + seq![digit_char(d as int)]);
    }
}

fn push_dec(n: u64, out: &mut Vec<char>)
    ensures
        final(out)@ == old(out)@ + dec_str(n as int),
    decreases n,
{
    if n < 10 {
        push_digit(n, out);
    } else {
        push_dec(n / 10, out);
        push_digit(n % 10, out);
        proof {
            assert(final(out)@ =~= old(out)@ + dec_str(n as int));
        }
    }
}

fn push_two_dec(n: u64, out: &mut Vec<char>)
    requires
        n < 100,
    ensures
        final(out)@ == old(out)@ + two_dec(n as int),
{
    if n < 10 {
        out.push('0');
    }
    push_dec(n, out);
    proof {
        assert(final(out)@ =~= old(out)@ + two_dec(n as int));
    }
}

/// Format a start time of `ms` milliseconds for display.
pub fn format_timestamp(ms: i64) -> (r: String)
    ensures
        r@ == spec_format_timestamp(ms as int),
{
    let msn: u64 = if ms < 0 {
        0
    } else {
        ms as u64
    };
    let total: u64 = msn / 1000;
    let tenths: u64 = (msn % 1000) / 100;
    let hours: u64 = total / 3600;
    let minutes: u64 = (total % 3600) / 60;
    let secs: u64 = total % 60;
    let mut out: Vec<char> = Vec::new();
    if hours > 0 {
        push_dec(hours, &mut out);
        out.push(':');
        push_two_dec(minutes, &mut out);
        out.push(':');
        push_two_dec(secs, &mut out);
        out.push('.');
        push_dec(tenths, &mut out);
    } else {
        push_dec(minutes, &mut out);
        out.push(':');
        push_two_dec(secs, &mut out);
        out.push('.');
        push_dec(tenths, &mut out);
    }
    proof {
        assert(out@ =~= spec_format_timestamp(ms as int));
    }
    string_from_chars(&out)
}

} // verus!
