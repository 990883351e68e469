//! Human-oriented rendering helpers: health status classification,
//! uptime and byte-count formatting.  Styling (colour) is the caller's
//! business; everything here returns plain text.

use vstd::prelude::*;
use vstd::string::StringExecFns;
use vstd::arithmetic::div_mod::lemma_div_is_ordered;
use crate::strutil::{str_to_chars, chars_to_string, chars_eq};
use crate::numtext::{
    is_float_text, is_float_chars, float_trunc, trunc_float_chars, i64_dec_str, i64_to_dec_chars,
    u64_to_dec_chars, dec_digits, digit_char_of,
};

verus! {

/// How a health status reads, judged on its lower-cased text.
#[derive(Debug, Clone, Copy, PartialEq, Eq, Structural)]
pub enum HealthClass {
    /// `ok` or `healthy`.
    Good,
    /// `error` or `unhealthy`.
    Bad,
    /// `warning`.
    Warn,
    /// Anything else.
    Other,
}

/// What lower-casing yields on this text.  A name only: the full case
/// mapping depends on the characters alone.
pub uninterp spec fn lower_of(s: Seq<char>) -> Seq<char>;

/// Relies on `str::to_lowercase`: the lower-cased text, depending on the
/// characters alone.
#[verifier::external_body]
fn lowercase(s: &str) -> (r: String)
    ensures
        r@ == lower_of(s@),
{
    s.to_lowercase()
}

/// The class of a lower-cased status text.
pub open spec fn health_class_of(lowered: Seq<char>) -> HealthClass {
    if lowered == "ok"@ || lowered == "healthy"@ {
        HealthClass::Good
    } else if lowered == "error"@ || lowered == "unhealthy"@ {
        HealthClass::Bad
    } else if lowered == "warning"@ {
        HealthClass::Warn
    } else {
        HealthClass::Other
    }
}

/// Judges a status string, ignoring letter case.
pub fn classify_health_status(status: &str) -> (r: HealthClass)
    ensures
        r == health_class_of(lower_of(status@)),
{
    let lowered = lowercase(status);
    let chars = str_to_chars(lowered.as_str());
    if chars_eq(&chars, "ok") || chars_eq(&chars, "healthy") {
        HealthClass::Good
    } else if chars_eq(&chars, "error") || chars_eq(&chars, "unhealthy") {
        HealthClass::Bad
    } else if chars_eq(&chars, "warning") {
        HealthClass::Warn
    } else {
        HealthClass::Other
    }
}

/// The status text as shown: unchanged.  Colour, chosen by the class, is
/// applied by the caller that owns the terminal.
pub fn format_health_status(status: &str) -> (r: String)
    ensures
        r@ == status@,
{
    String::from_str(status)
}

/// What formatting an uptime yields: for a numeric reading, days, hours
/// and minutes of the whole seconds (negative readings count as zero),
/// with the leading zero parts left off; any other text passes through.
pub open spec fn uptime_text(s: Seq<char>) -> Seq<char> {
    if is_float_text(s) {
        let t = float_trunc(s);
        let tz = if t < 0 {
            0
        } else {
            t
        };
        let days = tz / 86400;
        let hours = (tz % 86400) / 3600;
        let minutes = (tz % 3600) / 60;
        if days > 0 {
            i64_dec_str(days) + "d "@ + i64_dec_str(hours) + "h "@ + i64_dec_str(minutes) + "m"@
        } else if hours > 0 {
            i64_dec_str(hours) + "h "@ + i64_dec_str(minutes) + "m"@
        } else {
            i64_dec_str(minutes) + "m"@
        }
    } else {
        s
    }
}

/// Formats an uptime reading in seconds as days, hours and minutes.
pub fn format_uptime(uptime: &str) -> (r: String)
    ensures
        r@ == uptime_text(uptime@),
{
    let chars = str_to_chars(uptime);
    if !is_float_chars(&chars) {
        return String::from_str(uptime);
    }
    let t = trunc_float_chars(&chars);
    let tz: i64 = if t < 0 {
        0
    } else {
        t
    };
    let days = tz / 86400;
    let hours = (tz % 86400) / 3600;
    let minutes = (tz % 3600) / 60;
    let mut out = String::new();
    if days > 0 {
        let d = i64_to_dec_chars(days);
        out.append(chars_to_string(&d).as_str());
        out.append("d ");
    }
    if days > 0 || hours > 0 {
        let h = i64_to_dec_chars(hours);
        out.append(chars_to_string(&h).as_str());
        out.append("h ");
    }
    let m = i64_to_dec_chars(minutes);
    out.append(chars_to_string(&m).as_str());
    out.append("m");
    proof {
        assert(out@ =~= uptime_text(uptime@));
    }
    out
}

/// The two-digit rendering of a value below 100.
pub open spec fn two_digits(x: int) -> Seq<char> {
    seq![digit_char_of(x / 10), digit_char_of(x % 10)]
}

/// What formatting a byte count yields: the count scaled to the largest
/// of B, KB, MB, GB that keeps it below 1024 (GB at most), with two
/// decimal places, rounded half away from zero.
pub open spec fn bytes_text(b: nat) -> Seq<char> {
    let d: nat = if b < 1024 {
        1
    } else if b < 1048576 {
        1024
    } else if b < 1073741824 {
        1048576
    } else {
        1073741824
    };
    let h = (b * 100 + d / 2) / d;
    let unit: Seq<char> = if b < 1024 {
        " B"@
    } else if b < 1048576 {
        " KB"@
    } else if b < 1073741824 {
        " MB"@
    } else {
        " GB"@
    };
    dec_digits(h / 100) + "."@ + two_digits((h % 100) as int) + unit
}

fn append_hundredths(out: &mut String, h: u64)
    ensures
        final(out)@ == old(out)@ + dec_digits((h / 100) as nat) + "."@ + two_digits(
            (h % 100) as int,
        ),
{
    let whole = u64_to_dec_chars(h / 100);
    out.append(chars_to_string(&whole).as_str());
    out.append(".");
    let frac = h % 100;
    let mut fv: Vec<char> = Vec::new();
    let d10 = frac / 10;
    let d1 = frac % 10;
    fv.push(if d10 == 0 { '0' } else if d10 == 1 { '1' } else if d10 == 2 { '2' }
        else if d10 == 3 { '3' } else if d10 == 4 { '4' } else if d10 == 5 { '5' }
        else if d10 == 6 { '6' } else if d10 == 7 { '7' } else if d10 == 8 { '8' } else { '9' });
    fv.push(if d1 == 0 { '0' } else if d1 == 1 { '1' } else if d1 == 2 { '2' }
        else if d1 == 3 { '3' } else if d1 == 4 { '4' } else if d1 == 5 { '5' }
        else if d1 == 6 { '6' } else if d1 == 7 { '7' } else if d1 == 8 { '8' } else { '9' });
    proof {
        assert(fv@ =~= two_digits((h % 100) as int));
    }
    out.append(chars_to_string(&fv).as_str());
    proof {
        assert(out@ =~= old(out)@ + dec_digits((h / 100) as nat) + "."@ + two_digits(
            (h % 100) as int,
        ));
    }
}

/// Formats a byte count in the largest fitting unit with two decimals.
pub fn format_bytes(bytes: u64) -> (r: String)
    ensures
        r@ == bytes_text(bytes as nat),
{
    let mut out = String::new();
    if bytes < 1024 {
        let h = bytes * 100;
        append_hundredths(&mut out, h);
        out.append(" B");
    } else if bytes < 1048576 {
        let h = ((bytes as u128 * 100 + 512) / 1024) as u64;
        proof {
            lemma_div_is_ordered(
                bytes as int * 100 + 512,
                1048576int * 100 + 512,
                1024,
            );
        }
        append_hundredths(&mut out, h);
        out.append(" KB");
    } else if bytes < 1073741824 {
        let h = ((bytes as u128 * 100 + 524288) / 1048576) as u64;
        proof {
            lemma_div_is_ordered(
                bytes as int * 100 + 524288,
                1073741824int * 100 + 524288,
                1048576,
            );
        }
        append_hundredths(&mut out, h);
        out.append(" MB");
    } else {
        let h = ((bytes as u128 * 100 + 536870912) / 1073741824) as u64;
        proof {
            lemma_div_is_ordered(
                bytes as int * 100 + 536870912,
                0x10000000000000000int * 100 + 536870912,
                1073741824,
            );
        }
        append_hundredths(&mut out, h);
        out.append(" GB");
    }
    proof {
        assert(out@ =~= bytes_text(bytes as nat));
    }
    out
}

} // verus!
