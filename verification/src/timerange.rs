//! Symbolic time ranges: a fixed, case-sensitive set of tokens, each
//! standing for a duration in seconds, resolved against an anchor instant
//! into an absolute window.

use vstd::prelude::*;
use vstd::string::{StrSliceExecFns, StringExecFns};
use crate::strutil::{str_to_chars, chars_to_string, chars_eq};
use crate::numtext::{i64_dec_str, i64_to_dec_chars};

verus! {

/// An absolute window: `start` is `end` less the token's duration, and
/// `end` is the anchor instant.
#[derive(Debug, Clone, Copy, PartialEq, Eq, Structural)]
pub struct TimeWindow {
    pub start: i64,
    pub end: i64,
}

/// The duration in seconds of each supported token; anything else is
/// unrecognised.
pub open spec fn token_duration(t: Seq<char>) -> Option<int> {
    if t == "1h"@ || t == "1hour"@ {
        Some(3600int)
    } else if t == "6h"@ || t == "6hours"@ {
        Some(21600int)
    } else if t == "24h"@ || t == "1d"@ || t == "1day"@ {
        Some(86400int)
    } else if t == "7d"@ || t == "7days"@ {
        Some(604800int)
    } else if t == "30d"@ || t == "30days"@ {
        Some(2592000int)
    } else {
        None
    }
}

/// The window a token resolves to at the anchor `now`: the anchor as the
/// end, and the start a duration earlier, held inside the representable
/// range.
pub open spec fn resolve_window(t: Seq<char>, now: int) -> Option<(int, int)> {
    match token_duration(t) {
        Some(d) => Some(
            (
                if now - d >= i64::MIN as int {
                    now - d
                } else {
                    i64::MIN as int
                },
                now,
            ),
        ),
        None => None,
    }
}

/// The rejection text: it echoes the offending token verbatim.
pub open spec fn unknown_range_msg(t: Seq<char>) -> Seq<char> {
    "unknown time range: "@ + t
}

/// Resolves a range token against the anchor instant `now`.
pub fn resolve_at(token: &str, now: i64) -> (r: Result<TimeWindow, String>)
    ensures
        r is Ok <==> token_duration(token@) is Some,
        (r matches Ok(w) ==> resolve_window(token@, now as int) == Some(
            (w.start as int, w.end as int),
        )),
        (r matches Ok(w) ==> w.start <= w.end && (now > i64::MIN ==> w.start < w.end)),
        (r matches Err(m) ==> m@ == unknown_range_msg(token@)),
{
    let chars = str_to_chars(token);
    let d: i64 = if chars_eq(&chars, "1h") || chars_eq(&chars, "1hour") {
        3600
    } else if chars_eq(&chars, "6h") || chars_eq(&chars, "6hours") {
        21600
    } else if chars_eq(&chars, "24h") || chars_eq(&chars, "1d") || chars_eq(&chars, "1day") {
        86400
    } else if chars_eq(&chars, "7d") || chars_eq(&chars, "7days") {
        604800
    } else if chars_eq(&chars, "30d") || chars_eq(&chars, "30days") {
        2592000
    } else {
        let mut m = String::from_str("unknown time range: ");
        m.append(token);
        return Err(m);
    };
    let start: i64 = if now >= i64::MIN + d {
        now - d
    } else {
        i64::MIN
    };
    Ok(TimeWindow { start, end: now })
}

/// Relies on chrono's `Utc::now`: the current instant, in whole seconds
/// since the Unix epoch.  Nothing can be promised of a clock reading.
#[verifier::external_body]
fn now_unix() -> i64 {
    chrono::Utc::now().timestamp()
}

/// Resolves a range token against the clock, as a pair of decimal
/// strings `(start, end)`.  Whatever instant the clock gave, the pair
/// renders the window that `resolve_window` states for it.
pub fn parse_time_range(range: &str) -> (r: Result<(String, String), String>)
    ensures
        r is Ok <==> token_duration(range@) is Some,
        (r matches Ok(p) ==> exists|now: int|
            #![trigger resolve_window(range@, now)]
            i64::MIN as int <= now <= i64::MAX as int && (resolve_window(range@, now) matches Some(
                w,
            ) && p.0@ == i64_dec_str(w.0) && p.1@ == i64_dec_str(w.1))),
        (r matches Err(m) ==> m@ == unknown_range_msg(range@)),
{
    let now = now_unix();
    match resolve_at(range, now) {
        Ok(w) => {
            let s_chars = i64_to_dec_chars(w.start);
            let e_chars = i64_to_dec_chars(w.end);
            let p = (chars_to_string(&s_chars), chars_to_string(&e_chars));
            proof {
                assert(i64::MIN as int <= now as int <= i64::MAX as int);
            }
            Ok(p)
        },
        Err(m) => Err(m),
    }
}

/// Law: every supported range token resolves to a window that ends at
/// the anchor and spans exactly the token's documented duration, for
/// every anchor far enough from the representable floor for the start
/// not to clamp.
pub proof fn lemma_resolve_spans_duration(t: Seq<char>, now: int)
    requires
        token_duration(t) is Some,
        now - token_duration(t)->0 >= i64::MIN as int,
    ensures
        resolve_window(t, now) matches Some(w) && w.1 == now && w.1 - w.0 == token_duration(t)->0,
{
}

} // verus!
