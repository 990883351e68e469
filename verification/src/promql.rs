//! A permissive pre-flight check on query strings: a heuristic sieve,
//! not a grammar.  It never rejects a query that carries an operator, a known
//! aggregation name, a label selector or only plain metric characters,
//! and it may well accept queries the backend will refuse.

use vstd::prelude::*;
use vstd::string::StringExecFns;
use crate::strutil::{trim_spec, trim_chars, has_char, contains_char, str_to_chars};

verus! {

/// The needle occurs in the haystack starting at `i`.
pub open spec fn matches_at(h: Seq<char>, n: Seq<char>, i: int) -> bool {
    0 <= i && i + n.len() <= h.len() && h.subrange(i, i + n.len()) == n
}

/// Plain substring containment.
pub open spec fn has_sub(h: Seq<char>, n: Seq<char>) -> bool {
    exists|i: int| matches_at(h, n, i)
}

/// Whether the needle occurs anywhere in the haystack.
pub fn contains_sub(hay: &Vec<char>, needle: &str) -> (r: bool)
    ensures
        r == has_sub(hay@, needle@),
{
    let nd = str_to_chars(needle);
    let hn = hay.len();
    let nn = nd.len();
    if nn == 0 {
        proof {
            assert(hay@.subrange(0, 0) =~= nd@);
            assert(matches_at(hay@, needle@, 0));
        }
        return true;
    }
    if nn > hn {
        proof {
            assert(forall|i: int| !matches_at(hay@, needle@, i));
        }
        return false;
    }
    let mut i: usize = 0;
    while i <= hn - nn
        invariant
            0 <= i <= hn - nn + 1,
            nn == needle@.len(),
            hn == hay@.len(),
            nd@ == needle@,
            0 < nn <= hn,
            forall|k: int| 0 <= k < i ==> !matches_at(hay@, needle@, k),
        decreases hn - i,
    {
        let mut j: usize = 0;
        let mut hit = true;
        while j < nn
            invariant
                0 <= j <= nn,
                i + nn <= hn,
                nn == needle@.len(),
                hn == hay@.len(),
                nd@ == needle@,
                hit ==> forall|k: int| 0 <= k < j ==> hay@[i + k] == needle@[k],
                !hit ==> exists|k: int| 0 <= k < nn && hay@[i + k] != needle@[k],
            decreases nn - j,
        {
            if hay[i + j] != nd[j] {
                proof {
                    assert(hay@[i + j] != needle@[j as int]);
                }
                hit = false;
                j = nn;
            } else {
                j += 1;
            }
        }
        if hit {
            proof {
                assert(hay@.subrange(i as int, i + nn) =~= needle@);
                assert(matches_at(hay@, needle@, i as int));
            }
            return true;
        }
        proof {
            if matches_at(hay@, needle@, i as int) {
                let k0 = choose|k: int| 0 <= k < nn && hay@[i + k] != needle@[k];
                assert(hay@.subrange(i as int, i + nn) == needle@);
                assert(hay@.subrange(i as int, i + nn)[k0] == hay@[i + k0]);
                assert(false);
            }
        }
        i += 1;
    }
    proof {
        assert forall|k: int| !matches_at(hay@, needle@, k) by {
            if 0 <= k <= hn - nn {
                assert(!matches_at(hay@, needle@, k));
            }
        }
    }
    false
}

/// The query holds one of the comparison or arithmetic operators.
pub open spec fn has_operator(q: Seq<char>) -> bool {
    has_sub(q, "+"@) || has_sub(q, "-"@) || has_sub(q, "*"@) || has_sub(q, "/"@) || has_sub(
        q,
        "%"@,
    ) || has_sub(q, "=="@) || has_sub(q, "!="@) || has_sub(q, ">"@) || has_sub(q, "<"@) || has_sub(
        q,
        ">="@,
    ) || has_sub(q, "<="@)
}

/// The query holds one of the known aggregation or rate names, as a raw
/// substring: this can match inside an unrelated word, by design.
pub open spec fn has_function(q: Seq<char>) -> bool {
    has_sub(q, "sum"@) || has_sub(q, "avg"@) || has_sub(q, "count"@) || has_sub(q, "min"@)
        || has_sub(q, "max"@) || has_sub(q, "rate"@) || has_sub(q, "increase"@)
}

/// What the alphanumeric test of std yields on this character.  A name
/// only: the property covers letters and digits of every script.
pub uninterp spec fn is_alnum(c: char) -> bool;

/// Relies on `char::is_alphanumeric`: whether the character is a letter
/// or digit, depending on the character alone.
#[verifier::external_body]
fn char_is_alphanumeric(c: char) -> (r: bool)
    ensures
        r == is_alnum(c),
{
    c.is_alphanumeric()
}

/// Every character is one a bare metric name or plain label matcher uses.
pub open spec fn is_simple_query(q: Seq<char>) -> bool {
    forall|k: int|
        0 <= k < q.len() ==> (is_alnum(#[trigger] q[k]) || q[k] == '_' || q[k] == '{' || q[k] == '}'
            || q[k] == '=' || q[k] == '"' || q[k] == ',' || q[k] == ' ')
}

/// A nonempty query is admitted when any of the four signs of a
/// plausible query is present.
pub open spec fn promql_acceptable(q: Seq<char>) -> bool {
    has_operator(q) || has_function(q) || has_char(q, '{') || is_simple_query(q)
}

/// The rejection text for an empty query.
pub open spec fn empty_query_msg() -> Seq<char> {
    "query must not be empty"@
}

/// The rejection text for a query with no recognisable shape.
pub open spec fn malformed_query_msg() -> Seq<char> {
    "query must contain operators, functions or be a plain metric"@
}

/// The permissive query check: it rejects an empty query, and a nonempty
/// one only when none of the four signs of a plausible query is present.
pub fn validate_promql_query(query: &str) -> (r: Result<(), String>)
    ensures
        r is Ok <==> (trim_spec(query@).len() > 0 && promql_acceptable(query@)),
        (r matches Err(m) ==> m@ == if trim_spec(query@).len() == 0 {
            empty_query_msg()
        } else {
            malformed_query_msg()
        }),
{
    let chars = str_to_chars(query);
    let t = trim_chars(&chars);
    if t.len() == 0 {
        return Err(String::from_str("query must not be empty"));
    }
    let has_op = contains_sub(&chars, "+") || contains_sub(&chars, "-") || contains_sub(
        &chars,
        "*",
    ) || contains_sub(&chars, "/") || contains_sub(&chars, "%") || contains_sub(&chars, "==")
        || contains_sub(&chars, "!=") || contains_sub(&chars, ">") || contains_sub(&chars, "<")
        || contains_sub(&chars, ">=") || contains_sub(&chars, "<=");
    let has_fn = contains_sub(&chars, "sum") || contains_sub(&chars, "avg") || contains_sub(
        &chars,
        "count",
    ) || contains_sub(&chars, "min") || contains_sub(&chars, "max") || contains_sub(
        &chars,
        "rate",
    ) || contains_sub(&chars, "increase");
    let has_brace = contains_char(&chars, '{');
    let mut simple = true;
    let n = chars.len();
    let mut i: usize = 0;
    while i < n
        invariant
            0 <= i <= n,
            n == chars@.len(),
            chars@ == query@,
            simple == forall|k: int|
                0 <= k < i ==> (is_alnum(#[trigger] query@[k]) || query@[k] == '_' || query@[k]
                    == '{' || query@[k] == '}' || query@[k] == '=' || query@[k] == '"' || query@[k]
                    == ',' || query@[k] == ' '),
        decreases n - i,
    {
        let c = chars[i];
        let ok = char_is_alphanumeric(c) || c == '_' || c == '{' || c == '}' || c == '=' || c == '"'
            || c == ',' || c == ' ';
        simple = simple && ok;
        i += 1;
    }
    if !has_op && !has_fn && !has_brace && !simple {
        return Err(String::from_str("query must contain operators, functions or be a plain metric"));
    }
    Ok(())
}

} // verus!
