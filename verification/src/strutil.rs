//! Elementary verified operations on character sequences: trimming,
//! searching, splitting and decimal rendering.  All higher layers state
//! their contracts over `Seq<char>` through the spec functions here.

use vstd::prelude::*;
use vstd::string::StrSliceExecFns;

verus! {

/// The characters that trimming removes: the Unicode `White_Space` set.
pub open spec fn is_space_char(c: char) -> bool {
    c == ' ' || c == '\t' || c == '\n' || c == '\r' || c == '\u{b}' || c == '\u{c}'
        || c == '\u{85}' || c == '\u{a0}' || c == '\u{1680}'
        || ('\u{2000}' <= c && c <= '\u{200a}')
        || c == '\u{2028}' || c == '\u{2029}' || c == '\u{202f}' || c == '\u{205f}'
        || c == '\u{3000}'
}

pub fn is_space(c: char) -> (r: bool)
    ensures
        r == is_space_char(c),
{
    c == ' ' || c == '\t' || c == '\n' || c == '\r' || c == '\u{b}' || c == '\u{c}'
        || c == '\u{85}' || c == '\u{a0}' || c == '\u{1680}'
        || ('\u{2000}' <= c && c <= '\u{200a}')
        || c == '\u{2028}' || c == '\u{2029}' || c == '\u{202f}' || c == '\u{205f}'
        || c == '\u{3000}'
}

/// Index of the first character at or after `i` that is not whitespace;
/// `s.len()` when all of them are.
pub open spec fn first_non_space_from(s: Seq<char>, i: int) -> int
    decreases s.len() - i,
{
    if i < 0 || i >= s.len() {
        s.len() as int
    } else if is_space_char(s[i]) {
        first_non_space_from(s, i + 1)
    } else {
        i
    }
}

/// One past the last character before or at `i` that is not whitespace;
/// 0 when all of them are.
pub open spec fn last_non_space_before(s: Seq<char>, i: int) -> int
    decreases i,
{
    if i <= 0 || i > s.len() {
        0
    } else if is_space_char(s[i - 1]) {
        last_non_space_before(s, i - 1)
    } else {
        i
    }
}

/// What trimming leaves: the sequence without leading and trailing whitespace.
pub open spec fn trim_spec(s: Seq<char>) -> Seq<char> {
    let a = first_non_space_from(s, 0);
    let b = last_non_space_before(s, s.len() as int);
    if a >= b {
        Seq::<char>::empty()
    } else {
        s.subrange(a, b)
    }
}

pub fn trim_chars(v: &Vec<char>) -> (r: Vec<char>)
    ensures
        r@ == trim_spec(v@),
{
    let n = v.len();
    let mut a: usize = 0;
    while a < n && is_space(v[a])
        invariant
            n == v@.len(),
            0 <= a <= n,
            first_non_space_from(v@, 0) == first_non_space_from(v@, a as int),
            forall|k: int| 0 <= k < a ==> is_space_char(v@[k]),
        decreases n - a,
    {
        a += 1;
    }
    let mut b: usize = n;
    while b > a && is_space(v[b - 1])
        invariant
            n == v@.len(),
            a <= b <= n,
            a == first_non_space_from(v@, 0),
            forall|k: int| 0 <= k < a ==> is_space_char(v@[k]),
            last_non_space_before(v@, n as int) == last_non_space_before(v@, b as int),
        decreases b,
    {
        b -= 1;
    }
    let mut r: Vec<char> = Vec::new();
    let mut i: usize = a;
    while i < b
        invariant
            a <= i <= b <= n,
            n == v@.len(),
            r@ == v@.subrange(a as int, i as int),
        decreases b - i,
    {
        r.push(v[i]);
        assert(v@.subrange(a as int, i + 1) == v@.subrange(a as int, i as int).push(v@[i as int]));
        i += 1;
    }
    proof {
        if a < b {
            // the second scan stopped on a non-space at b - 1, so b is the trailing cut
            assert(last_non_space_before(v@, b as int) == b);
        } else {
            // b == a, and every character before a is whitespace, so the trim is empty
            lemma_last_non_space_all_space(v@, b as int);
            assert(trim_spec(v@) == Seq::<char>::empty());
            assert(r@ == v@.subrange(a as int, b as int));
            assert(r@ == Seq::<char>::empty());
        }
    }
    r
}

proof fn lemma_last_non_space_all_space(s: Seq<char>, i: int)
    requires
        0 <= i <= s.len(),
        forall|k: int| 0 <= k < i ==> is_space_char(s[k]),
    ensures
        last_non_space_before(s, i) == 0,
    decreases i,
{
    if i > 0 {
        lemma_last_non_space_all_space(s, i - 1);
    }
}

/// Whether `c` occurs in `s` at or after position `i`.
pub open spec fn has_char_from(s: Seq<char>, c: char, i: int) -> bool
    decreases s.len() - i,
{
    if i < 0 || i >= s.len() {
        false
    } else if s[i] == c {
        true
    } else {
        has_char_from(s, c, i + 1)
    }
}

pub open spec fn has_char(s: Seq<char>, c: char) -> bool {
    has_char_from(s, c, 0)
}

pub fn contains_char(v: &Vec<char>, c: char) -> (r: bool)
    ensures
        r == has_char(v@, c),
{
    let n = v.len();
    let mut i: usize = 0;
    while i < n
        invariant
            n == v@.len(),
            0 <= i <= n,
            has_char(v@, c) == has_char_from(v@, c, i as int),
        decreases n - i,
    {
        if v[i] == c {
            return true;
        }
        i += 1;
    }
    false
}

/// The position of the last occurrence of `c` strictly before `i`; -1 if none.
pub open spec fn last_pos_before(s: Seq<char>, c: char, i: int) -> int
    decreases i,
{
    if i <= 0 || i > s.len() {
        -1
    } else if s[i - 1] == c {
        i - 1
    } else {
        last_pos_before(s, c, i - 1)
    }
}

pub open spec fn last_pos(s: Seq<char>, c: char) -> int {
    last_pos_before(s, c, s.len() as int)
}

pub fn find_last(v: &Vec<char>, c: char) -> (r: Option<usize>)
    ensures
        match r {
            Some(p) => last_pos(v@, c) == p as int && p < v@.len(),
            None => last_pos(v@, c) == -1,
        },
{
    let n = v.len();
    let mut i: usize = n;
    while i > 0
        invariant
            n == v@.len(),
            0 <= i <= n,
            last_pos(v@, c) == last_pos_before(v@, c, i as int),
        decreases i,
    {
        if v[i - 1] == c {
            return Some(i - 1);
        }
        i -= 1;
    }
    None
}

/// The position of the first occurrence of `c` at or after `i`; `s.len()` if none.
pub open spec fn first_pos_from(s: Seq<char>, c: char, i: int) -> int
    decreases s.len() - i,
{
    if i < 0 || i >= s.len() {
        s.len() as int
    } else if s[i] == c {
        i
    } else {
        first_pos_from(s, c, i + 1)
    }
}

pub open spec fn first_pos(s: Seq<char>, c: char) -> int {
    first_pos_from(s, c, 0)
}

pub fn find_first(v: &Vec<char>, c: char) -> (r: Option<usize>)
    ensures
        match r {
            Some(p) => first_pos(v@, c) == p as int && p < v@.len(),
            None => first_pos(v@, c) == v@.len(),
        },
{
    let n = v.len();
    let mut i: usize = 0;
    while i < n
        invariant
            n == v@.len(),
            0 <= i <= n,
            first_pos(v@, c) == first_pos_from(v@, c, i as int),
        decreases n - i,
    {
        if v[i] == c {
            return Some(i);
        }
        i += 1;
    }
    None
}

/// `first_pos` lies between `i` and `s.len()`, points at `c` when it found
/// one, skips no earlier occurrence, and finds one exactly when `has_char_from`.
pub proof fn lemma_first_pos_from_props(s: Seq<char>, c: char, i: int)
    requires
        0 <= i <= s.len(),
    ensures
        i <= first_pos_from(s, c, i) <= s.len(),
        first_pos_from(s, c, i) < s.len() ==> s[first_pos_from(s, c, i)] == c,
        forall|k: int| i <= k < first_pos_from(s, c, i) ==> s[k] != c,
        has_char_from(s, c, i) <==> first_pos_from(s, c, i) < s.len(),
    decreases s.len() - i,
{
    if i < s.len() && s[i] != c {
        lemma_first_pos_from_props(s, c, i + 1);
    }
}

pub proof fn lemma_first_pos_has(s: Seq<char>, c: char)
    ensures
        0 <= first_pos(s, c) <= s.len(),
        first_pos(s, c) < s.len() ==> s[first_pos(s, c)] == c,
        forall|k: int| 0 <= k < first_pos(s, c) ==> s[k] != c,
        has_char(s, c) <==> first_pos(s, c) < s.len(),
{
    lemma_first_pos_from_props(s, c, 0);
}

proof fn lemma_first_pos_from_at(s: Seq<char>, c: char, j: int, i: int)
    requires
        0 <= j <= i < s.len(),
        s[i] == c,
        forall|k: int| j <= k < i ==> s[k] != c,
    ensures
        first_pos_from(s, c, j) == i,
    decreases i - j,
{
    if j < i {
        lemma_first_pos_from_at(s, c, j + 1, i);
    }
}

/// The first occurrence is at `i` when `c` stands there and nowhere earlier.
pub proof fn lemma_first_pos_at(s: Seq<char>, c: char, i: int)
    requires
        0 <= i < s.len(),
        s[i] == c,
        forall|k: int| 0 <= k < i ==> s[k] != c,
    ensures
        first_pos(s, c) == i,
{
    lemma_first_pos_from_at(s, c, 0, i);
}

proof fn lemma_last_pos_before_at(s: Seq<char>, c: char, i: int, j: int)
    requires
        0 <= i < j <= s.len(),
        s[i] == c,
        forall|k: int| i < k < j ==> s[k] != c,
    ensures
        last_pos_before(s, c, j) == i,
    decreases j,
{
    if j - 1 > i {
        lemma_last_pos_before_at(s, c, i, j - 1);
    }
}

/// The last occurrence is at `i` when `c` stands there and nowhere later.
pub proof fn lemma_last_pos_at(s: Seq<char>, c: char, i: int)
    requires
        0 <= i < s.len(),
        s[i] == c,
        forall|k: int| i < k < s.len() ==> s[k] != c,
    ensures
        last_pos(s, c) == i,
{
    lemma_last_pos_before_at(s, c, i, s.len() as int);
}

proof fn lemma_has_char_from_witness(s: Seq<char>, c: char, j: int, i: int)
    requires
        0 <= j <= i < s.len(),
        s[i] == c,
    ensures
        has_char_from(s, c, j),
    decreases i - j,
{
    if j < i {
        lemma_has_char_from_witness(s, c, j + 1, i);
    }
}

/// A character at any position witnesses `has_char`.
pub proof fn lemma_has_char_witness(s: Seq<char>, c: char, i: int)
    requires
        0 <= i < s.len(),
        s[i] == c,
    ensures
        has_char(s, c),
{
    lemma_has_char_from_witness(s, c, 0, i);
}

/// A character that stands nowhere is not found.
pub proof fn lemma_no_char(s: Seq<char>, c: char)
    requires
        forall|k: int| 0 <= k < s.len() ==> s[k] != c,
    ensures
        !has_char(s, c),
{
    lemma_first_pos_has(s, c);
}

pub fn subvec(v: &Vec<char>, from: usize, to: usize) -> (r: Vec<char>)
    requires
        from <= to <= v@.len(),
    ensures
        r@ == v@.subrange(from as int, to as int),
{
    let mut r: Vec<char> = Vec::new();
    let mut i: usize = from;
    while i < to
        invariant
            from <= i <= to <= v@.len(),
            r@ == v@.subrange(from as int, i as int),
        decreases to - i,
    {
        r.push(v[i]);
        assert(v@.subrange(from as int, i + 1) == v@.subrange(from as int, i as int).push(
            v@[i as int],
        ));
        i += 1;
    }
    r
}

/// A line's view with a trailing carriage return removed.
pub open spec fn strip_cr(l: Seq<char>) -> Seq<char> {
    if l.len() > 0 && l.last() == '\r' {
        l.drop_last()
    } else {
        l
    }
}

/// The lines of `s`: pieces between newlines, each without a trailing
/// carriage return, and no empty piece after a final newline.
pub open spec fn split_lines(s: Seq<char>) -> Seq<Seq<char>>
    decreases s.len(),
{
    if s.len() == 0 {
        Seq::<Seq<char>>::empty()
    } else {
        let p = first_pos(s, '\n');
        if 0 <= p < s.len() {
            seq![strip_cr(s.take(p))] + split_lines(s.skip(p + 1))
        } else {
            seq![strip_cr(s)]
        }
    }
}

/// The views of a vector of character vectors.
pub open spec fn lines_view(r: Seq<Vec<char>>) -> Seq<Seq<char>> {
    r.map_values(|l: Vec<char>| l@)
}

fn strip_cr_exec(l: Vec<char>) -> (r: Vec<char>)
    ensures
        r@ == strip_cr(l@),
{
    let n = l.len();
    if n > 0 && l[n - 1] == '\r' {
        let r = subvec(&l, 0, n - 1);
        proof {
            assert(r@ =~= l@.drop_last());
        }
        r
    } else {
        l
    }
}

#[verifier::loop_isolation(false)]
pub fn split_lines_exec(v: &Vec<char>) -> (r: Vec<Vec<char>>)
    ensures
        lines_view(r@) == split_lines(v@),
{
    let mut out: Vec<Vec<char>> = Vec::new();
    let mut rest = subvec(v, 0, v.len());
    proof {
        assert(rest@ =~= v@);
        assert(lines_view(out@) =~= Seq::<Seq<char>>::empty());
    }
    loop
        invariant
            lines_view(out@) + split_lines(rest@) == split_lines(v@),
        decreases rest@.len(),
    {
        if rest.len() == 0 {
            proof {
                assert(lines_view(out@) =~= lines_view(out@) + split_lines(rest@));
            }
            return out;
        }
        let ghost rest0 = rest@;
        match find_first(&rest, '\n') {
            Some(p) => {
                let rn = rest.len();
                let piece = subvec(&rest, 0, p);
                let next = subvec(&rest, p + 1, rn);
                proof {
                    assert(piece@ =~= rest0.take(p as int));
                    assert(next@ =~= rest0.skip(p + 1));
                }
                let ghost out0 = out@;
                let stripped = strip_cr_exec(piece);
                out.push(stripped);
                rest = next;
                proof {
                    assert(split_lines(rest0) == seq![strip_cr(rest0.take(p as int))]
                        + split_lines(rest0.skip(p + 1)));
                    assert(lines_view(out@) =~= lines_view(out0).push(
                        strip_cr(rest0.take(p as int)),
                    ));
                    assert(lines_view(out@) + split_lines(rest@) =~= split_lines(v@));
                }
            },
            None => {
                let stripped = strip_cr_exec(rest);
                out.push(stripped);
                proof {
                    assert(split_lines(rest0) =~= seq![strip_cr(rest0)]);
                    assert(lines_view(out@) =~= split_lines(v@));
                }
                return out;
            },
        }
    }
}

/// Relies on `String::push`: appends the character to the end of the string.
#[verifier::external_body]
pub fn push_char(s: &mut String, c: char)
    ensures
        final(s)@ == old(s)@.push(c),
{
    s.push(c);
}

pub fn chars_to_string(v: &Vec<char>) -> (r: String)
    ensures
        r@ == v@,
{
    let mut r = String::new();
    let mut i: usize = 0;
    while i < v.len()
        invariant
            0 <= i <= v@.len(),
            r@ == v@.take(i as int),
        decreases v@.len() - i,
    {
        push_char(&mut r, v[i]);
        assert(v@.take(i + 1) == v@.take(i as int).push(v@[i as int]));
        i += 1;
    }
    assert(v@.take(v@.len() as int) == v@);
    r
}

/// Whether the characters equal the given pattern.
pub fn chars_eq(v: &Vec<char>, pat: &str) -> (r: bool)
    ensures
        r == (v@ == pat@),
{
    let n = pat.unicode_len();
    if v.len() != n {
        return false;
    }
    let mut i: usize = 0;
    while i < n
        invariant
            0 <= i <= n,
            n == v@.len() == pat@.len(),
            forall|k: int| 0 <= k < i ==> v@[k] == pat@[k],
        decreases n - i,
    {
        if v[i] != pat.get_char(i) {
            return false;
        }
        i += 1;
    }
    proof {
        assert(v@ =~= pat@);
    }
    true
}

pub fn str_to_chars(s: &str) -> (r: Vec<char>)
    ensures
        r@ == s@,
{
    let n = s.unicode_len();
    let mut r: Vec<char> = Vec::new();
    let mut i: usize = 0;
    while i < n
        invariant
            n == s@.len(),
            0 <= i <= n,
            r@ == s@.take(i as int),
        decreases n - i,
    {
        let c = s.get_char(i);
        r.push(c);
        assert(s@.take(i + 1) == s@.take(i as int).push(s@[i as int]));
        i += 1;
    }
    assert(s@.take(n as int) == s@);
    r
}

} // verus!
