//! Numeric text: the grammar of floating-point tokens, exact truncation of
//! such a token to a 64-bit integer, and decimal rendering of integers.
//!
//! A token is accepted exactly when it follows the floating-point grammar
//! that std documents for float parsing: an optional sign, then one of
//! `inf`, `infinity`, `nan` (any letter case) or a number
//! `digits [ '.' digits ] [ ('e'|'E') [sign] digits ]` with at least one
//! mantissa digit.

use vstd::prelude::*;
use vstd::arithmetic::div_mod::{lemma_basic_div, lemma_fundamental_div_mod_converse};
use crate::strutil::{subvec, is_space_char};

verus! {

/// Saturation cut-off for digit accumulation: `pow10(20)`, which already
/// exceeds both `i64::MAX` and any possible sequence length.
pub const BIG_CUT: u128 = 100000000000000000000;

pub open spec fn is_digit_char(c: char) -> bool {
    '0' <= c && c <= '9'
}

/// The numeric value of a digit character; 0 for anything else.
pub open spec fn digit_val(c: char) -> int {
    if is_digit_char(c) {
        c as u32 - '0' as u32
    } else {
        0
    }
}

/// ASCII lower-casing of a single character.
pub open spec fn lc_ascii(c: char) -> char {
    if c == 'I' {
        'i'
    } else if c == 'N' {
        'n'
    } else if c == 'F' {
        'f'
    } else if c == 'T' {
        't'
    } else if c == 'Y' {
        'y'
    } else if c == 'A' {
        'a'
    } else {
        c
    }
}

/// First index at or after `i` whose character is not a decimal digit;
/// `s.len()` when the digits run to the end.
pub open spec fn skip_digits(s: Seq<char>, i: int) -> int
    decreases s.len() - i,
{
    if i < 0 || i >= s.len() {
        s.len() as int
    } else if is_digit_char(s[i]) {
        skip_digits(s, i + 1)
    } else {
        i
    }
}

/// Where the mantissa starts: 1 when a sign is present, else 0.
pub open spec fn sign_end(s: Seq<char>) -> int {
    if s.len() > 0 && (s[0] == '+' || s[0] == '-') {
        1
    } else {
        0
    }
}

pub open spec fn is_neg_text(s: Seq<char>) -> bool {
    s.len() > 0 && s[0] == '-'
}

/// `inf` or `infinity` (any letter case) from position `a` to the end.
pub open spec fn is_inf_from(s: Seq<char>, a: int) -> bool {
    (s.len() - a == 3 && lc_ascii(s[a]) == 'i' && lc_ascii(s[a + 1]) == 'n' && lc_ascii(s[a + 2])
        == 'f') || (s.len() - a == 8 && lc_ascii(s[a]) == 'i' && lc_ascii(s[a + 1]) == 'n'
        && lc_ascii(s[a + 2]) == 'f' && lc_ascii(s[a + 3]) == 'i' && lc_ascii(s[a + 4]) == 'n'
        && lc_ascii(s[a + 5]) == 'i' && lc_ascii(s[a + 6]) == 't' && lc_ascii(s[a + 7]) == 'y')
}

/// `nan` (any letter case) from position `a` to the end.
pub open spec fn is_nan_from(s: Seq<char>, a: int) -> bool {
    s.len() - a == 3 && lc_ascii(s[a]) == 'n' && lc_ascii(s[a + 1]) == 'a' && lc_ascii(s[a + 2])
        == 'n'
}

/// End of the fractional digits of the mantissa that starts at `a`.
pub open spec fn mantissa_end(s: Seq<char>, a: int) -> int {
    let d1 = skip_digits(s, a);
    if d1 < s.len() && s[d1] == '.' {
        skip_digits(s, d1 + 1)
    } else {
        d1
    }
}

/// The mantissa starting at `a` holds at least one digit.
pub open spec fn mantissa_has_digits(s: Seq<char>, a: int) -> bool {
    let d1 = skip_digits(s, a);
    d1 > a || (d1 < s.len() && s[d1] == '.' && skip_digits(s, d1 + 1) > d1 + 1)
}

/// From `q` on, either nothing or a well-formed exponent part.
pub open spec fn exp_ok_from(s: Seq<char>, q: int) -> bool {
    if q >= s.len() {
        true
    } else if s[q] == 'e' || s[q] == 'E' {
        let r = if q + 1 < s.len() && (s[q + 1] == '+' || s[q + 1] == '-') {
            q + 2
        } else {
            q + 1
        };
        r < s.len() && skip_digits(s, r) == s.len()
    } else {
        false
    }
}

/// Whether `s` is a floating-point token of the grammar above.
pub open spec fn is_float_text(s: Seq<char>) -> bool {
    let a = sign_end(s);
    is_inf_from(s, a) || is_nan_from(s, a) || (mantissa_has_digits(s, a) && exp_ok_from(
        s,
        mantissa_end(s, a),
    ))
}

pub fn is_digit(c: char) -> (r: bool)
    ensures
        r == is_digit_char(c),
{
    '0' <= c && c <= '9'
}

fn lower_ascii(c: char) -> (r: char)
    ensures
        r == lc_ascii(c),
{
    if c == 'I' {
        'i'
    } else if c == 'N' {
        'n'
    } else if c == 'F' {
        'f'
    } else if c == 'T' {
        't'
    } else if c == 'Y' {
        'y'
    } else if c == 'A' {
        'a'
    } else {
        c
    }
}

fn skip_digits_exec(v: &Vec<char>, from: usize) -> (r: usize)
    requires
        from <= v@.len(),
    ensures
        r == skip_digits(v@, from as int),
        from <= r <= v@.len(),
        forall|k: int| from <= k < r ==> is_digit_char(v@[k]),
    decreases v@.len() - from,
{
    let n = v.len();
    let mut i: usize = from;
    while i < n && is_digit(v[i])
        invariant
            from <= i <= n,
            n == v@.len(),
            skip_digits(v@, from as int) == skip_digits(v@, i as int),
            forall|k: int| from <= k < i ==> is_digit_char(v@[k]),
        decreases n - i,
    {
        i += 1;
    }
    i
}

fn match_special(v: &Vec<char>, a: usize) -> (r: (bool, bool))
    requires
        a <= v@.len(),
    ensures
        r.0 == is_inf_from(v@, a as int),
        r.1 == is_nan_from(v@, a as int),
{
    let n = v.len();
    let inf = (n - a == 3 && lower_ascii(v[a]) == 'i' && lower_ascii(v[a + 1]) == 'n'
        && lower_ascii(v[a + 2]) == 'f') || (n - a == 8 && lower_ascii(v[a]) == 'i' && lower_ascii(
        v[a + 1],
    ) == 'n' && lower_ascii(v[a + 2]) == 'f' && lower_ascii(v[a + 3]) == 'i' && lower_ascii(
        v[a + 4],
    ) == 'n' && lower_ascii(v[a + 5]) == 'i' && lower_ascii(v[a + 6]) == 't' && lower_ascii(
        v[a + 7],
    ) == 'y');
    let nan = n - a == 3 && lower_ascii(v[a]) == 'n' && lower_ascii(v[a + 1]) == 'a' && lower_ascii(
        v[a + 2],
    ) == 'n';
    (inf, nan)
}

/// Whether the characters form a floating-point token.
pub fn is_float_chars(v: &Vec<char>) -> (r: bool)
    ensures
        r == is_float_text(v@),
{
    let n = v.len();
    let a: usize = if n > 0 && (v[0] == '+' || v[0] == '-') {
        1
    } else {
        0
    };
    let (inf, nan) = match_special(v, a);
    if inf || nan {
        return true;
    }
    let d1 = skip_digits_exec(v, a);
    let has_dot = d1 < n && v[d1] == '.';
    let frac_end = if has_dot {
        skip_digits_exec(v, d1 + 1)
    } else {
        d1
    };
    let has_digits = d1 > a || (has_dot && frac_end > d1 + 1);
    if !has_digits {
        return false;
    }
    // exponent part
    if frac_end == n {
        return true;
    }
    let q = frac_end;
    if !(v[q] == 'e' || v[q] == 'E') {
        return false;
    }
    let r: usize = if q + 1 < n && (v[q + 1] == '+' || v[q + 1] == '-') {
        q + 2
    } else {
        q + 1
    };
    if r >= n {
        return false;
    }
    let d3 = skip_digits_exec(v, r);
    d3 == n
}

/// The value of a sequence of digit characters read as a decimal numeral.
pub open spec fn digits_val(s: Seq<char>) -> nat
    decreases s.len(),
{
    if s.len() == 0 {
        0
    } else {
        (digits_val(s.drop_last()) * 10 + digit_val(s.last())) as nat
    }
}

pub open spec fn pow10(n: nat) -> nat
    decreases n,
{
    if n == 0 {
        1
    } else {
        10 * pow10((n - 1) as nat)
    }
}

pub proof fn lemma_pow10_pos(n: nat)
    ensures
        pow10(n) >= 1,
    decreases n,
{
    if n > 0 {
        lemma_pow10_pos((n - 1) as nat);
    }
}

pub proof fn lemma_pow10_mono(a: nat, b: nat)
    requires
        a <= b,
    ensures
        pow10(a) <= pow10(b),
    decreases b,
{
    if a < b {
        lemma_pow10_mono(a, (b - 1) as nat);
        lemma_pow10_pos((b - 1) as nat);
    }
}

pub proof fn lemma_pow10_add(a: nat, b: nat)
    ensures
        pow10(a + b) == pow10(a) * pow10(b),
    decreases a,
{
    if a == 0 {
        assert(pow10(b) == 1 * pow10(b));
    } else {
        lemma_pow10_add((a - 1) as nat, b);
        assert(pow10(a + b) == 10 * pow10((a + b - 1) as nat));
        assert(pow10((a - 1) as nat + b) == pow10((a - 1) as nat) * pow10(b));
        assert(10 * (pow10((a - 1) as nat) * pow10(b)) == (10 * pow10((a - 1) as nat)) * pow10(b))
            by (nonlinear_arith);
    }
}

pub proof fn lemma_pow10_20()
    ensures
        pow10(20) == BIG_CUT as nat,
{
    reveal_with_fuel(pow10, 21);
    assert(pow10(20) == 100000000000000000000);
}

pub proof fn lemma_digits_val_append(s: Seq<char>, c: char)
    ensures
        digits_val(s.push(c)) == digits_val(s) * 10 + digit_val(c),
{
    assert(s.push(c).drop_last() =~= s);
    assert(s.push(c).last() == c);
}

pub proof fn lemma_digits_val_bound(s: Seq<char>)
    ensures
        digits_val(s) < pow10(s.len()),
    decreases s.len(),
{
    if s.len() == 0 {
    } else {
        lemma_digits_val_bound(s.drop_last());
        assert(digit_val(s.last()) <= 9);
        assert(digits_val(s.drop_last()) * 10 <= (pow10((s.len() - 1) as nat) - 1) * 10)
            by (nonlinear_arith)
            requires
                digits_val(s.drop_last()) <= pow10((s.len() - 1) as nat) - 1,
        ;
    }
}

pub proof fn lemma_digits_val_split(s: Seq<char>, k: int)
    requires
        0 <= k <= s.len(),
    ensures
        digits_val(s) == digits_val(s.take(k)) * pow10((s.len() - k) as nat) + digits_val(
            s.skip(k),
        ),
    decreases s.len(),
{
    if k == s.len() {
        assert(s.take(k) =~= s);
        assert(s.skip(k) =~= Seq::<char>::empty());
        assert(digits_val(s) == digits_val(s) * 1 + 0);
    } else {
        let dl = s.drop_last();
        let c = s.last();
        lemma_digits_val_split(dl, k);
        assert(dl.take(k) =~= s.take(k));
        assert(s.skip(k) =~= dl.skip(k).push(c));
        lemma_digits_val_append(dl.skip(k), c);
        let a = digits_val(s.take(k));
        let p = pow10((s.len() - 1 - k) as nat);
        let b = digits_val(dl.skip(k));
        let d = digit_val(c);
        assert(digits_val(s) == (a * p + b) * 10 + d);
        assert((a * p + b) * 10 + d == a * (10 * p) + (b * 10 + d)) by (nonlinear_arith);
        assert(pow10((s.len() - k) as nat) == 10 * p);
    }
}

/// Truncating a digit string by its last `m` places is division by `pow10(m)`.
pub proof fn lemma_digits_val_div(s: Seq<char>, m: int)
    requires
        0 <= m <= s.len(),
    ensures
        digits_val(s) / pow10(m as nat) == digits_val(s.take(s.len() - m)),
{
    let k = s.len() - m;
    lemma_digits_val_split(s, k);
    lemma_digits_val_bound(s.skip(k));
    lemma_pow10_pos(m as nat);
    lemma_fundamental_div_mod_converse(
        digits_val(s) as int,
        pow10(m as nat) as int,
        digits_val(s.take(k)) as int,
        digits_val(s.skip(k)) as int,
    );
}

fn digit_of(c: char) -> (d: u8)
    requires
        is_digit_char(c),
    ensures
        d as int == digit_val(c),
{
    ((c as u32) - ('0' as u32)) as u8
}

/// Reads the decimal value of `v[from..to]`, which must be all digits,
/// saturating once the value reaches `BIG_CUT`.
fn digits_acc(v: &Vec<char>, from: usize, to: usize) -> (r: (u128, bool))
    requires
        from <= to <= v@.len(),
        forall|k: int| from <= k < to ==> is_digit_char(v@[k]),
    ensures
        ({
            let dv = digits_val(v@.subrange(from as int, to as int));
            if r.1 {
                dv >= BIG_CUT as nat
            } else {
                r.0 as nat == dv && dv < BIG_CUT as nat
            }
        }),
{
    let mut acc: u128 = 0;
    let mut sat: bool = false;
    let mut i: usize = from;
    while i < to
        invariant
            from <= i <= to <= v@.len(),
            forall|k: int| from <= k < to ==> is_digit_char(v@[k]),
            ({
                let dv = digits_val(v@.subrange(from as int, i as int));
                if sat {
                    dv >= BIG_CUT as nat
                } else {
                    acc as nat == dv && dv < BIG_CUT as nat
                }
            }),
        decreases to - i,
    {
        let c = v[i];
        let d = digit_of(c);
        proof {
            assert(v@.subrange(from as int, i + 1) =~= v@.subrange(from as int, i as int).push(
                v@[i as int],
            ));
            lemma_digits_val_append(v@.subrange(from as int, i as int), v@[i as int]);
        }
        if sat {
        } else {
            let next = acc * 10 + (d as u128);
            if next >= BIG_CUT {
                sat = true;
            } else {
                acc = next;
            }
        }
        i += 1;
    }
    (acc, sat)
}

/// Clamping an unbounded integer into the `i64` range.
pub open spec fn clamp_i64(v: int) -> int {
    if v > i64::MAX as int {
        i64::MAX as int
    } else if v < i64::MIN as int {
        i64::MIN as int
    } else {
        v
    }
}

/// The signed value of the exponent part that starts at `q` (0 when absent).
pub open spec fn exp_val(s: Seq<char>, q: int) -> int {
    if q >= s.len() {
        0
    } else {
        let r = if q + 1 < s.len() && (s[q + 1] == '+' || s[q + 1] == '-') {
            q + 2
        } else {
            q + 1
        };
        let m = digits_val(s.subrange(r, s.len() as int)) as int;
        if q + 1 < s.len() && s[q + 1] == '-' {
            -m
        } else {
            m
        }
    }
}

/// The magnitude of a numeric token, truncated toward zero: the value of
/// all mantissa digits shifted by the exponent less the fraction length.
pub open spec fn float_mag(s: Seq<char>) -> nat {
    let a = sign_end(s);
    let d1 = skip_digits(s, a);
    let me = mantissa_end(s, a);
    let ip = s.subrange(a, d1);
    let fp = if d1 < s.len() && s[d1] == '.' {
        s.subrange(d1 + 1, me)
    } else {
        Seq::<char>::empty()
    };
    let digs = ip + fp;
    let shift = exp_val(s, me) - fp.len();
    if shift >= 0 {
        (digits_val(digs) * pow10(shift as nat)) as nat
    } else {
        digits_val(digs) / pow10((-shift) as nat)
    }
}

/// What truncating a floating-point token toward zero yields, clamped to
/// the `i64` range; `inf` saturates and `nan` maps to 0.
pub open spec fn float_trunc(s: Seq<char>) -> int {
    let a = sign_end(s);
    if is_inf_from(s, a) {
        if is_neg_text(s) {
            i64::MIN as int
        } else {
            i64::MAX as int
        }
    } else if is_nan_from(s, a) {
        0
    } else {
        let m = float_mag(s) as int;
        clamp_i64(
            if is_neg_text(s) {
                -m
            } else {
                m
            },
        )
    }
}

/// All characters of `s` in `[i, skip_digits(s, i))` are digits, and the
/// bound itself lies between `i` and `s.len()`.
pub proof fn lemma_skip_digits_props(s: Seq<char>, i: int)
    requires
        0 <= i <= s.len(),
    ensures
        i <= skip_digits(s, i) <= s.len(),
        forall|k: int| i <= k < skip_digits(s, i) ==> is_digit_char(s[k]),
    decreases s.len() - i,
{
    if i < s.len() && is_digit_char(s[i]) {
        lemma_skip_digits_props(s, i + 1);
    }
}


/// Scans the exponent part that starts at `me`: its sign, and its digit
/// value saturated at `BIG_CUT`.
fn exp_scan(v: &Vec<char>, me: usize) -> (r: (bool, u128, bool))
    requires
        me <= v@.len(),
        exp_ok_from(v@, me as int),
    ensures
        ({
            let e = exp_val(v@, me as int);
            if r.2 {
                if r.0 {
                    e <= -(BIG_CUT as int)
                } else {
                    e >= BIG_CUT as int
                }
            } else {
                r.1 < BIG_CUT && e == if r.0 {
                    -(r.1 as int)
                } else {
                    r.1 as int
                }
            }
        }),
{
    let n = v.len();
    if me >= n {
        return (false, 0, false);
    }
    let exp_neg = me + 1 < n && v[me + 1] == '-';
    let r0: usize = if me + 1 < n && (v[me + 1] == '+' || v[me + 1] == '-') {
        me + 2
    } else {
        me + 1
    };
    let d3 = skip_digits_exec(v, r0);
    proof {
        assert(d3 == n);
    }
    let acc = digits_acc(v, r0, n);
    (exp_neg, acc.0, acc.1)
}

/// Multiplies `dv` by `pow10(sh)`, reporting instead when the product
/// leaves the `i64` range.
fn mul_pow10_clamped(dv: u128, sh: usize) -> (r: (u128, bool))
    requires
        dv < BIG_CUT,
        sh < 20,
    ensures
        ({
            let m = dv as nat * pow10(sh as nat);
            if r.1 {
                m > i64::MAX as nat
            } else {
                r.0 as nat == m && m <= i64::MAX as nat
            }
        }),
{
    let mut mag: u128 = dv;
    let mut k: usize = 0;
    proof {
        assert(pow10(0) == 1);
    }
    while k < sh
        invariant
            0 <= k <= sh < 20,
            mag as nat == dv as nat * pow10(k as nat),
            mag < 1000000000000000000000u128,
        decreases sh - k,
    {
        if mag > i64::MAX as u128 {
            // the full product only grows from here
            proof {
                lemma_pow10_add(k as nat, (sh - k) as nat);
                let p1 = pow10(k as nat) as int;
                let p2 = pow10((sh - k) as nat) as int;
                lemma_pow10_pos((sh - k) as nat);
                assert(dv as int * (p1 * p2) == (dv as int * p1) * p2) by (nonlinear_arith);
                assert((dv as int * p1) * p2 >= dv as int * p1) by (nonlinear_arith)
                    requires
                        dv as int * p1 >= 0,
                        p2 >= 1,
                ;
            }
            return (0, true);
        }
        let next = mag * 10;
        proof {
            assert(pow10((k + 1) as nat) == 10 * pow10(k as nat));
            assert(dv as nat * (10 * pow10(k as nat)) == (dv as nat * pow10(k as nat)) * 10)
                by (nonlinear_arith);
        }
        mag = next;
        k += 1;
    }
    if mag > i64::MAX as u128 {
        return (0, true);
    }
    (mag, false)
}

/// Truncation of a floating-point token toward zero, as `float_trunc`
/// states it: exact while the value fits in an `i64`, clamped otherwise.
#[verifier::rlimit(100)]
pub fn trunc_float_chars(v: &Vec<char>) -> (r: i64)
    requires
        is_float_text(v@),
    ensures
        r as int == float_trunc(v@),
{
    let ghost s = v@;
    let n = v.len();
    let neg = n > 0 && v[0] == '-';
    let a: usize = if n > 0 && (v[0] == '+' || v[0] == '-') {
        1
    } else {
        0
    };
    proof {
        assert(a as int == sign_end(s));
        assert(neg == is_neg_text(s));
    }
    let (inf, nan) = match_special(v, a);
    if inf {
        return if neg {
            i64::MIN
        } else {
            i64::MAX
        };
    }
    if nan {
        return 0;
    }
    let d1 = skip_digits_exec(v, a);
    let has_dot = d1 < n && v[d1] == '.';
    let me = if has_dot {
        skip_digits_exec(v, d1 + 1)
    } else {
        d1
    };
    proof {
        assert(me as int == mantissa_end(s, a as int));
    }
    let ip = subvec(v, a, d1);
    let fp = if has_dot {
        subvec(v, d1 + 1, me)
    } else {
        Vec::new()
    };
    let fplen = fp.len();
    let ghost fp_seq = fp@;
    let mut digs = ip;
    let mut fp_moved = fp;
    digs.append(&mut fp_moved);
    proof {
        assert(digs@ == s.subrange(a as int, d1 as int) + fp_seq);
        assert(forall|k: int| 0 <= k < digs@.len() ==> is_digit_char(#[trigger] digs@[k])) by {
            assert(forall|k: int|
                0 <= k < d1 - a ==> #[trigger] digs@[k] == s[a + k] && is_digit_char(s[a + k]));
            assert(forall|k: int|
                d1 - a <= k < digs@.len() ==> #[trigger] digs@[k] == s[d1 + 1 + (k - (d1 - a))]
                    && is_digit_char(s[d1 + 1 + (k - (d1 - a))]));
        }
    }
    let dlen = digs.len();
    let (dv, dv_sat) = digits_acc(&digs, 0, dlen);
    let ghost dvv = digits_val(digs@);
    proof {
        assert(digs@.subrange(0, digs@.len() as int) =~= digs@);
    }
    let (exp_neg, em, em_sat) = exp_scan(v, me);
    let ghost e = exp_val(s, me as int);
    let ghost shift = e - fplen as int;
    proof {
        assert(float_mag(s) == if shift >= 0 {
            (dvv * pow10(shift as nat)) as nat
        } else {
            dvv / pow10((-shift) as nat)
        });
        assert(float_trunc(s) == clamp_i64(
            if neg {
                -(float_mag(s) as int)
            } else {
                float_mag(s) as int
            },
        ));
    }
    if !dv_sat && dv == 0 {
        proof {
            if shift >= 0 {
                assert(0 * pow10(shift as nat) == 0) by (nonlinear_arith);
            } else {
                lemma_pow10_pos((-shift) as nat);
                lemma_basic_div(0, pow10((-shift) as nat) as int);
            }
            assert(float_mag(s) == 0);
        }
        return 0;
    }
    proof {
        lemma_pow10_20();
        assert(dvv >= 1);
    }
    if em_sat {
        if exp_neg {
            // exponent at or below -BIG_CUT: every digit is shifted away
            proof {
                assert(shift < 0);
                assert((-shift) as nat >= digs@.len());
                lemma_digits_val_bound(digs@);
                lemma_pow10_mono(digs@.len() as nat, (-shift) as nat);
                lemma_basic_div(dvv as int, pow10((-shift) as nat) as int);
                assert(float_mag(s) == 0);
            }
            return 0;
        } else {
            // exponent at or above BIG_CUT: far beyond the i64 range
            proof {
                assert(shift >= 20);
                lemma_pow10_mono(20, shift as nat);
                let p = pow10(shift as nat) as int;
                assert(dvv as int * p >= p) by (nonlinear_arith)
                    requires
                        dvv >= 1,
                        p >= 0,
                ;
                assert(float_mag(s) > i64::MAX as int);
            }
            return if neg {
                i64::MIN
            } else {
                i64::MAX
            };
        }
    }
    // |e| == em exactly
    let e_i: i128 = if exp_neg {
        -(em as i128)
    } else {
        em as i128
    };
    let shift_i: i128 = e_i - (fplen as i128);
    proof {
        assert(shift_i as int == shift);
    }
    if shift_i >= 0 {
        if shift_i >= 20 || dv_sat {
            proof {
                lemma_pow10_pos(shift as nat);
                let p = pow10(shift as nat) as int;
                if shift >= 20 {
                    lemma_pow10_mono(20, shift as nat);
                    assert(dvv as int * p >= p) by (nonlinear_arith)
                        requires
                            dvv >= 1,
                            p >= 0,
                    ;
                } else {
                    assert(dvv as int * p >= dvv) by (nonlinear_arith)
                        requires
                            dvv >= 0,
                            p >= 1,
                    ;
                }
                assert(float_mag(s) > i64::MAX as int);
            }
            return if neg {
                i64::MIN
            } else {
                i64::MAX
            };
        }
        let sh: usize = shift_i as usize;
        let (mag, ovf) = mul_pow10_clamped(dv, sh);
        if ovf {
            return if neg {
                i64::MIN
            } else {
                i64::MAX
            };
        }
        if neg {
            return -(mag as i64);
        } else {
            return mag as i64;
        }
    } else {
        let m_u: u128 = (-shift_i) as u128;
        if m_u >= dlen as u128 {
            proof {
                lemma_digits_val_bound(digs@);
                lemma_pow10_mono(digs@.len() as nat, (-shift) as nat);
                lemma_basic_div(dvv as int, pow10((-shift) as nat) as int);
                assert(float_mag(s) == 0);
            }
            return 0;
        }
        let k: usize = dlen - (m_u as usize);
        let (dv2, dv2_sat) = digits_acc(&digs, 0, k);
        let ghost dv2v = digits_val(digs@.subrange(0, k as int));
        proof {
            lemma_digits_val_div(digs@, (-shift) as int);
            assert(digs@.take(k as int) =~= digs@.subrange(0, k as int));
            assert(float_mag(s) == dv2v);
        }
        if dv2_sat {
            proof {
                assert(float_mag(s) > i64::MAX as int);
            }
            return if neg {
                i64::MIN
            } else {
                i64::MAX
            };
        }
        if dv2 > i64::MAX as u128 {
            return if neg {
                i64::MIN
            } else {
                i64::MAX
            };
        }
        if neg {
            return -(dv2 as i64);
        } else {
            return dv2 as i64;
        }
    }
}

/// The digit character for a value between 0 and 9.
pub open spec fn digit_char_of(d: int) -> char {
    if d == 0 {
        '0'
    } else if d == 1 {
        '1'
    } else if d == 2 {
        '2'
    } else if d == 3 {
        '3'
    } else if d == 4 {
        '4'
    } else if d == 5 {
        '5'
    } else if d == 6 {
        '6'
    } else if d == 7 {
        '7'
    } else if d == 8 {
        '8'
    } else {
        '9'
    }
}

/// The decimal numeral of `n`, most significant digit first, no leading
/// zero except for `n == 0` itself.
pub open spec fn dec_digits(n: nat) -> Seq<char>
    decreases n,
{
    if n < 10 {
        seq![digit_char_of(n as int)]
    } else {
        dec_digits(n / 10).push(digit_char_of((n % 10) as int))
    }
}

/// The decimal rendering of a signed integer.
pub open spec fn i64_dec_str(t: int) -> Seq<char> {
    if t < 0 {
        seq!['-'] + dec_digits((-t) as nat)
    } else {
        dec_digits(t as nat)
    }
}

fn digit_char_exec(d: u64) -> (c: char)
    requires
        d < 10,
    ensures
        c == digit_char_of(d as int),
{
    if d == 0 {
        '0'
    } else if d == 1 {
        '1'
    } else if d == 2 {
        '2'
    } else if d == 3 {
        '3'
    } else if d == 4 {
        '4'
    } else if d == 5 {
        '5'
    } else if d == 6 {
        '6'
    } else if d == 7 {
        '7'
    } else if d == 8 {
        '8'
    } else {
        '9'
    }
}

pub fn u64_to_dec_chars(m: u64) -> (r: Vec<char>)
    ensures
        r@ == dec_digits(m as nat),
{
    let mut digits: Vec<char> = Vec::new();
    if m == 0 {
        digits.push('0');
        assert(digits@ =~= dec_digits(0));
        return digits;
    }
    let mut x = m;
    proof {
        assert(dec_digits(m as nat) =~= dec_digits(m as nat) + digits@);
    }
    while x > 0
        invariant
            ({
                if x > 0 {
                    dec_digits(m as nat) == dec_digits(x as nat) + digits@
                } else {
                    digits@ == dec_digits(m as nat)
                }
            }),
        decreases x,
    {
        let d = x % 10;
        let c = digit_char_exec(d);
        let ghost old_digits = digits@;
        let ghost old_x = x;
        digits.insert(0, c);
        x = x / 10;
        proof {
            assert(digits@ =~= seq![c] + old_digits);
            if old_x >= 10 {
                assert(dec_digits(old_x as nat) == dec_digits((old_x / 10) as nat).push(c));
                assert(dec_digits((old_x / 10) as nat).push(c) + old_digits =~= dec_digits(
                    (old_x / 10) as nat,
                ) + (seq![c] + old_digits));
            } else {
                assert(x == 0);
                assert(dec_digits(old_x as nat) =~= seq![c]);
                assert(seq![c] + old_digits =~= digits@);
            }
        }
    }
    digits
}

pub fn i64_to_dec_chars(t: i64) -> (r: Vec<char>)
    ensures
        r@ == i64_dec_str(t as int),
{
    if t >= 0 {
        u64_to_dec_chars(t as u64)
    } else {
        let m: u64 = (-(t as i128)) as u64;
        let ds = u64_to_dec_chars(m);
        let mut r: Vec<char> = Vec::new();
        r.push('-');
        let mut ds_moved = ds;
        r.append(&mut ds_moved);
        proof {
            assert(r@ =~= seq!['-'] + dec_digits(m as nat));
        }
        r
    }
}

/// Every character of the numeral is a digit, its value reads back to `n`,
/// and it is never empty.
pub proof fn lemma_dec_digits_val(n: nat)
    ensures
        dec_digits(n).len() >= 1,
        forall|k: int| 0 <= k < dec_digits(n).len() ==> is_digit_char(#[trigger] dec_digits(n)[k]),
        digits_val(dec_digits(n)) == n,
    decreases n,
{
    if n < 10 {
        let s1 = seq![digit_char_of(n as int)];
        assert(s1.drop_last() =~= Seq::<char>::empty());
        assert(s1.last() == digit_char_of(n as int));
        assert(digits_val(s1) == digits_val(Seq::<char>::empty()) * 10 + digit_val(
            digit_char_of(n as int),
        ));
    } else {
        lemma_dec_digits_val(n / 10);
        lemma_digits_val_append(dec_digits(n / 10), digit_char_of((n % 10) as int));
    }
}

pub proof fn lemma_skip_digits_all(s: Seq<char>, i: int)
    requires
        0 <= i <= s.len(),
        forall|k: int| i <= k < s.len() ==> is_digit_char(s[k]),
    ensures
        skip_digits(s, i) == s.len(),
    decreases s.len() - i,
{
    if i < s.len() {
        lemma_skip_digits_all(s, i + 1);
    }
}

/// Printing a 64-bit integer in decimal and truncating the token again
/// gives the integer back.
pub proof fn lemma_trunc_of_dec(t: int)
    requires
        i64::MIN as int <= t <= i64::MAX as int,
    ensures
        is_float_text(i64_dec_str(t)),
        float_trunc(i64_dec_str(t)) == t,
{
    let s = i64_dec_str(t);
    let m = if t < 0 {
        (-t) as nat
    } else {
        t as nat
    };
    lemma_dec_digits_val(m);
    let a = sign_end(s);
    if t < 0 {
        assert(s[0] == '-');
        assert(a == 1);
        assert(s.subrange(1, s.len() as int) =~= dec_digits(m));
        assert(forall|k: int| 1 <= k < s.len() ==> is_digit_char(s[k])) by {
            assert(forall|k: int|
                1 <= k < s.len() ==> s[k] == #[trigger] dec_digits(m)[k - 1]);
        }
        lemma_skip_digits_all(s, 1);
    } else {
        assert(s =~= dec_digits(m));
        assert(is_digit_char(s[0]));
        assert(a == 0);
        lemma_skip_digits_all(s, 0);
    }
    let d1 = skip_digits(s, a);
    assert(d1 == s.len());
    assert(is_digit_char(s[a]));
    assert(lc_ascii(s[a]) != 'i' && lc_ascii(s[a]) != 'n');
    assert(!is_inf_from(s, a) && !is_nan_from(s, a));
    assert(mantissa_has_digits(s, a));
    assert(mantissa_end(s, a) == d1);
    assert(exp_ok_from(s, d1));
    assert(is_float_text(s));
    // the magnitude is the numeral's own value
    let ip = s.subrange(a, d1);
    assert(ip =~= dec_digits(m));
    let digs = ip + Seq::<char>::empty();
    assert(digs =~= dec_digits(m));
    assert(exp_val(s, d1) == 0);
    assert(float_mag(s) == (digits_val(digs) * pow10(0)) as nat);
    assert(digits_val(digs) * 1 == digits_val(digs));
    assert(float_mag(s) == m);
    if t < 0 {
        assert(is_neg_text(s));
        assert(float_trunc(s) == clamp_i64(-(m as int)));
    } else {
        assert(!is_neg_text(s));
        assert(float_trunc(s) == clamp_i64(m as int));
    }
}

/// No character of a floating-point token is whitespace.
pub proof fn lemma_float_text_no_space(s: Seq<char>)
    requires
        is_float_text(s),
    ensures
        forall|k: int| 0 <= k < s.len() ==> !is_space_char(#[trigger] s[k]),
{
    let a = sign_end(s);
    if is_inf_from(s, a) || is_nan_from(s, a) {
        assert forall|k: int| 0 <= k < s.len() implies !is_space_char(s[k]) by {
            if k < a {
                assert(s[k] == '+' || s[k] == '-');
            } else {
                assert(lc_ascii(s[k]) == 'i' || lc_ascii(s[k]) == 'n' || lc_ascii(s[k]) == 'f'
                    || lc_ascii(s[k]) == 't' || lc_ascii(s[k]) == 'y' || lc_ascii(s[k]) == 'a');
            }
        }
    } else {
        let d1 = skip_digits(s, a);
        let me = mantissa_end(s, a);
        lemma_skip_digits_props(s, a);
        let has_dot = d1 < s.len() && s[d1] == '.';
        if has_dot {
            lemma_skip_digits_props(s, d1 + 1);
        }
        if me < s.len() {
            let r = if me + 1 < s.len() && (s[me + 1] == '+' || s[me + 1] == '-') {
                me + 2
            } else {
                me + 1
            };
            lemma_skip_digits_props(s, r);
            assert forall|k: int| 0 <= k < s.len() implies !is_space_char(s[k]) by {
                if k < a {
                } else if k < d1 {
                    assert(is_digit_char(s[k]));
                } else if has_dot && k == d1 {
                } else if k < me {
                    assert(is_digit_char(s[k]));
                } else if k == me {
                } else if k < r {
                } else {
                    assert(is_digit_char(s[k]));
                }
            }
        } else {
            assert forall|k: int| 0 <= k < s.len() implies !is_space_char(s[k]) by {
                if k < a {
                } else if k < d1 {
                    assert(is_digit_char(s[k]));
                } else if has_dot && k == d1 {
                } else {
                    assert(is_digit_char(s[k]));
                }
            }
        }
    }
}

/// No character of a decimal rendering is whitespace.
pub proof fn lemma_dec_str_no_space(t: int)
    ensures
        forall|k: int|
            0 <= k < i64_dec_str(t).len() ==> !is_space_char(#[trigger] i64_dec_str(t)[k]),
        i64_dec_str(t).len() >= 1,
{
    let s = i64_dec_str(t);
    if t < 0 {
        lemma_dec_digits_val((-t) as nat);
        assert forall|k: int| 0 <= k < s.len() implies !is_space_char(s[k]) by {
            if k == 0 {
                assert(s[0] == '-');
            } else {
                assert(s[k] == dec_digits((-t) as nat)[k - 1]);
                assert(is_digit_char(s[k]));
            }
        }
    } else {
        lemma_dec_digits_val(t as nat);
        assert forall|k: int| 0 <= k < s.len() implies !is_space_char(s[k]) by {
            assert(is_digit_char(s[k]));
        }
    }
}

} // verus!
