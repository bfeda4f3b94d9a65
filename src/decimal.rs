//! Decimal text to fixed-point integers: `[+]digits[.digits][(e|E)[+|-]digits]`,
//! scaled by a power of ten exactly and rounded half up at the last kept digit.

use vstd::prelude::*;

verus! {

/// `b` is an ASCII decimal digit.
pub open spec fn is_digit(b: u8) -> bool {
    48 <= b <= 57
}

/// Every byte of `s` is a decimal digit.
pub open spec fn all_digits(s: Seq<u8>) -> bool {
    forall|i: int| 0 <= i < s.len() ==> is_digit(#[trigger] s[i])
}

/// The value of a string of decimal digits (most significant first).
pub open spec fn digits_value(s: Seq<u8>) -> nat
    decreases s.len(),
{
    if s.len() == 0 {
        0
    } else {
        digits_value(s.drop_last()) * 10 + (s.last() - 48) as nat
    }
}

/// Ten to the power `k`.
pub open spec fn pow10(k: nat) -> nat
    decreases k,
{
    if k == 0 {
        1
    } else {
        10 * pow10((k - 1) as nat)
    }
}

/// End of the run of digits of `s` that starts at `i`.
pub open spec fn digits_end(s: Seq<u8>, i: int) -> int
    decreases s.len() - i,
{
    if 0 <= i < s.len() && is_digit(s[i]) {
        digits_end(s, i + 1)
    } else {
        i
    }
}

/// Length of the optional leading `+`.
pub open spec fn sign_len(s: Seq<u8>) -> int {
    if s.len() > 0 && s[0] == 43 {
        1
    } else {
        0
    }
}

/// End of the digits before the point.
pub open spec fn whole_end(s: Seq<u8>) -> int {
    digits_end(s, sign_len(s))
}

/// A point follows the leading digits.
pub open spec fn has_point(s: Seq<u8>) -> bool {
    0 <= whole_end(s) < s.len() && s[whole_end(s)] == 46
}

/// Start of the digits after the point (where the point would stand when
/// there is none).
pub open spec fn frac_start(s: Seq<u8>) -> int {
    if has_point(s) {
        whole_end(s) + 1
    } else {
        whole_end(s)
    }
}

/// End of the digits after the point.
pub open spec fn frac_end(s: Seq<u8>) -> int {
    if has_point(s) {
        digits_end(s, whole_end(s) + 1)
    } else {
        whole_end(s)
    }
}

/// An exponent mark (`e` or `E`) follows the digits.
pub open spec fn has_exponent(s: Seq<u8>) -> bool {
    0 <= frac_end(s) < s.len() && (s[frac_end(s)] == 101 || s[frac_end(s)] == 69)
}

/// The exponent carries a `-`.
pub open spec fn exp_negative(s: Seq<u8>) -> bool {
    0 <= frac_end(s) + 1 < s.len() && s[frac_end(s) + 1] == 45
}

/// Start of the exponent's digits.
pub open spec fn exp_start(s: Seq<u8>) -> int {
    let q = frac_end(s) + 1;
    if 0 <= q < s.len() && (s[q] == 43 || s[q] == 45) {
        q + 1
    } else {
        q
    }
}

/// `s` is a decimal: an optional `+`, one or more digits, optionally a point
/// and one or more digits, optionally `e` or `E`, an optional sign and one
/// or more digits.
pub open spec fn is_decimal(s: Seq<u8>) -> bool {
    &&& whole_end(s) > sign_len(s)
    &&& has_point(s) ==> frac_end(s) > whole_end(s) + 1
    &&& if has_exponent(s) {
        exp_start(s) < s.len() && digits_end(s, exp_start(s)) == s.len()
    } else {
        frac_end(s) == s.len()
    }
}

/// The digits before the point.
pub open spec fn whole_part(s: Seq<u8>) -> Seq<u8> {
    s.subrange(sign_len(s), whole_end(s))
}

/// The digits after the point (empty when there is no point).
pub open spec fn frac_part(s: Seq<u8>) -> Seq<u8> {
    s.subrange(frac_start(s), frac_end(s))
}

/// All digits of the significand, point removed.
pub open spec fn mantissa(s: Seq<u8>) -> Seq<u8> {
    whole_part(s) + frac_part(s)
}

/// The exponent's value (0 when there is none).
pub open spec fn exponent(s: Seq<u8>) -> int {
    if has_exponent(s) {
        let v = digits_value(s.subrange(exp_start(s), s.len() as int)) as int;
        if exp_negative(s) {
            -v
        } else {
            v
        }
    } else {
        0
    }
}

/// The power of ten that turns the significand's digits into the value
/// times `10^k`.
pub open spec fn shift(s: Seq<u8>, k: nat) -> int {
    k + exponent(s) - frac_part(s).len()
}

/// The decimal `s` times `10^k`, rounded half up: the digits of the
/// significand that fall below the units are dropped, and one is added when
/// the first dropped digit is 5 or more.
pub open spec fn scaled_decimal(s: Seq<u8>, k: nat) -> nat {
    shifted_value(mantissa(s), shift(s, k))
}

/// The digits `d` times `10^sh`, rounded half up: with a negative `sh` the
/// last `-sh` digits are dropped, and one is added when the first dropped
/// digit is 5 or more.
pub open spec fn shifted_value(d: Seq<u8>, sh: int) -> nat {
    if sh >= 0 {
        digits_value(d) * pow10(sh as nat)
    } else if -sh > d.len() {
        0
    } else {
        let c = d.len() + sh;
        digits_value(d.take(c)) + if d[c] >= 53 {
            1nat
        } else {
            0nat
        }
    }
}

/// End of the text before any exponent mark.
pub open spec fn exp_mark(s: Seq<u8>, i: int) -> int
    decreases s.len() - i,
{
    if 0 <= i < s.len() && s[i] != 101 && s[i] != 69 {
        exp_mark(s, i + 1)
    } else {
        i
    }
}

/// Some digit from 1 to 9 stands before any exponent mark.
pub open spec fn nonzero_significand(s: Seq<u8>) -> bool {
    exists|i: int| 0 <= i < exp_mark(s, 0) && 49 <= #[trigger] s[i] <= 57
}

pub(crate) proof fn lemma_pow10_add(a: nat, b: nat)
    ensures
        pow10(a + b) == pow10(a) * pow10(b),
    decreases a,
{
    if a > 0 {
        lemma_pow10_add((a - 1) as nat, b);
        assert(pow10(a) == 10 * pow10((a - 1) as nat));
        assert(pow10(a + b) == 10 * pow10((a - 1 + b) as nat));
        assert(((a - 1) as nat + b) as nat == (a - 1 + b) as nat);
        assert(10 * (pow10((a - 1) as nat) * pow10(b)) == (10 * pow10((a - 1) as nat)) * pow10(b))
            by (nonlinear_arith);
    } else {
        assert(pow10(0) == 1);
        assert(a + b == b);
    }
}

pub(crate) proof fn lemma_pow10_pos(a: nat)
    ensures
        pow10(a) >= 1,
    decreases a,
{
    if a > 0 {
        lemma_pow10_pos((a - 1) as nat);
    }
}

/// A string of `n` digits has a value below `10^n`.
pub(crate) proof fn lemma_digits_below(s: Seq<u8>)
    requires
        all_digits(s),
    ensures
        digits_value(s) < pow10(s.len()),
    decreases s.len(),
{
    if s.len() > 0 {
        let t = s.drop_last();
        assert(all_digits(t)) by {
            assert forall|i: int| 0 <= i < t.len() implies is_digit(#[trigger] t[i]) by {
                assert(t[i] == s[i]);
            }
        }
        lemma_digits_below(t);
        assert(is_digit(s[s.len() - 1]));
        let v = digits_value(t);
        let d = (s.last() - 48) as nat;
        let p = pow10(t.len());
        assert(v * 10 + d < 10 * p) by (nonlinear_arith)
            requires
                v < p,
                d < 10,
        ;
    }
}

/// A longer prefix of digits has at least the value of a shorter one.
pub(crate) proof fn lemma_digits_prefix(s: Seq<u8>, i: int, j: int)
    requires
        0 <= i <= j <= s.len(),
    ensures
        digits_value(s.subrange(0, i)) <= digits_value(s.subrange(0, j)),
    decreases j - i,
{
    if i < j {
        lemma_digits_prefix(s, i, j - 1);
        assert(s.subrange(0, j).drop_last() =~= s.subrange(0, j - 1));
    }
}

pub(crate) proof fn lemma_digits_end_bounds(s: Seq<u8>, i: int)
    requires
        0 <= i <= s.len(),
    ensures
        i <= digits_end(s, i) <= s.len(),
        forall|j: int| i <= j < digits_end(s, i) ==> is_digit(#[trigger] s[j]),
        digits_end(s, i) < s.len() ==> !is_digit(s[digits_end(s, i)]),
    decreases s.len() - i,
{
    if i < s.len() && is_digit(s[i]) {
        lemma_digits_end_bounds(s, i + 1);
    }
}

/// Beyond this magnitude an exponent decides the result by itself: the value
/// is zero or does not fit.
pub const EXP_CAP: u128 = 0x40_0000_0000_0000_0000;

proof fn lemma_pow10_mono(a: nat, b: nat)
    requires
        a <= b,
    ensures
        pow10(a) <= pow10(b),
    decreases b - a,
{
    if a < b {
        lemma_pow10_mono(a, (b - 1) as nat);
        lemma_pow10_pos((b - 1) as nat);
    }
}

proof fn lemma_pow10_twenty()
    ensures
        pow10(19) == 10_000_000_000_000_000_000,
        pow10(20) > u64::MAX,
{
    assert(pow10(0) == 1);
    assert(pow10(1) == 10);
    assert(pow10(2) == 100);
    assert(pow10(3) == 1000);
    assert(pow10(4) == 10000);
    assert(pow10(5) == 100000);
    assert(pow10(6) == 1000000);
    assert(pow10(7) == 10000000);
    assert(pow10(8) == 100000000);
    assert(pow10(9) == 1000000000);
    assert(pow10(10) == 10000000000);
    assert(pow10(11) == 100000000000);
    assert(pow10(12) == 1000000000000);
    assert(pow10(13) == 10000000000000);
    assert(pow10(14) == 100000000000000);
    assert(pow10(15) == 1000000000000000);
    assert(pow10(16) == 10000000000000000);
    assert(pow10(17) == 100000000000000000);
    assert(pow10(18) == 1000000000000000000);
    assert(pow10(19) == 10000000000000000000);
    assert(pow10(20) == 100000000000000000000);
}

/// End of the run of digits of `text` that starts at `i`.
fn digits_run_end(text: &[u8], i: usize) -> (r: usize)
    requires
        i <= text@.len(),
    ensures
        r == digits_end(text@, i as int),
        i <= r <= text@.len(),
        forall|j: int| i <= j < r ==> is_digit(#[trigger] text@[j]),
{
    proof {
        lemma_digits_end_bounds(text@, i as int);
    }
    let mut j: usize = i;
    while j < text.len() && text[j] >= 48 && text[j] <= 57
        invariant
            i <= j <= text@.len(),
            digits_end(text@, j as int) == digits_end(text@, i as int),
        decreases text@.len() - j,
    {
        j += 1;
    }
    j
}

/// The value of the digits `text[q..end]`, or `EXP_CAP` when it is larger.
fn capped_value(text: &[u8], q: usize, end: usize) -> (r: u128)
    requires
        q <= end <= text@.len(),
        forall|j: int| q <= j < end ==> is_digit(#[trigger] text@[j]),
    ensures
        r == if digits_value(text@.subrange(q as int, end as int)) < EXP_CAP {
            digits_value(text@.subrange(q as int, end as int))
        } else {
            EXP_CAP as nat
        },
{
    let mut acc: u128 = 0;
    let mut j: usize = q;
    while j < end
        invariant
            q <= j <= end <= text@.len(),
            forall|i: int| q <= i < end ==> is_digit(#[trigger] text@[i]),
            acc == if digits_value(text@.subrange(q as int, j as int)) < EXP_CAP {
                digits_value(text@.subrange(q as int, j as int))
            } else {
                EXP_CAP as nat
            },
        decreases end - j,
    {
        proof {
            assert(text@.subrange(q as int, j + 1).drop_last() =~= text@.subrange(q as int, j as int));
            assert(is_digit(text@[j as int]));
        }
        if acc < EXP_CAP {
            let next = acc * 10 + (text[j] - 48) as u128;
            acc = if next < EXP_CAP {
                next
            } else {
                EXP_CAP
            };
        }
        j += 1;
    }
    acc
}

/// The value of the first `c` digits of the significand whose digits are
/// `text[p..we]` then `text[fs..fe]`; none when it exceeds `u64::MAX`.
fn significand_prefix(text: &[u8], p: usize, we: usize, fs: usize, fe: usize, c: usize) -> (r: Option<u64>)
    requires
        p <= we <= fs <= fe <= text@.len(),
        c <= (we - p) + (fe - fs),
        all_digits(text@.subrange(p as int, we as int) + text@.subrange(fs as int, fe as int)),
    ensures
        ({
            let d = text@.subrange(p as int, we as int) + text@.subrange(fs as int, fe as int);
            &&& r is Some <==> digits_value(d.take(c as int)) <= u64::MAX
            &&& r is Some ==> r->0 == digits_value(d.take(c as int))
        }),
{
    let ghost d = text@.subrange(p as int, we as int) + text@.subrange(fs as int, fe as int);
    let w = we - p;
    let mut acc: u64 = 0;
    let mut j: usize = 0;
    while j < c
        invariant
            j <= c <= d.len(),
            w == we - p,
            d == text@.subrange(p as int, we as int) + text@.subrange(fs as int, fe as int),
            p <= we <= fs <= fe <= text@.len(),
            all_digits(d),
            acc == digits_value(d.take(j as int)),
        decreases c - j,
    {
        let b = if j < w {
            text[p + j]
        } else {
            text[fs + (j - w)]
        };
        proof {
            assert(b == d[j as int]);
            assert(is_digit(d[j as int]));
            assert(d.take(j + 1).drop_last() =~= d.take(j as int));
        }
        let next = match acc.checked_mul(10) {
            Some(a) => a.checked_add((b - 48) as u64),
            None => None,
        };
        match next {
            Some(a) => {
                acc = a;
            },
            None => {
                proof {
                    lemma_digits_prefix(d, j + 1, c as int);
                }
                return None;
            },
        }
        j += 1;
    }
    Some(acc)
}

/// The layout of a decimal: where the significand's two digit runs start
/// and end, whether the exponent is negative, and its magnitude up to
/// `EXP_CAP` (0 when there is no exponent). None when `text` is not a decimal.
fn decimal_layout(text: &[u8]) -> (r: Option<(usize, usize, usize, usize, bool, u128)>)
    ensures
        r is Some <==> is_decimal(text@),
        r is Some ==> ({
            let (p, we, fs, fe, neg, ev) = r->0;
            let s = text@;
            &&& p <= we <= fs <= fe <= s.len()
            &&& p == sign_len(s) && we == whole_end(s) && fs == frac_start(s) && fe == frac_end(s)
            &&& mantissa(s) == s.subrange(p as int, we as int) + s.subrange(fs as int, fe as int)
            &&& all_digits(mantissa(s))
            &&& neg == (has_exponent(s) && exp_negative(s))
            &&& has_exponent(s) ==> ev == if digits_value(s.subrange(exp_start(s), s.len() as int))
                < EXP_CAP {
                digits_value(s.subrange(exp_start(s), s.len() as int))
            } else {
                EXP_CAP as nat
            }
            &&& !has_exponent(s) ==> ev == 0
        }),
{
    let ghost s = text@;
    let len = text.len();
    let p: usize = if len > 0 && text[0] == 43 {
        1
    } else {
        0
    };
    let we = digits_run_end(text, p);
    if we == p {
        return None;
    }
    let has_point = we < len && text[we] == 46;
    let mut fs: usize = we;
    let mut fe: usize = we;
    if has_point {
        fs = we + 1;
        fe = digits_run_end(text, we + 1);
        if fe == we + 1 {
            return None;
        }
    }
    assert(fs == frac_start(s) && fe == frac_end(s));
    let mut neg = false;
    let mut ev: u128 = 0;
    if fe < len {
        if text[fe] != 101 && text[fe] != 69 {
            return None;
        }
        let mut q = fe + 1;
        if q < len && (text[q] == 43 || text[q] == 45) {
            neg = text[q] == 45;
            q += 1;
        }
        assert(q == exp_start(s) && neg == exp_negative(s));
        if q >= len {
            return None;
        }
        let qe = digits_run_end(text, q);
        if qe != len {
            return None;
        }
        ev = capped_value(text, q, len);
    }
    proof {
        let d = mantissa(s);
        assert(d =~= s.subrange(p as int, we as int) + s.subrange(fs as int, fe as int));
        assert forall|i: int| 0 <= i < d.len() implies is_digit(#[trigger] d[i]) by {
            if i < we - p {
                assert(d[i] == s[p + i]);
            } else {
                assert(d[i] == s[fs + (i - (we - p))]);
            }
        }
    }
    Some((p, we, fs, fe, neg, ev))
}

/// The digits `text[p..we]` then `text[fs..fe]` times `10^sh`, rounded half
/// up; none when that exceeds `u64::MAX`.
fn shift_digits(text: &[u8], p: usize, we: usize, fs: usize, fe: usize, sh: i128) -> (r: Option<u64>)
    requires
        p <= we <= fs <= fe <= text@.len(),
        sh > i128::MIN,
        all_digits(text@.subrange(p as int, we as int) + text@.subrange(fs as int, fe as int)),
    ensures
        ({
            let d = text@.subrange(p as int, we as int) + text@.subrange(fs as int, fe as int);
            &&& r is Some <==> shifted_value(d, sh as int) <= u64::MAX
            &&& r is Some ==> r->0 == shifted_value(d, sh as int)
        }),
{
    let ghost d = text@.subrange(p as int, we as int) + text@.subrange(fs as int, fe as int);
    let total: usize = (we - p) + (fe - fs);
    if sh >= 0 {
        let m = match significand_prefix(text, p, we, fs, fe, total) {
            Some(m) => m,
            None => {
                proof {
                    assert(d.take(total as int) =~= d);
                    let pw = pow10(sh as nat);
                    lemma_pow10_pos(sh as nat);
                    let dv = digits_value(d);
                    assert(dv * pw >= dv) by (nonlinear_arith)
                        requires
                            pw >= 1,
                    ;
                }
                return None;
            },
        };
        proof {
            assert(d.take(total as int) =~= d);
        }
        if m == 0 {
            return Some(0);
        }
        if sh >= 20 {
            proof {
                lemma_pow10_mono(20, sh as nat);
                lemma_pow10_twenty();
                let pw = pow10(sh as nat);
                let dv = digits_value(d);
                assert(dv * pw >= pw) by (nonlinear_arith)
                    requires
                        dv >= 1,
                ;
            }
            return None;
        }
        let mut scale: u64 = 1;
        let mut t: i128 = 0;
        while t < sh
            invariant
                0 <= t <= sh < 20,
                scale == pow10(t as nat),
            decreases sh - t,
        {
            proof {
                lemma_pow10_mono(t as nat, 18);
                lemma_pow10_twenty();
                assert(pow10(19) == 10 * pow10(18));
            }
            scale = scale * 10;
            t += 1;
        }
        m.checked_mul(scale)
    } else {
        let t = -sh;
        if t > total as i128 {
            return Some(0);
        }
        let c: usize = total - t as usize;
        let v = match significand_prefix(text, p, we, fs, fe, c) {
            Some(v) => v,
            None => {
                return None;
            },
        };
        let b = if c < we - p {
            text[p + c]
        } else {
            text[fs + (c - (we - p))]
        };
        proof {
            assert(b == d[c as int]);
        }
        v.checked_add(
            if b >= 53 {
                1u64
            } else {
                0u64
            },
        )
    }
}

/// Far enough from zero, a shift decides the result alone: a large positive
/// one makes any non-zero significand overflow, a large negative one leaves 0.
proof fn lemma_far_shift(d: Seq<u8>, a: int, b: int)
    requires
        (a >= 20 && b >= 20) || (-a > d.len() && -b > d.len()),
    ensures
        (shifted_value(d, a) <= u64::MAX) == (shifted_value(d, b) <= u64::MAX),
        shifted_value(d, a) <= u64::MAX ==> shifted_value(d, a) == shifted_value(d, b),
{
    if a >= 20 && b >= 20 {
        lemma_pow10_twenty();
        lemma_pow10_mono(20, a as nat);
        lemma_pow10_mono(20, b as nat);
        let dv = digits_value(d);
        let pa = pow10(a as nat);
        let pb = pow10(b as nat);
        if dv >= 1 {
            assert(dv * pa >= pa && dv * pb >= pb) by (nonlinear_arith)
                requires
                    dv >= 1,
            ;
        } else {
            assert(dv * pa == 0 && dv * pb == 0) by (nonlinear_arith)
                requires
                    dv == 0,
            ;
        }
    }
}

/// Parse the decimal `text` into its value times `10^k`, rounded half up.
/// None when `text` is not a decimal or the scaled value exceeds `u64::MAX`.
pub fn parse_decimal(text: &[u8], k: u32) -> (r: Option<u64>)
    requires
        k <= 9,
    ensures
        r is Some <==> is_decimal(text@) && scaled_decimal(text@, k as nat) <= u64::MAX,
        r is Some ==> r->0 == scaled_decimal(text@, k as nat),
{
    let (p, we, fs, fe, neg, ev) = match decimal_layout(text) {
        Some(l) => l,
        None => {
            return None;
        },
    };
    let e: i128 = if neg {
        -(ev as i128)
    } else {
        ev as i128
    };
    let sh: i128 = k as i128 + e - (fe - fs) as i128;
    let r = shift_digits(text, p, we, fs, fe, sh);
    proof {
        let s = text@;
        let d = mantissa(s);
        let sx = shift(s, k as nat);
        assert(frac_part(s).len() == fe - fs);
        if has_exponent(s) && ev == EXP_CAP {
            lemma_far_shift(d, sh as int, sx);
        } else {
            assert(sh == sx);
        }
    }
    r
}

/// The digits of `a` then `b` read as one number.
pub(crate) proof fn lemma_digits_concat(a: Seq<u8>, b: Seq<u8>)
    ensures
        digits_value(a + b) == digits_value(a) * pow10(b.len()) + digits_value(b),
    decreases b.len(),
{
    if b.len() == 0 {
        assert(a + b =~= a);
        assert(pow10(0) == 1);
        assert(digits_value(b) == 0);
    } else {
        let b0 = b.drop_last();
        lemma_digits_concat(a, b0);
        assert((a + b).drop_last() =~= a + b0);
        assert((a + b).last() == b.last());
        assert(b0.len() + 1 == b.len());
        assert(pow10(b.len()) == 10 * pow10(b0.len()));
        let x = digits_value(a);
        let y = digits_value(b0);
        let p = pow10(b0.len());
        let t = (b.last() - 48) as nat;
        assert(digits_value(a + b) == digits_value(a + b0) * 10 + t);
        assert(digits_value(b) == y * 10 + t);
        assert((x * p + y) * 10 + t == x * (10 * p) + (y * 10 + t)) by (nonlinear_arith);
    }
}

/// Whether a digit from 1 to 9 stands before any exponent mark.
pub fn significand_nonzero(text: &[u8]) -> (r: bool)
    ensures
        r == nonzero_significand(text@),
{
    let mut found = false;
    let mut i: usize = 0;
    while i < text.len() && text[i] != 101 && text[i] != 69
        invariant
            i <= text@.len(),
            exp_mark(text@, i as int) == exp_mark(text@, 0),
            found == exists|j: int| 0 <= j < i && 49 <= #[trigger] text@[j] <= 57,
        decreases text@.len() - i,
    {
        if text[i] >= 49 && text[i] <= 57 {
            found = true;
        }
        i += 1;
    }
    found
}

} // verus!
