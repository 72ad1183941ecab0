//! Record scores. A score field holds decimal text; it is read as a
//! fixed-point value scaled by one million, saturating at the i64 range, so
//! scores order without floating point. The accepted shapes follow the
//! float grammar: sign, digits with one optional point, an optional
//! exponent, and the spellings of infinity and of the not-a-number value
//! (infinite scores saturate; a not-a-number score counts as zero, as does
//! any other text).

use vstd::prelude::*;
use crate::json::digit_char;

verus! {

/// Saturation bound for the integer part: anything at or above it scales
/// past the i64 range.
pub open spec fn int_sat() -> int {
    10_000_000_000_000
}

/// Value of one decimal digit.
pub open spec fn digit_val(c: char) -> int {
    (c as u32) - 0x30
}

/// End of the run of decimal digits starting at `i`.
pub open spec fn scan_digits(s: Seq<char>, i: nat) -> nat
    decreases s.len() - i,
{
    if i >= s.len() {
        i
    } else if digit_char(s[i as int]) {
        scan_digits(s, i + 1)
    } else {
        i
    }
}

pub proof fn lemma_scan_digits_bounds(s: Seq<char>, i: nat)
    ensures
        i <= scan_digits(s, i),
        i <= s.len() ==> scan_digits(s, i) <= s.len(),
        forall|k: int| i <= k < scan_digits(s, i) ==> digit_char(#[trigger] s[k]),
    decreases s.len() - i,
{
    if i < s.len() && digit_char(s[i as int]) {
        lemma_scan_digits_bounds(s, i + 1);
    }
}

/// Digits `s[i..j]` read left to right onto `acc`, saturating.
pub open spec fn digits_value(s: Seq<char>, i: nat, j: nat, acc: int) -> int
    decreases j - i,
{
    if i >= j {
        acc
    } else {
        let a2 = acc * 10 + digit_val(s[i as int]);
        digits_value(s, i + 1, j, if a2 > int_sat() {
            int_sat()
        } else {
            a2
        })
    }
}

pub proof fn lemma_digits_value_bounds(s: Seq<char>, i: nat, j: nat, acc: int)
    requires
        0 <= acc <= int_sat(),
        forall|k: int| i <= k < j ==> digit_char(#[trigger] s[k]),
    ensures
        0 <= digits_value(s, i, j, acc) <= int_sat(),
    decreases j - i,
{
    if i < j {
        assert(digit_char(s[i as int]));
        assert(0 <= digit_val(s[i as int]) <= 9);
        let a2 = acc * 10 + digit_val(s[i as int]);
        lemma_digits_value_bounds(s, i + 1, j, if a2 > int_sat() {
            int_sat()
        } else {
            a2
        });
    }
}

/// The first six fraction digits of `s[i..j]`, scaled: the first weighs
/// 100000, each next a tenth of that.
pub open spec fn frac_value(s: Seq<char>, i: nat, j: nat, mult: int) -> int
    decreases j - i,
{
    if i >= j || mult == 0 {
        0
    } else {
        digit_val(s[i as int]) * mult + frac_value(s, i + 1, j, mult / 10)
    }
}

pub proof fn lemma_frac_value_bounds(s: Seq<char>, i: nat, j: nat, mult: int)
    requires
        0 <= mult <= 100_000,
        forall|k: int| i <= k < j ==> digit_char(#[trigger] s[k]),
    ensures
        0 <= frac_value(s, i, j, mult) <= 10 * mult,
    decreases j - i,
{
    if i < j && mult != 0 {
        assert(digit_char(s[i as int]));
        assert(0 <= digit_val(s[i as int]) <= 9);
        lemma_frac_value_bounds(s, i + 1, j, mult / 10);
        let d = digit_val(s[i as int]);
        assert(0 <= d * mult <= 9 * mult) by (nonlinear_arith)
            requires
                0 <= d <= 9,
                0 <= mult,
        ;
        assert(10 * (mult / 10) <= mult) by (nonlinear_arith)
            requires
                0 <= mult,
        ;
    }
}

/// One character compared against a lowercase letter, either case accepted.
pub open spec fn ci_char(c: char, lower: char) -> bool {
    c == lower || (c as u32) + 0x20 == (lower as u32)
}

/// The tail of `s` from `i` spells infinity.
pub open spec fn spells_inf(s: Seq<char>, i: nat) -> bool {
    ||| (s.len() - i == 3 && ci_char(s[i as int], 'i') && ci_char(s[i as int + 1], 'n')
        && ci_char(s[i as int + 2], 'f'))
    ||| (s.len() - i == 8 && ci_char(s[i as int], 'i') && ci_char(s[i as int + 1], 'n')
        && ci_char(s[i as int + 2], 'f') && ci_char(s[i as int + 3], 'i') && ci_char(
        s[i as int + 4],
        'n',
    ) && ci_char(s[i as int + 5], 'i') && ci_char(s[i as int + 6], 't') && ci_char(
        s[i as int + 7],
        'y',
    ))
}

/// The tail of `s` from `i` spells the not-a-number value.
pub open spec fn spells_nan(s: Seq<char>, i: nat) -> bool {
    s.len() - i == 3 && ci_char(s[i as int], 'n') && ci_char(s[i as int + 1], 'a') && ci_char(
        s[i as int + 2],
        'n',
    )
}

/// A nonnegative magnitude scaled up by ten `e` times; once past the i64
/// range it stays there.
pub open spec fn exp_up(mag: int, e: int) -> int
    decreases e,
{
    if e <= 0 || mag > i64::MAX {
        mag
    } else {
        exp_up(mag * 10, e - 1)
    }
}

/// A nonnegative magnitude scaled down by ten `e` times, toward zero.
pub open spec fn exp_down(mag: int, e: int) -> int
    decreases e,
{
    if e <= 0 || mag == 0 {
        mag
    } else {
        exp_down(mag / 10, e - 1)
    }
}

/// A magnitude signed and clamped to the i64 range.
pub open spec fn clamp_signed(neg: bool, mag: int) -> i64 {
    if neg {
        if -mag < i64::MIN {
            i64::MIN
        } else {
            (-mag) as i64
        }
    } else {
        if mag > i64::MAX {
            i64::MAX
        } else {
            mag as i64
        }
    }
}

/// Magnitude `ival + frac/1000000` scaled by one million, signed and clamped.
pub open spec fn score_scale(neg: bool, ival: int, frac: int) -> i64 {
    clamp_signed(neg, ival * 1_000_000 + frac)
}

/// The scaled mantissa with the exponent applied, signed and clamped.
pub open spec fn score_exp(neg: bool, ival: int, frac: int, eneg: bool, e: int) -> i64 {
    let mag = ival * 1_000_000 + frac;
    if eneg {
        clamp_signed(neg, exp_down(mag, e))
    } else {
        clamp_signed(neg, exp_up(mag, e))
    }
}

/// The exponent suffix starting at `p`: its sign and its digit value, when
/// it reaches the end of the text.
pub open spec fn exp_suffix(s: Seq<char>, p: nat) -> Option<(bool, int)> {
    if p >= s.len() || !(s[p as int] == 'e' || s[p as int] == 'E') {
        None
    } else {
        let q: nat = if p + 1 < s.len() && (s[p as int + 1] == '+' || s[p as int + 1] == '-') {
            p + 2
        } else {
            p + 1
        };
        if q < s.len() && scan_digits(s, q) == s.len() {
            Some((p + 1 < s.len() && s[p as int + 1] == '-', digits_value(s, q, s.len() as nat, 0)))
        } else {
            None
        }
    }
}

/// The score a text stands for: its decimal value scaled by one million and
/// clamped to i64; infinities saturate; anything unreadable, the
/// not-a-number spelling included, counts as zero.
pub open spec fn score_of(s: Seq<char>) -> i64 {
    if s.len() == 0 {
        0
    } else {
        let neg = s[0] == '-';
        let i1: nat = if s[0] == '-' || s[0] == '+' {
            1
        } else {
            0
        };
        if spells_inf(s, i1) {
            clamp_signed(neg, i64::MAX + 1)
        } else if spells_nan(s, i1) {
            0
        } else {
            let d_end = scan_digits(s, i1);
            let int_digits = d_end - i1;
            if d_end == s.len() {
                if int_digits >= 1 {
                    score_scale(neg, digits_value(s, i1, d_end, 0), 0)
                } else {
                    0
                }
            } else if s[d_end as int] == '.' {
                let f_start = (d_end + 1) as nat;
                let f_end = scan_digits(s, f_start);
                if int_digits >= 1 || f_end > f_start {
                    if f_end == s.len() {
                        score_scale(
                            neg,
                            digits_value(s, i1, d_end, 0),
                            frac_value(s, f_start, f_end, 100_000),
                        )
                    } else {
                        match exp_suffix(s, f_end) {
                            Some(se) => score_exp(
                                neg,
                                digits_value(s, i1, d_end, 0),
                                frac_value(s, f_start, f_end, 100_000),
                                se.0,
                                se.1,
                            ),
                            None => 0,
                        }
                    }
                } else {
                    0
                }
            } else if int_digits >= 1 {
                match exp_suffix(s, d_end) {
                    Some(se) => score_exp(neg, digits_value(s, i1, d_end, 0), 0, se.0, se.1),
                    None => 0,
                }
            } else {
                0
            }
        }
    }
}

/// Runtime form of [`scan_digits`].
fn scan_digits_x(s: &Vec<char>, i: usize) -> (j: usize)
    requires
        i <= s@.len(),
    ensures
        j == scan_digits(s@, i as nat),
        i <= j <= s@.len(),
{
    let n = s.len();
    let mut j: usize = i;
    loop
        invariant
            i <= j <= n,
            n == s@.len(),
            scan_digits(s@, i as nat) == scan_digits(s@, j as nat),
        decreases n - j,
    {
        if j >= n {
            return j;
        }
        let u = s[j] as u32;
        if 0x30 <= u && u <= 0x39 {
            j = j + 1;
        } else {
            return j;
        }
    }
}

/// Digits `s[a..b]` onto an accumulator, saturating; runtime form of
/// [`digits_value`].
fn digits_value_x(s: &Vec<char>, a: usize, b: usize) -> (r: i128)
    requires
        a <= b <= s@.len(),
        forall|k: int| a <= k < b ==> digit_char(#[trigger] s@[k]),
    ensures
        r == digits_value(s@, a as nat, b as nat, 0),
        0 <= r <= int_sat(),
{
    let mut acc: i128 = 0;
    let mut m: usize = a;
    while m < b
        invariant
            a <= m <= b <= s@.len(),
            forall|k: int| a <= k < b ==> digit_char(#[trigger] s@[k]),
            0 <= acc <= int_sat(),
            digits_value(s@, a as nat, b as nat, 0) == digits_value(s@, m as nat, b as nat, acc as int),
        decreases b - m,
    {
        let d = (s[m] as u32 - 0x30) as i128;
        let a2 = acc * 10 + d;
        if a2 > 10_000_000_000_000 {
            acc = 10_000_000_000_000;
        } else {
            acc = a2;
        }
        m = m + 1;
    }
    acc
}

/// Scaled fraction digits; runtime form of [`frac_value`].
fn frac_value_x(s: &Vec<char>, a: usize, b: usize) -> (r: i128)
    requires
        a <= b <= s@.len(),
        forall|k: int| a <= k < b ==> digit_char(#[trigger] s@[k]),
    ensures
        r == frac_value(s@, a as nat, b as nat, 100_000),
        0 <= r <= 1_000_000,
{
    proof {
        lemma_frac_value_bounds(s@, a as nat, b as nat, 100_000);
    }
    let mut acc: i128 = 0;
    let mut mult: i128 = 100_000;
    let mut m: usize = a;
    while m < b && mult > 0
        invariant
            a <= m <= b <= s@.len(),
            forall|k: int| a <= k < b ==> digit_char(#[trigger] s@[k]),
            0 <= mult <= 100_000,
            0 <= acc <= 1_000_000,
            acc + frac_value(s@, m as nat, b as nat, mult as int) == frac_value(
                s@,
                a as nat,
                b as nat,
                100_000,
            ),
            acc + 10 * mult <= 1_000_000 + 0,
        decreases b - m,
    {
        proof {
            lemma_frac_value_bounds(s@, m as nat + 1, b as nat, mult as int / 10);
            assert(0 <= digit_val(s@[m as int]) <= 9);
            let dv = digit_val(s@[m as int]);
            assert(0 <= dv * mult <= 9 * mult) by (nonlinear_arith)
                requires
                    0 <= dv <= 9,
                    0 <= mult,
            ;
            assert(10 * ((mult as int) / 10) <= mult) by (nonlinear_arith)
                requires
                    0 <= mult,
            ;
        }
        let d = (s[m] as u32 - 0x30) as i128;
        acc = acc + d * mult;
        mult = mult / 10;
        m = m + 1;
    }
    proof {
        if m < b {
            assert(mult == 0);
            assert(frac_value(s@, m as nat, b as nat, 0) == 0);
        } else {
            assert(frac_value(s@, m as nat, b as nat, mult as int) == 0);
        }
    }
    acc
}

/// Runtime form of [`score_of`].
pub fn parse_score(text: &str) -> (r: i64)
    ensures
        r == score_of(text@),
{
    let s = crate::text::str_chars(text);
    let n = s.len();
    if n == 0 {
        return 0;
    }
    let first = s[0];
    let neg = first == '-';
    let i1: usize = if first == '-' || first == '+' {
        1
    } else {
        0
    };
    if spells_inf_x(&s, i1) {
        proof {
            assert(clamp_signed(neg, i64::MAX + 1) == if neg {
                i64::MIN
            } else {
                i64::MAX
            });
        }
        if neg {
            return i64::MIN;
        }
        return i64::MAX;
    }
    if spells_nan_x(&s, i1) {
        return 0;
    }
    let d_end = scan_digits_x(&s, i1);
    proof {
        lemma_scan_digits_bounds(s@, i1 as nat);
    }
    let int_digits = d_end - i1;
    if d_end == n {
        if int_digits >= 1 {
            let ival = digits_value_x(&s, i1, d_end);
            scale_score(neg, ival, 0)
        } else {
            0
        }
    } else if s[d_end] == '.' {
        let f_start = d_end + 1;
        let f_end = scan_digits_x(&s, f_start);
        proof {
            lemma_scan_digits_bounds(s@, f_start as nat);
        }
        if int_digits >= 1 || f_end > f_start {
            if f_end == n {
                let ival = digits_value_x(&s, i1, d_end);
                let frac = frac_value_x(&s, f_start, f_end);
                scale_score(neg, ival, frac)
            } else {
                match exp_suffix_x(&s, f_end) {
                    Some(se) => {
                        let ival = digits_value_x(&s, i1, d_end);
                        let frac = frac_value_x(&s, f_start, f_end);
                        exp_apply(neg, ival, frac, se.0, se.1)
                    },
                    None => 0,
                }
            }
        } else {
            0
        }
    } else if int_digits >= 1 {
        match exp_suffix_x(&s, d_end) {
            Some(se) => {
                let ival = digits_value_x(&s, i1, d_end);
                exp_apply(neg, ival, 0, se.0, se.1)
            },
            None => 0,
        }
    } else {
        0
    }
}

/// Runtime form of [`ci_char`].
fn ci_char_x(c: char, lower: char) -> (r: bool)
    ensures
        r == ci_char(c, lower),
{
    c == lower || (c as u32) + 0x20 == (lower as u32)
}

/// Runtime form of [`spells_inf`].
fn spells_inf_x(s: &Vec<char>, i: usize) -> (r: bool)
    requires
        i <= s@.len(),
    ensures
        r == spells_inf(s@, i as nat),
{
    let n = s.len();
    if n - i == 3 {
        ci_char_x(s[i], 'i') && ci_char_x(s[i + 1], 'n') && ci_char_x(s[i + 2], 'f')
    } else if n - i == 8 {
        ci_char_x(s[i], 'i') && ci_char_x(s[i + 1], 'n') && ci_char_x(s[i + 2], 'f') && ci_char_x(
            s[i + 3],
            'i',
        ) && ci_char_x(s[i + 4], 'n') && ci_char_x(s[i + 5], 'i') && ci_char_x(s[i + 6], 't')
            && ci_char_x(s[i + 7], 'y')
    } else {
        false
    }
}

/// Runtime form of [`spells_nan`].
fn spells_nan_x(s: &Vec<char>, i: usize) -> (r: bool)
    requires
        i <= s@.len(),
    ensures
        r == spells_nan(s@, i as nat),
{
    let n = s.len();
    n - i == 3 && ci_char_x(s[i], 'n') && ci_char_x(s[i + 1], 'a') && ci_char_x(s[i + 2], 'n')
}

/// Runtime form of [`exp_suffix`].
fn exp_suffix_x(s: &Vec<char>, p: usize) -> (r: Option<(bool, i128)>)
    requires
        p <= s@.len(),
    ensures
        match r {
            Some(se) => exp_suffix(s@, p as nat) == Some((se.0, se.1 as int)) && 0 <= se.1
                <= int_sat(),
            None => exp_suffix(s@, p as nat) is None,
        },
{
    let n = s.len();
    if p >= n || !(s[p] == 'e' || s[p] == 'E') {
        return None;
    }
    let q: usize = if p + 1 < n && (s[p + 1] == '+' || s[p + 1] == '-') {
        p + 2
    } else {
        p + 1
    };
    if q < n && scan_digits_x(s, q) == n {
        proof {
            lemma_scan_digits_bounds(s@, q as nat);
        }
        let e = digits_value_x(s, q, n);
        Some((p + 1 < n && s[p + 1] == '-', e))
    } else {
        None
    }
}

proof fn lemma_exp_down_zero(e: int)
    ensures
        exp_down(0, e) == 0,
    decreases e,
{
    if e > 0 {
        lemma_exp_down_zero(e - 1);
    }
}

/// Runtime form of [`score_exp`].
fn exp_apply(neg: bool, ival: i128, frac: i128, eneg: bool, e: i128) -> (r: i64)
    requires
        0 <= ival <= int_sat(),
        0 <= frac <= 1_000_000,
        0 <= e,
    ensures
        r == score_exp(neg, ival as int, frac as int, eneg, e as int),
{
    let mut mag: i128 = ival * 1_000_000 + frac;
    let ghost mag0 = mag as int;
    let mut ecnt: i128 = e;
    if eneg {
        while ecnt > 0 && mag != 0
            invariant
                0 <= ecnt,
                0 <= mag <= mag0,
                exp_down(mag0, e as int) == exp_down(mag as int, ecnt as int),
            decreases ecnt,
        {
            mag = mag / 10;
            ecnt = ecnt - 1;
        }
        proof {
            if mag == 0 {
                lemma_exp_down_zero(ecnt as int);
            }
            assert(exp_down(mag0, e as int) == mag as int);
        }
    } else {
        while ecnt > 0 && mag <= 0x7FFF_FFFF_FFFF_FFFF
            invariant
                0 <= ecnt,
                0 <= mag,
                mag <= 0xA_0000_0000_0000_0000,
                exp_up(mag0, e as int) == exp_up(mag as int, ecnt as int),
            decreases ecnt,
        {
            mag = mag * 10;
            ecnt = ecnt - 1;
        }
        proof {
            assert(exp_up(mag as int, ecnt as int) == mag as int);
            assert(exp_up(mag0, e as int) == mag as int);
        }
    }
    if neg {
        if -mag < -0x7FFF_FFFF_FFFF_FFFF - 1 {
            i64::MIN
        } else {
            (-mag) as i64
        }
    } else {
        if mag > 0x7FFF_FFFF_FFFF_FFFF {
            i64::MAX
        } else {
            mag as i64
        }
    }
}

/// Runtime form of [`score_scale`].
fn scale_score(neg: bool, ival: i128, frac: i128) -> (r: i64)
    requires
        0 <= ival <= int_sat(),
        0 <= frac <= 1_000_000,
    ensures
        r == score_scale(neg, ival as int, frac as int),
{
    let mag = ival * 1_000_000 + frac;
    if neg {
        if -mag < -0x7FFF_FFFF_FFFF_FFFF - 1 {
            i64::MIN
        } else {
            (-mag) as i64
        }
    } else {
        if mag > 0x7FFF_FFFF_FFFF_FFFF {
            i64::MAX
        } else {
            mag as i64
        }
    }
}

} // verus!
