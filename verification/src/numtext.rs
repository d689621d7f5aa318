use crate::strutil::{char_matches_ci, matches_ci_at, str_matches_ci_at};
use vstd::arithmetic::div_mod::{
    lemma_fundamental_div_mod_converse_div, lemma_fundamental_div_mod_converse_mod,
};
use vstd::arithmetic::power::{lemma_pow_increases, lemma_pow_positive, pow};
use vstd::prelude::*;
use vstd::string::StringExecFns;

verus! {

/// The greatest magnitude, in ten-thousandths of a degree, that the angle
/// reader holds exactly; a numeral that reads as a larger (or non-finite)
/// floating value is reported as out of range rather than rejected.
pub const MAX_ABS_TENTH_MILLI: i64 = 1_000_000_000_000_000;

pub open spec fn is_digit(c: char) -> bool {
    48 <= c as int && c as int <= 57
}

pub open spec fn digit_val(c: char) -> int {
    c as int - 48
}

pub open spec fn all_digits(s: Seq<char>) -> bool {
    forall|i: int| 0 <= i < s.len() ==> is_digit(#[trigger] s[i])
}

/// The value of a string of decimal digits, most significant digit first.
pub open spec fn digits_val(s: Seq<char>) -> int
    decreases s.len(),
{
    if s.len() == 0 {
        0
    } else {
        digits_val(s.drop_last()) * 10 + digit_val(s.last())
    }
}

pub open spec fn digit_char(d: int) -> char {
    if d == 0 {
        '0'
    } else if d == 1 {
        '1'
    } else if d == 2 {
        '2'
    } else if d == 3 {
        '3'
    } else if d == 4 {
        '4'
    } else if d == 5 {
        '5'
    } else if d == 6 {
        '6'
    } else if d == 7 {
        '7'
    } else if d == 8 {
        '8'
    } else {
        '9'
    }
}

/// The decimal rendering of a non-negative integer, most significant digit
/// first, with no sign and no padding.
pub open spec fn dec_digits(n: int) -> Seq<char>
    decreases n,
{
    if n < 10 {
        seq![digit_char(n)]
    } else {
        dec_digits(n / 10).push(digit_char(n % 10))
    }
}

/// The three digits after the decimal point when a magnitude of `f`
/// thousandths (with `0 <= f < 1000`) is written out.
pub open spec fn frac3_digits(f: int) -> Seq<char> {
    seq![digit_char(f / 100), digit_char((f / 10) % 10), digit_char(f % 10)]
}

/// The text this tool writes for an angle of `m` thousandths of a degree:
/// an optional minus sign, the whole degrees, and exactly three decimals.
pub open spec fn spec_format_milli(m: int) -> Seq<char> {
    let a: int = if m < 0 {
        -m
    } else {
        m
    };
    let digits = dec_digits(a / 1000) + seq!['.'] + frac3_digits(a % 1000);
    if m < 0 {
        seq!['-'] + digits
    } else {
        digits
    }
}

/// The index of the first `'.'` in `s`, or `s.len()` if there is none.
pub open spec fn find_dot(s: Seq<char>) -> int
    decreases s.len(),
{
    if s.len() == 0 {
        0
    } else if s[0] == '.' {
        0
    } else {
        1 + find_dot(s.drop_first())
    }
}

/// The index of the first exponent marker, `'e'` or `'E'`, in `s`, or
/// `s.len()` if there is none.
pub open spec fn find_exp(s: Seq<char>) -> int
    decreases s.len(),
{
    if s.len() == 0 {
        0
    } else if s[0] == 'e' || s[0] == 'E' {
        0
    } else {
        1 + find_exp(s.drop_first())
    }
}

pub proof fn lemma_digits_val_nonneg(s: Seq<char>)
    requires
        all_digits(s),
    ensures
        digits_val(s) >= 0,
    decreases s.len(),
{
    if s.len() > 0 {
        assert(all_digits(s.drop_last())) by {
            assert(forall|i: int|
                0 <= i < s.drop_last().len() ==> #[trigger] s.drop_last()[i] == s[i]);
        }
        lemma_digits_val_nonneg(s.drop_last());
    }
}

/// A digit prefix never has a greater value than the whole digit string.
pub proof fn lemma_digits_val_take_le(s: Seq<char>, k: int)
    requires
        all_digits(s),
        0 <= k <= s.len(),
    ensures
        digits_val(s.take(k)) <= digits_val(s),
    decreases s.len(),
{
    if k == s.len() {
        assert(s.take(k) =~= s);
    } else {
        assert(all_digits(s.drop_last())) by {
            assert(forall|i: int|
                0 <= i < s.drop_last().len() ==> #[trigger] s.drop_last()[i] == s[i]);
        }
        assert(s.take(k) =~= s.drop_last().take(k));
        lemma_digits_val_take_le(s.drop_last(), k);
        lemma_digits_val_nonneg(s.drop_last());
        assert(digits_val(s) == digits_val(s.drop_last()) * 10 + digit_val(s.last()));
    }
}

/// The first dot position determines `find_dot`.
pub proof fn lemma_find_dot_at(s: Seq<char>, j: int)
    requires
        0 <= j <= s.len(),
        j < s.len() ==> s[j] == '.',
        forall|k: int| 0 <= k < j ==> s[k] != '.',
        j == s.len() ==> forall|k: int| 0 <= k < s.len() ==> s[k] != '.',
    ensures
        find_dot(s) == j,
    decreases s.len(),
{
    if s.len() > 0 && s[0] != '.' {
        assert(forall|k: int|
            0 <= k < s.drop_first().len() ==> #[trigger] s.drop_first()[k] == s[k + 1]);
        lemma_find_dot_at(s.drop_first(), j - 1);
    }
}

/// The first exponent-marker position determines `find_exp`.
pub proof fn lemma_find_exp_at(s: Seq<char>, j: int)
    requires
        0 <= j <= s.len(),
        j < s.len() ==> s[j] == 'e' || s[j] == 'E',
        forall|k: int| 0 <= k < j ==> s[k] != 'e' && s[k] != 'E',
        j == s.len() ==> forall|k: int| 0 <= k < s.len() ==> s[k] != 'e' && s[k] != 'E',
    ensures
        find_exp(s) == j,
    decreases s.len(),
{
    if s.len() > 0 && s[0] != 'e' && s[0] != 'E' {
        assert(forall|k: int|
            0 <= k < s.drop_first().len() ==> #[trigger] s.drop_first()[k] == s[k + 1]);
        lemma_find_exp_at(s.drop_first(), j - 1);
    }
}

pub proof fn lemma_dec_digits_are_digits(n: int)
    requires
        n >= 0,
    ensures
        all_digits(dec_digits(n)),
        dec_digits(n).len() >= 1,
    decreases n,
{
    if n < 10 {
        assert(is_digit(dec_digits(n)[0]));
    } else {
        lemma_dec_digits_are_digits(n / 10);
        assert forall|i: int| 0 <= i < dec_digits(n).len() implies is_digit(
            #[trigger] dec_digits(n)[i],
        ) by {
            if i < dec_digits(n / 10).len() {
                assert(dec_digits(n)[i] == dec_digits(n / 10)[i]);
            } else {
                assert(dec_digits(n)[i] == digit_char(n % 10));
            }
        }
    }
}

pub proof fn lemma_dec_digits_val(n: int)
    requires
        n >= 0,
    ensures
        digits_val(dec_digits(n)) == n,
    decreases n,
{
    if n < 10 {
        assert(dec_digits(n).drop_last() =~= Seq::<char>::empty());
        assert(digits_val(Seq::<char>::empty()) == 0);
        assert(digit_val(digit_char(n)) == n);
    } else {
        lemma_dec_digits_val(n / 10);
        assert(dec_digits(n).drop_last() =~= dec_digits(n / 10));
        assert(digit_val(digit_char(n % 10)) == n % 10);
        vstd::arithmetic::div_mod::lemma_fundamental_div_mod(n, 10);
        assert(digits_val(dec_digits(n)) == (n / 10) * 10 + n % 10);
    }
}

/// A string of digits is worth less than ten to its length.
pub proof fn lemma_digits_val_bound(s: Seq<char>)
    requires
        all_digits(s),
    ensures
        0 <= digits_val(s) < pow(10, s.len() as nat),
    decreases s.len(),
{
    reveal(pow);
    if s.len() == 0 {
        assert(pow(10, 0) == 1);
    } else {
        let s1 = s.drop_last();
        assert(all_digits(s1)) by {
            assert(forall|i: int| 0 <= i < s1.len() ==> #[trigger] s1[i] == s[i]);
        }
        lemma_digits_val_bound(s1);
        assert(pow(10, s.len() as nat) == 10 * pow(10, s1.len() as nat));
        assert(is_digit(s.last()));
    }
}

/// Splitting a digit string at `k` splits its value at the matching power of
/// ten.
pub proof fn lemma_digits_val_split(s: Seq<char>, k: int)
    requires
        all_digits(s),
        0 <= k <= s.len(),
    ensures
        0 <= digits_val(s.skip(k)) < pow(10, (s.len() - k) as nat),
        digits_val(s) == digits_val(s.take(k)) * pow(10, (s.len() - k) as nat) + digits_val(
            s.skip(k),
        ),
    decreases s.len() - k,
{
    reveal(pow);
    if k == s.len() {
        assert(s.take(k) =~= s);
        assert(s.skip(k) =~= Seq::<char>::empty());
        assert(pow(10, 0) == 1);
    } else {
        let s1 = s.drop_last();
        assert(all_digits(s1)) by {
            assert(forall|i: int| 0 <= i < s1.len() ==> #[trigger] s1[i] == s[i]);
        }
        lemma_digits_val_split(s1, k);
        let t = (s.len() - k) as nat;
        let p1 = pow(10, (t - 1) as nat);
        assert(pow(10, t) == 10 * p1);
        lemma_pow_positive(10, (t - 1) as nat);
        assert(s.take(k) =~= s1.take(k));
        assert(s.skip(k).drop_last() =~= s1.skip(k));
        assert(s.skip(k).last() == s.last());
        assert(is_digit(s.last()));
        let d = digit_val(s.last());
        assert(digits_val(s) == digits_val(s1) * 10 + d);
        assert(digits_val(s.skip(k)) == digits_val(s1.skip(k)) * 10 + d);
        assert((digits_val(s1.take(k)) * p1) * 10 == digits_val(s1.take(k)) * (10 * p1))
            by (nonlinear_arith);
        assert(digits_val(s1.skip(k)) * 10 + d < pow(10, t)) by {
            assert(digits_val(s1.skip(k)) <= p1 - 1);
            assert(digits_val(s1.skip(k)) * 10 <= (p1 - 1) * 10) by (nonlinear_arith)
                requires
                    digits_val(s1.skip(k)) <= p1 - 1,
            ;
        }
    }
}

/// A digit string in which every digit is zero is worth zero, and no other
/// is.
pub proof fn lemma_digits_val_zero(s: Seq<char>)
    requires
        all_digits(s),
    ensures
        (digits_val(s) == 0) <==> (forall|k: int| 0 <= k < s.len() ==> digit_val(#[trigger] s[k])
            == 0),
    decreases s.len(),
{
    if s.len() > 0 {
        let s1 = s.drop_last();
        assert(all_digits(s1)) by {
            assert(forall|i: int| 0 <= i < s1.len() ==> #[trigger] s1[i] == s[i]);
        }
        lemma_digits_val_zero(s1);
        lemma_digits_val_nonneg(s1);
        assert(is_digit(s.last()));
        if digits_val(s) == 0 {
            assert(forall|k: int| 0 <= k < s1.len() ==> #[trigger] s1[k] == s[k]);
            assert forall|k: int| 0 <= k < s.len() implies digit_val(#[trigger] s[k]) == 0 by {
                if k < s.len() - 1 {
                    assert(s1[k] == s[k]);
                }
            }
        } else {
            if forall|k: int| 0 <= k < s.len() ==> digit_val(#[trigger] s[k]) == 0 {
                assert forall|k: int| 0 <= k < s1.len() implies digit_val(#[trigger] s1[k])
                    == 0 by {
                    assert(s1[k] == s[k]);
                }
                assert(digit_val(s.last()) == 0);
                assert(false);
            }
        }
    }
}

/// Ten to the sixteenth exceeds the reader's magnitude cap.
proof fn lemma_pow10_16()
    ensures
        pow(10, 16) == 10_000_000_000_000_000,
{
    reveal(pow);
    assert(pow(10, 0) == 1);
    assert(pow(10, 1) == 10);
    assert(pow(10, 2) == 100);
    assert(pow(10, 3) == 1000);
    assert(pow(10, 4) == 10000);
    assert(pow(10, 5) == 100000);
    assert(pow(10, 6) == 1000000);
    assert(pow(10, 7) == 10000000);
    assert(pow(10, 8) == 100000000);
    assert(pow(10, 9) == 1000000000);
    assert(pow(10, 10) == 10000000000);
    assert(pow(10, 11) == 100000000000);
    assert(pow(10, 12) == 1000000000000);
    assert(pow(10, 13) == 10000000000000);
    assert(pow(10, 14) == 100000000000000);
    assert(pow(10, 15) == 1000000000000000);
    assert(pow(10, 16) == 10000000000000000);
}

/// The three written decimals are digits and are worth the fraction they
/// render.
pub proof fn lemma_frac3_val(f: int)
    requires
        0 <= f < 1000,
    ensures
        all_digits(frac3_digits(f)),
        frac3_digits(f).len() == 3,
        digits_val(frac3_digits(f)) == f,
{
    let fp = frac3_digits(f);
    assert(0 <= f / 100 <= 9) by (nonlinear_arith)
        requires
            0 <= f < 1000,
    ;
    assert(all_digits(fp)) by {
        assert(is_digit(fp[0]) && is_digit(fp[1]) && is_digit(fp[2]));
    }
    let c0 = digit_char(f / 100);
    let c1 = digit_char((f / 10) % 10);
    let c2 = digit_char(f % 10);
    assert(digit_val(c0) == f / 100);
    assert(digit_val(c1) == (f / 10) % 10);
    assert(digit_val(c2) == f % 10);
    assert(seq![c0].drop_last() =~= Seq::<char>::empty());
    assert(digits_val(Seq::<char>::empty()) == 0);
    assert(seq![c0].last() == c0);
    assert(digits_val(seq![c0]) == f / 100);
    assert(seq![c0, c1].drop_last() =~= seq![c0]);
    assert(seq![c0, c1].last() == c1);
    assert(digits_val(seq![c0, c1]) == (f / 100) * 10 + (f / 10) % 10);
    assert(fp.drop_last() =~= seq![c0, c1]);
    assert(fp.last() == c2);
    assert(digits_val(fp) == ((f / 100) * 10 + (f / 10) % 10) * 10 + f % 10);
    assert((f / 100) * 100 + ((f / 10) % 10) * 10 + f % 10 == f) by (nonlinear_arith)
        requires
            0 <= f < 1000,
    ;
}

/// Division by a power of ten, rounded half up: the quotient, plus one when
/// the remainder is at least half the divisor.
pub open spec fn round_half_up(a: int, b: int) -> int {
    a / b + if (a % b) * 2 >= b {
        1int
    } else {
        0int
    }
}

/// The value of the digit string `digits`, taken as `digits * 10^shift` and
/// rounded half up to an integer when the shift is negative.
pub open spec fn scaled_value(digits: Seq<char>, shift: int) -> int {
    if shift >= 0 {
        digits_val(digits) * pow(10, shift as nat)
    } else {
        round_half_up(digits_val(digits), pow(10, (-shift) as nat))
    }
}

/// Rounding a digit string at position `k` keeps the first `k` digits and
/// rounds up exactly when the next digit is five or more.
proof fn lemma_round_at_digit(s: Seq<char>, k: int)
    requires
        all_digits(s),
        0 <= k < s.len(),
    ensures
        round_half_up(digits_val(s), pow(10, (s.len() - k) as nat)) == digits_val(s.take(k)) + (
        if digit_val(s[k]) >= 5 {
            1int
        } else {
            0int
        }),
{
    reveal(pow);
    let t = (s.len() - k) as nat;
    let b = pow(10, t);
    lemma_pow_positive(10, t);
    lemma_digits_val_split(s, k);
    let q = digits_val(s.take(k));
    let r = digits_val(s.skip(k));
    lemma_digits_val_nonneg(s);
    lemma_fundamental_div_mod_converse_div(digits_val(s), b, q, r);
    lemma_fundamental_div_mod_converse_mod(digits_val(s), b, q, r);
    let tail = s.skip(k);
    assert(all_digits(tail)) by {
        assert(forall|i: int| 0 <= i < tail.len() ==> #[trigger] tail[i] == s[i + k]);
    }
    lemma_digits_val_split(tail, 1);
    assert(tail.take(1).drop_last() =~= Seq::<char>::empty());
    assert(digits_val(Seq::<char>::empty()) == 0);
    assert(digits_val(tail.take(1)) == digit_val(tail[0]));
    assert(tail[0] == s[k]);
    let d1 = digit_val(s[k]);
    let p1 = pow(10, (t - 1) as nat);
    lemma_pow_positive(10, (t - 1) as nat);
    assert(b == 10 * p1);
    let rest = digits_val(tail.skip(1));
    assert(r == d1 * p1 + rest);
    assert(0 <= rest < p1);
    if d1 >= 5 {
        assert(d1 * p1 >= 5 * p1) by (nonlinear_arith)
            requires
                d1 >= 5,
                p1 > 0,
        ;
        assert(r * 2 >= b);
    } else {
        assert(d1 * p1 <= 4 * p1) by (nonlinear_arith)
            requires
                d1 <= 4,
                p1 > 0,
        ;
        assert(r * 2 < b);
    }
}

/// A digit string shifted so far right that nothing of it is kept rounds to
/// zero.
proof fn lemma_round_vanishes(s: Seq<char>, t: nat)
    requires
        all_digits(s),
        t >= s.len() + 1,
    ensures
        round_half_up(digits_val(s), pow(10, t)) == 0,
{
    reveal(pow);
    let b = pow(10, t);
    lemma_digits_val_bound(s);
    lemma_pow_increases(10, (s.len() + 1) as nat, t);
    assert(pow(10, (s.len() + 1) as nat) == 10 * pow(10, s.len() as nat));
    lemma_pow_positive(10, s.len() as nat);
    lemma_pow_positive(10, t);
    lemma_fundamental_div_mod_converse_div(digits_val(s), b, 0, digits_val(s));
    lemma_fundamental_div_mod_converse_mod(digits_val(s), b, 0, digits_val(s));
}

/// What the angle reader yields in the model: an exact count of
/// ten-thousandths of a degree, or a value beyond the fixed-point range
/// (a huge magnitude, or a non-finite spelling such as `inf` or `nan`).
pub enum SpecReading {
    Finite(int),
    OutOfRange,
}

/// What the angle reader yields: an exact count of ten-thousandths of a
/// degree, or a marker for a floating value beyond the fixed-point range.
#[derive(Clone, Copy, Debug, PartialEq, Eq, Structural)]
pub enum AngleReading {
    Finite(i64),
    OutOfRange,
}

pub open spec fn reading_matches(r: AngleReading, m: SpecReading) -> bool {
    match (r, m) {
        (AngleReading::Finite(v), SpecReading::Finite(w)) => v as int == w,
        (AngleReading::OutOfRange, SpecReading::OutOfRange) => true,
        _ => false,
    }
}

/// Character-for-character equality up to ASCII case, against a lowercase
/// word.
pub open spec fn eq_ci(s: Seq<char>, w: Seq<char>) -> bool {
    s.len() == w.len() && matches_ci_at(s, w, 0)
}

/// The non-finite floating-point spellings, in any letter case.
pub open spec fn is_nonfinite_word(u: Seq<char>) -> bool {
    eq_ci(u, "inf"@) || eq_ci(u, "infinity"@) || eq_ci(u, "nan"@)
}

/// The value, in ten-thousandths of a degree, of an unsigned decimal-float
/// numeral: mantissa digits with at most one dot, and an optional exponent
/// part with its own optional sign and at least one digit. Nothing else
/// reads as a number.
pub open spec fn spec_numeral_tenth_milli(u: Seq<char>) -> Option<int> {
    let fe = find_exp(u);
    let mant = u.take(fe);
    let di = find_dot(mant);
    let ip = mant.take(di);
    let fp = if di < mant.len() {
        mant.skip(di + 1)
    } else {
        Seq::<char>::empty()
    };
    let has_exp = fe < u.len();
    let ex = u.skip(fe + 1);
    let exp_neg = ex.len() > 0 && ex[0] == '-';
    let exp_signed = ex.len() > 0 && (ex[0] == '+' || ex[0] == '-');
    let edig = if exp_signed {
        ex.drop_first()
    } else {
        ex
    };
    if ip.len() + fp.len() == 0 || !all_digits(ip) || !all_digits(fp) || (has_exp && (edig.len()
        == 0 || !all_digits(edig))) {
        None
    } else {
        let e: int = if has_exp {
            if exp_neg {
                -digits_val(edig)
            } else {
                digits_val(edig)
            }
        } else {
            0
        };
        Some(scaled_value(ip + fp, e + 4 - fp.len()))
    }
}

/// What a stored angle text means: `None` when it is not a floating-point
/// numeral at all; otherwise its value in ten-thousandths of a degree, or
/// out-of-range for non-finite spellings and magnitudes beyond the model.
pub open spec fn spec_read_angle(s: Seq<char>) -> Option<SpecReading> {
    let neg = s.len() > 0 && s[0] == '-';
    let signed = s.len() > 0 && (s[0] == '+' || s[0] == '-');
    let u = if signed {
        s.drop_first()
    } else {
        s
    };
    if is_nonfinite_word(u) {
        Some(SpecReading::OutOfRange)
    } else {
        match spec_numeral_tenth_milli(u) {
            Some(v) => if v > MAX_ABS_TENTH_MILLI as int {
                Some(SpecReading::OutOfRange)
            } else {
                Some(
                    SpecReading::Finite(
                        if neg {
                            -v
                        } else {
                            v
                        },
                    ),
                )
            },
            None => None,
        }
    }
}

fn digit_str(d: u64) -> (r: &'static str)
    requires
        d < 10,
    ensures
        r@ =~= seq![digit_char(d as int)],
{
    proof {
        reveal_strlit("0");
        reveal_strlit("1");
        reveal_strlit("2");
        reveal_strlit("3");
        reveal_strlit("4");
        reveal_strlit("5");
        reveal_strlit("6");
        reveal_strlit("7");
        reveal_strlit("8");
        reveal_strlit("9");
    }
    if d == 0 {
        "0"
    } else if d == 1 {
        "1"
    } else if d == 2 {
        "2"
    } else if d == 3 {
        "3"
    } else if d == 4 {
        "4"
    } else if d == 5 {
        "5"
    } else if d == 6 {
        "6"
    } else if d == 7 {
        "7"
    } else if d == 8 {
        "8"
    } else {
        "9"
    }
}

/// Renders a number in decimal, most significant digit first.
pub fn u64_to_string(n: u64) -> (s: String)
    ensures
        s@ == dec_digits(n as int),
    decreases n,
{
    if n < 10 {
        let s = String::from_str(digit_str(n));
        proof {
            assert(s@ =~= dec_digits(n as int));
        }
        s
    } else {
        let mut s = u64_to_string(n / 10);
        s.append(digit_str(n % 10));
        proof {
            assert(s@ =~= dec_digits(n as int));
        }
        s
    }
}

/// Writes an angle of `m` thousandths of a degree the way this tool stores
/// it: sign, whole degrees, a point, exactly three decimals.
pub fn format_milli(m: i64) -> (s: String)
    requires
        -1_000_000_000 <= m <= 1_000_000_000,
    ensures
        s@ == spec_format_milli(m as int),
{
    let a: u64 = if m < 0 {
        (-m) as u64
    } else {
        m as u64
    };
    let mut s = String::new();
    if m < 0 {
        proof {
            reveal_strlit("-");
        }
        s.append("-");
        proof {
            assert(s@ =~= seq!['-']);
        }
    }
    let whole = u64_to_string(a / 1000);
    s.append(whole.as_str());
    proof {
        reveal_strlit(".");
    }
    s.append(".");
    let f = a % 1000;
    s.append(digit_str(f / 100));
    s.append(digit_str((f / 10) % 10));
    s.append(digit_str(f % 10));
    proof {
        assert(s@ =~= spec_format_milli(m as int));
    }
    s
}

/// A digit or a dot cannot open any of the non-finite spellings.
proof fn lemma_digit_head_not_word(u: Seq<char>)
    requires
        u.len() > 0,
        is_digit(u[0]) || u[0] == '.',
    ensures
        !is_nonfinite_word(u),
{
    reveal_strlit("inf");
    reveal_strlit("infinity");
    reveal_strlit("nan");
    if eq_ci(u, "inf"@) {
        assert(char_matches_ci(u[0int], "inf"@[0]));
    }
    if eq_ci(u, "infinity"@) {
        assert(char_matches_ci(u[0int], "infinity"@[0]));
    }
    if eq_ci(u, "nan"@) {
        assert(char_matches_ci(u[0int], "nan"@[0]));
    }
}

/// Whether the characters of `s` from `pos` on spell `w` up to ASCII case.
fn tail_eq_ci(s: &str, pos: usize, w: &str) -> (r: bool)
    requires
        pos <= s@.len(),
    ensures
        r == eq_ci(s@.skip(pos as int), w@),
{
    let n = s.unicode_len();
    let m = w.unicode_len();
    if n - pos != m {
        return false;
    }
    let r = str_matches_ci_at(s, w, pos);
    proof {
        let u = s@.skip(pos as int);
        assert(forall|k: int| 0 <= k < u.len() ==> u[k] == s@[k + pos]);
        if matches_ci_at(s@, w@, pos as int) {
            assert forall|j: int| 0 <= j < w@.len() implies char_matches_ci(
                u[0 + j],
                w@[j],
            ) by {
                assert(char_matches_ci(s@[pos + j], w@[j]));
            }
        }
        if matches_ci_at(u, w@, 0) {
            assert forall|j: int| 0 <= j < w@.len() implies char_matches_ci(
                s@[pos as int + j],
                w@[j],
            ) by {
                assert(char_matches_ci(u[0 + j], w@[j]));
            }
        }
    }
    r
}

/// The exponent magnitude past which the numeral certainly leaves the model:
/// larger than any character count an input can have.
const EXP_SAT: u128 = 20_000_000_000_000_000_000;

/// The value of the validated digit string, kept to `keep` digits before
/// the implied decimal point and rounded half up at it, as the scaled value
/// of the digits; out of range when it exceeds the model's cap. The digits
/// stand in `s` at the whole-part and fraction positions the caller found.
#[verifier::loop_isolation(false)]
#[verifier::rlimit(100)]
fn value_from_digits(
    s: &str,
    pos: usize,
    di: usize,
    ipl: usize,
    fpl: usize,
    keep: i128,
    Ghost(dall): Ghost<Seq<char>>,
) -> (r: AngleReading)
    requires
        s@.len() <= usize::MAX,
        ipl + fpl <= s@.len(),
        pos + ipl <= s@.len(),
        fpl > 0 ==> di + 1 + fpl <= s@.len(),
        dall.len() == ipl + fpl,
        all_digits(dall),
        digits_val(dall) >= 1,
        forall|k: int| 0 <= k < ipl ==> #[trigger] dall[k] == s@[pos + k],
        forall|k: int| 0 <= k < fpl ==> #[trigger] dall[ipl + k] == s@[di + 1 + k],
        0 <= keep,
    ensures
        ({
            let v = scaled_value(dall, keep as int - (ipl + fpl) as int);
            &&& (r is OutOfRange <==> v > MAX_ABS_TENTH_MILLI as int)
            &&& (r matches AngleReading::Finite(x) ==> x as int == v && 0 <= x
                <= MAX_ABS_TENTH_MILLI)
        }),
{
    let len_d: usize = ipl + fpl;
    let ghost shift: int = keep as int - len_d as int;
    proof {
        reveal(pow);
        lemma_pow10_16();
    }
    let keep_or_len: usize = if keep >= len_d as i128 {
        len_d
    } else {
        keep as usize
    };
    let mut q: u64 = 0;
    let mut k: usize = 0;
    proof {
        assert(dall.take(0) =~= Seq::<char>::empty());
    }
    while k < keep_or_len
        invariant
            k <= keep_or_len,
            keep_or_len <= len_d,
            q as int == digits_val(dall.take(k as int)),
            q <= 1_000_000_000_000_000,
        decreases keep_or_len - k,
    {
        let abs = if k < ipl {
            pos + k
        } else {
            di + 1 + (k - ipl)
        };
        let c = s.get_char(abs);
        proof {
            if k < ipl {
                assert(dall[k as int] == s@[pos + k]);
            } else {
                assert(dall[ipl + (k - ipl)] == s@[di + 1 + (k - ipl)]);
            }
            assert(dall[k as int] == s@[abs as int]);
            assert(is_digit(dall[k as int]));
        }
        let d = (c as u32 - 48) as u64;
        proof {
            assert(dall.take(k + 1).drop_last() =~= dall.take(k as int));
            assert(dall.take(k + 1).last() == dall[k as int]);
        }
        let q2 = q * 10 + d;
        if q2 > 1_000_000_000_000_000 {
            proof {
                assert(all_digits(dall.take(keep_or_len as int))) by {
                    assert(forall|x: int|
                        0 <= x < keep_or_len ==> #[trigger] dall.take(keep_or_len as int)[x]
                            == dall[x]);
                }
                assert(dall.take(keep_or_len as int).take(k + 1) =~= dall.take(k + 1));
                lemma_digits_val_take_le(dall.take(keep_or_len as int), k + 1);
                if keep < len_d as i128 {
                    lemma_round_at_digit(dall, keep as int);
                } else {
                    assert(dall.take(len_d as int) =~= dall);
                    lemma_pow_positive(10, shift as nat);
                    assert(digits_val(dall) * pow(10, shift as nat) >= digits_val(dall))
                        by (nonlinear_arith)
                        requires
                            digits_val(dall) >= 0,
                            pow(10, shift as nat) >= 1,
                    ;
                }
            }
            return AngleReading::OutOfRange;
        }
        q = q2;
        k += 1;
    }
    if keep < len_d as i128 {
        let kk = keep as usize;
        let abs = if kk < ipl {
            pos + kk
        } else {
            di + 1 + (kk - ipl)
        };
        let c = s.get_char(abs);
        proof {
            if kk < ipl {
                assert(dall[kk as int] == s@[pos + kk]);
            } else {
                assert(dall[ipl + (kk - ipl)] == s@[di + 1 + (kk - ipl)]);
            }
            assert(dall[kk as int] == s@[abs as int]);
            assert(is_digit(dall[kk as int]));
            lemma_round_at_digit(dall, keep as int);
        }
        let carry: u64 = if (c as u32) >= 53 {
            1
        } else {
            0
        };
        let v = q + carry;
        if v > 1_000_000_000_000_000 {
            return AngleReading::OutOfRange;
        }
        return AngleReading::Finite(v as i64);
    }
    proof {
        assert(dall.take(len_d as int) =~= dall);
    }
    let shift_amt: i128 = keep - len_d as i128;
    if shift_amt > 16 {
        proof {
            lemma_pow_increases(10, 16, shift as nat);
            lemma_pow_positive(10, shift as nat);
            assert(digits_val(dall) * pow(10, shift as nat) >= pow(10, shift as nat))
                by (nonlinear_arith)
                requires
                    digits_val(dall) >= 1,
                    pow(10, shift as nat) > 0,
            ;
        }
        return AngleReading::OutOfRange;
    }
    let sa = shift_amt as usize;
    let mut v = q;
    let mut t: usize = 0;
    proof {
        reveal(pow);
        assert(pow(10, 0) == 1);
    }
    while t < sa
        invariant
            t <= sa,
            sa as int == shift,
            v as int == digits_val(dall) * pow(10, t as nat),
            v <= 1_000_000_000_000_000,
        decreases sa - t,
    {
        let v2 = v * 10;
        proof {
            reveal(pow);
            assert(pow(10, (t + 1) as nat) == 10 * pow(10, t as nat));
            assert((digits_val(dall) * pow(10, t as nat)) * 10 == digits_val(dall) * (10 * pow(
                10,
                t as nat,
            ))) by (nonlinear_arith);
        }
        if v2 > 1_000_000_000_000_000 {
            proof {
                lemma_pow_increases(10, (t + 1) as nat, shift as nat);
                lemma_digits_val_nonneg(dall);
                assert(digits_val(dall) * pow(10, shift as nat) >= digits_val(dall) * pow(
                    10,
                    (t + 1) as nat,
                )) by (nonlinear_arith)
                    requires
                        digits_val(dall) >= 0,
                        pow(10, shift as nat) >= pow(10, (t + 1) as nat),
                ;
            }
            return AngleReading::OutOfRange;
        }
        v = v2;
        t += 1;
    }
    AngleReading::Finite(v as i64)
}

/// Reads the exponent part after the marker at `ei`: its optional sign and
/// its digits, exact below `EXP_SAT` and saturated above it. `None` when the
/// digits are missing or broken.
#[verifier::loop_isolation(false)]
#[verifier::rlimit(100)]
fn read_exponent(s: &str, ei: usize) -> (r: Option<(bool, u128, bool)>)
    requires
        ei < s@.len(),
        s@.len() <= usize::MAX,
    ensures
        ({
            let ex = s@.skip(ei + 1);
            let exp_signed = ex.len() > 0 && (ex[0] == '+' || ex[0] == '-');
            let edig = if exp_signed {
                ex.drop_first()
            } else {
                ex
            };
            &&& (r is Some <==> edig.len() > 0 && all_digits(edig))
            &&& (r matches Some((exp_neg, e_acc, esat)) ==> {
                &&& exp_neg == (ex.len() > 0 && ex[0] == '-')
                &&& (!esat ==> e_acc as int == digits_val(edig) && e_acc < EXP_SAT)
                &&& (esat ==> digits_val(edig) >= EXP_SAT as int)
            })
        }),
{
    let n = s.unicode_len();
    let ghost ex: Seq<char> = s@.skip(ei + 1);
    proof {
        assert(forall|k: int| 0 <= k < ex.len() ==> ex[k] == s@[ei + 1 + k]);
    }
    let mut exp_neg = false;
    let mut j: usize = ei + 1;
    if j < n {
        let c = s.get_char(j);
        if c == '+' || c == '-' {
            exp_neg = c == '-';
            j += 1;
        }
    }
    let ghost edig: Seq<char> = s@.skip(j as int);
    proof {
        if j == ei + 1 {
            assert(edig =~= ex);
        } else {
            assert(edig =~= ex.drop_first());
        }
    }
    if j == n {
        return None;
    }
    let ghost edstart: int = j as int;
    let mut e_acc: u128 = 0;
    let mut esat = false;
    while j < n
        invariant
            edstart <= j <= n,
            edig == s@.skip(edstart),
            forall|k: int| 0 <= k < j - edstart ==> is_digit(#[trigger] edig[k]),
            !esat ==> e_acc as int == digits_val(edig.take(j - edstart)) && e_acc < EXP_SAT,
            esat ==> digits_val(edig.take(j - edstart)) >= EXP_SAT as int,
        decreases n - j,
    {
        let c = s.get_char(j);
        let cu = c as u32;
        proof {
            assert(edig[j - edstart] == s@[j as int]);
        }
        if !(48 <= cu && cu <= 57) {
            proof {
                assert(!is_digit(edig[j - edstart]));
                assert(!all_digits(edig));
            }
            return None;
        }
        let d = (cu - 48) as u128;
        proof {
            assert(edig.take(j - edstart + 1).drop_last() =~= edig.take(j - edstart));
            assert(edig.take(j - edstart + 1).last() == edig[j - edstart]);
            if esat {
                lemma_digits_val_nonneg(edig.take(j - edstart + 1));
            }
        }
        if !esat {
            let v2 = e_acc * 10 + d;
            if v2 >= EXP_SAT {
                esat = true;
            } else {
                e_acc = v2;
            }
        }
        j += 1;
    }
    proof {
        assert(edig.take(n - edstart) =~= edig);
        assert(all_digits(edig));
    }
    Some((exp_neg, e_acc, esat))
}

/// Checks that the whole-part and fraction spans hold digits only, and
/// whether any of them is non-zero. `None` on the first non-digit.
#[verifier::loop_isolation(false)]
#[verifier::rlimit(100)]
fn mantissa_flags(
    s: &str,
    pos: usize,
    di: usize,
    ei: usize,
    Ghost(ip): Ghost<Seq<char>>,
    Ghost(fp): Ghost<Seq<char>>,
) -> (r: Option<bool>)
    requires
        pos <= di <= ei <= s@.len(),
        s@.len() <= usize::MAX,
        ip.len() == di - pos,
        forall|k: int| 0 <= k < ip.len() ==> #[trigger] ip[k] == s@[pos + k],
        di < ei ==> fp.len() == ei - di - 1,
        di >= ei ==> fp.len() == 0,
        forall|k: int| 0 <= k < fp.len() ==> #[trigger] fp[k] == s@[di + 1 + k],
    ensures
        r is Some <==> all_digits(ip) && all_digits(fp),
        r is Some ==> (r->0 <==> digits_val(ip + fp) != 0),
{
    let ghost dall: Seq<char> = ip + fp;
    let mut any_nonzero = false;
    let mut i: usize = pos;
    while i < di
        invariant
            pos <= i <= di,
            forall|k: int| 0 <= k < i - pos ==> is_digit(#[trigger] ip[k]),
            !any_nonzero ==> forall|k: int| 0 <= k < i - pos ==> digit_val(#[trigger] ip[k]) == 0,
            any_nonzero ==> exists|k: int|
                0 <= k < dall.len() && digit_val(#[trigger] dall[k]) != 0,
        decreases di - i,
    {
        let c = s.get_char(i);
        let cu = c as u32;
        proof {
            assert(ip[i - pos] == s@[i as int]);
        }
        if !(48 <= cu && cu <= 57) {
            proof {
                assert(!is_digit(ip[i - pos]));
                assert(!all_digits(ip));
            }
            return None;
        }
        if cu != 48 {
            proof {
                assert(dall[i - pos] == ip[i - pos]);
                assert(digit_val(dall[i - pos]) != 0);
            }
            any_nonzero = true;
        }
        i += 1;
    }
    if di < ei {
        let mut j: usize = di + 1;
        while j < ei
            invariant
                di + 1 <= j <= ei,
                forall|k: int| 0 <= k < j - di - 1 ==> is_digit(#[trigger] fp[k]),
                !any_nonzero ==> (forall|k: int|
                    0 <= k < ip.len() ==> digit_val(#[trigger] ip[k]) == 0) && (forall|k: int|
                    0 <= k < j - di - 1 ==> digit_val(#[trigger] fp[k]) == 0),
                any_nonzero ==> exists|k: int|
                    0 <= k < dall.len() && digit_val(#[trigger] dall[k]) != 0,
            decreases ei - j,
        {
            let c = s.get_char(j);
            let cu = c as u32;
            proof {
                assert(fp[j - di - 1] == s@[j as int]);
            }
            if !(48 <= cu && cu <= 57) {
                proof {
                    assert(!is_digit(fp[j - di - 1]));
                    assert(!all_digits(fp));
                }
                return None;
            }
            if cu != 48 {
                proof {
                    assert(dall[ip.len() + (j - di - 1)] == fp[j - di - 1]);
                    assert(digit_val(dall[ip.len() + (j - di - 1)]) != 0);
                }
                any_nonzero = true;
            }
            j += 1;
        }
    }
    proof {
        assert(all_digits(ip));
        assert(all_digits(fp));
        assert(all_digits(dall)) by {
            assert forall|k: int| 0 <= k < dall.len() implies is_digit(#[trigger] dall[k]) by {
                if k < ip.len() {
                    assert(dall[k] == ip[k]);
                } else {
                    assert(dall[k] == fp[k - ip.len()]);
                }
            }
        }
        lemma_digits_val_zero(dall);
        lemma_digits_val_nonneg(dall);
        if !any_nonzero {
            assert forall|k: int| 0 <= k < dall.len() implies digit_val(#[trigger] dall[k])
                == 0 by {
                if k < ip.len() {
                    assert(dall[k] == ip[k]);
                } else {
                    assert(dall[k] == fp[k - ip.len()]);
                }
            }
            assert(digits_val(dall) == 0);
        } else {
            assert(digits_val(dall) != 0);
        }
    }
    Some(any_nonzero)
}

/// Reads an unsigned decimal-float numeral starting at `pos`: mantissa with
/// at most one dot, optional exponent. The finite value carries the caller's
/// sign; magnitudes beyond the model read as out of range.
#[verifier::loop_isolation(false)]
#[verifier::rlimit(100)]
fn read_numeral(s: &str, pos: usize, neg: bool) -> (r: Option<AngleReading>)
    requires
        pos <= s@.len(),
    ensures
        ({
            let v_opt = spec_numeral_tenth_milli(s@.skip(pos as int));
            &&& (r is Some <==> v_opt is Some)
            &&& (r is Some ==> ({
                let v = v_opt->0;
                &&& (r->0 is OutOfRange <==> v > MAX_ABS_TENTH_MILLI as int)
                &&& (r->0 matches AngleReading::Finite(x) ==> x as int == (if neg {
                    -v
                } else {
                    v
                }) && -MAX_ABS_TENTH_MILLI <= x <= MAX_ABS_TENTH_MILLI)
            }))
        }),
{
    let n = s.unicode_len();
    let ghost u: Seq<char> = s@.skip(pos as int);
    proof {
        assert(forall|k: int| 0 <= k < u.len() ==> u[k] == s@[k + pos]);
    }
    // Find the exponent marker, then the dot within the mantissa.
    let mut ei: usize = pos;
    while ei < n && s.get_char(ei) != 'e' && s.get_char(ei) != 'E'
        invariant
            pos <= ei <= n,
            forall|k: int| pos <= k < ei ==> s@[k] != 'e' && s@[k] != 'E',
        decreases n - ei,
    {
        ei += 1;
    }
    proof {
        assert(forall|k: int| 0 <= k < u.len() ==> u[k] == s@[k + pos]);
        lemma_find_exp_at(u, ei - pos);
    }
    let ghost mant: Seq<char> = u.take(ei - pos);
    let mut di: usize = pos;
    while di < ei && s.get_char(di) != '.'
        invariant
            pos <= di <= ei,
            ei <= n,
            forall|k: int| pos <= k < di ==> s@[k] != '.',
        decreases ei - di,
    {
        di += 1;
    }
    proof {
        assert(forall|k: int| 0 <= k < mant.len() ==> mant[k] == s@[k + pos]);
        lemma_find_dot_at(mant, di - pos);
    }
    let ghost ip: Seq<char> = mant.take(di - pos);
    let ghost fp: Seq<char> = if di < ei {
        mant.skip(di - pos + 1)
    } else {
        Seq::<char>::empty()
    };
    let ipl = di - pos;
    let fpl = if di < ei {
        ei - di - 1
    } else {
        0
    };
    let ghost dall: Seq<char> = ip + fp;
    proof {
        assert(ip.len() == ipl && fp.len() == fpl);
        assert(forall|k: int| 0 <= k < ip.len() ==> ip[k] == s@[k + pos]);
        assert(forall|k: int| 0 <= k < fp.len() ==> fp[k] == s@[di + 1 + k]);
    }
    if ipl + fpl == 0 {
        return None;
    }
    // Validate the mantissa digits; remember whether any is non-zero.
    let any_nonzero: bool = match mantissa_flags(s, pos, di, ei, Ghost(ip), Ghost(fp)) {
        None => {
            return None;
        },
        Some(flag) => flag,
    };
    proof {
        lemma_digits_val_nonneg(dall);
    }
    // The exponent part, exact below `EXP_SAT`, saturated above it.
    let mut exp_neg = false;
    let mut e_acc: u128 = 0;
    let mut esat = false;
    let ghost mut edig: Seq<char> = Seq::empty();
    if ei < n {
        proof {
            let ex = u.skip(ei - pos + 1);
            assert(ex =~= s@.skip(ei + 1));
            let exp_signed = ex.len() > 0 && (ex[0] == '+' || ex[0] == '-');
            edig = if exp_signed {
                ex.drop_first()
            } else {
                ex
            };
        }
        match read_exponent(s, ei) {
            None => {
                return None;
            },
            Some((rn, ra, rs)) => {
                exp_neg = rn;
                e_acc = ra;
                esat = rs;
            },
        }
    }
    let ghost e_val: int = if ei < n {
        if exp_neg {
            -digits_val(edig)
        } else {
            digits_val(edig)
        }
    } else {
        0
    };
    let ghost shift: int = e_val + 4 - fpl;
    proof {
        assert(spec_numeral_tenth_milli(u) == Some(scaled_value(dall, shift))) by {
            assert(mant == u.take(find_exp(u)));
            assert(ip == mant.take(find_dot(mant)));
            if di < ei {
                assert(fp == mant.skip(find_dot(mant) + 1));
            }
        }
    }
    let len_d: usize = ipl + fpl;
    if !any_nonzero {
        proof {
            if shift >= 0 {
                assert(scaled_value(dall, shift) == 0);
            } else {
                let b = pow(10, (-shift) as nat);
                lemma_pow_positive(10, (-shift) as nat);
                lemma_fundamental_div_mod_converse_div(0, b, 0, 0);
                lemma_fundamental_div_mod_converse_mod(0, b, 0, 0);
                assert(scaled_value(dall, shift) == 0);
            }
        }
        return Some(AngleReading::Finite(0));
    }
    proof {
        assert(digits_val(dall) >= 1);
        assert(dall.len() == len_d);
        assert(len_d as int <= usize::MAX as int);
        assert(usize::MAX as int <= 0xFFFF_FFFF_FFFF_FFFF);
        lemma_pow10_16();
    }
    if esat {
        if exp_neg {
            proof {
                lemma_round_vanishes(dall, (-shift) as nat);
            }
            return Some(AngleReading::Finite(0));
        } else {
            proof {
                lemma_pow_increases(10, 16, shift as nat);
                lemma_pow_positive(10, shift as nat);
                assert(digits_val(dall) * pow(10, shift as nat) >= pow(10, shift as nat))
                    by (nonlinear_arith)
                    requires
                        digits_val(dall) >= 1,
                        pow(10, shift as nat) > 0,
                ;
            }
            return Some(AngleReading::OutOfRange);
        }
    }
    let keep: i128 = ipl as i128 + 4 + (if exp_neg {
        -(e_acc as i128)
    } else {
        e_acc as i128
    });
    proof {
        assert(keep == ipl as int + e_val + 4);
        assert(shift == keep - len_d as int);
    }
    if keep < 0 {
        proof {
            lemma_round_vanishes(dall, (-shift) as nat);
        }
        return Some(AngleReading::Finite(0));
    }
    match value_from_digits(s, pos, di, ipl, fpl, keep, Ghost(dall)) {
        AngleReading::OutOfRange => Some(AngleReading::OutOfRange),
        AngleReading::Finite(x) => Some(
            AngleReading::Finite(
                if neg {
                    -x
                } else {
                    x
                },
            ),
        ),
    }
}

/// Reads a stored angle the way the original float reader accepted it: any
/// decimal floating-point numeral with optional sign, dot and exponent, and
/// the non-finite spellings in any case. A finite value within the model is
/// returned in ten-thousandths of a degree, rounded half up past the fourth
/// decimal; non-finite spellings and larger magnitudes read as out of range;
/// anything else is no numeral at all.
pub fn read_angle(s: &str) -> (r: Option<AngleReading>)
    ensures
        r is Some <==> spec_read_angle(s@) is Some,
        r is Some ==> reading_matches(r->0, spec_read_angle(s@)->0),
        (r matches Some(AngleReading::Finite(v)) ==> -MAX_ABS_TENTH_MILLI <= v
            <= MAX_ABS_TENTH_MILLI),
{
    let n = s.unicode_len();
    let mut pos: usize = 0;
    let mut neg = false;
    if n > 0 {
        let c0 = s.get_char(0);
        if c0 == '+' || c0 == '-' {
            neg = c0 == '-';
            pos = 1;
        }
    }
    let ghost u: Seq<char> = s@.skip(pos as int);
    proof {
        if pos == 1 {
            assert(u =~= s@.drop_first());
        } else {
            assert(u =~= s@);
        }
    }
    // The non-finite spellings.
    if tail_eq_ci(s, pos, "inf") || tail_eq_ci(s, pos, "infinity") || tail_eq_ci(s, pos, "nan") {
        return Some(AngleReading::OutOfRange);
    }
    read_numeral(s, pos, neg)
}

/// Writing an angle with three decimals and reading it back returns exactly
/// the value that was written, as ten-thousandths of a degree.
#[verifier::rlimit(100)]
pub proof fn lemma_format_read_round_trip(m: int)
    requires
        -1_000_000 <= m <= 1_000_000,
    ensures
        spec_read_angle(spec_format_milli(m)) == Some(SpecReading::Finite(m * 10)),
{
    let a: int = if m < 0 {
        -m
    } else {
        m
    };
    let ip = dec_digits(a / 1000);
    let f = a % 1000;
    let fp = frac3_digits(f);
    let body = ip + seq!['.'] + fp;
    lemma_dec_digits_are_digits(a / 1000);
    lemma_dec_digits_val(a / 1000);
    lemma_frac3_val(f);
    assert(forall|k: int| 0 <= k < ip.len() ==> body[k] == ip[k]);
    assert(body[ip.len() as int] == '.');
    assert(forall|k: int| 0 <= k < fp.len() ==> body[ip.len() + 1 + k] == fp[k]);
    assert forall|k: int| 0 <= k < body.len() implies body[k] != 'e' && body[k] != 'E' by {
        if k < ip.len() {
            assert(is_digit(body[k]));
        } else if k > ip.len() {
            assert(body[k] == fp[k - ip.len() - 1]);
            assert(is_digit(body[k]));
        }
    }
    lemma_find_exp_at(body, body.len() as int);
    assert(body.take(body.len() as int) =~= body);
    assert(forall|k: int| 0 <= k < ip.len() ==> body[k] != '.');
    lemma_find_dot_at(body, ip.len() as int);
    assert(body.take(ip.len() as int) =~= ip);
    assert(body.skip(ip.len() as int + 1) =~= fp);
    // The numeral's digit string is worth exactly the formatted magnitude.
    let dall = ip + fp;
    assert(all_digits(dall)) by {
        assert forall|k: int| 0 <= k < dall.len() implies is_digit(#[trigger] dall[k]) by {
            if k < ip.len() {
                assert(dall[k] == ip[k]);
            } else {
                assert(dall[k] == fp[k - ip.len()]);
            }
        }
    }
    assert(digits_val(dall) == a) by {
        lemma_digits_val_split(dall, ip.len() as int);
        assert(dall.take(ip.len() as int) =~= ip);
        assert(dall.skip(ip.len() as int) =~= fp);
        assert(pow(10, 3) == 1000) by {
            reveal(pow);
            assert(pow(10, 0) == 1);
            assert(pow(10, 1) == 10);
            assert(pow(10, 2) == 100);
            assert(pow(10, 3) == 1000);
        }
        assert((a / 1000) * 1000 + a % 1000 == a) by (nonlinear_arith)
            requires
                a >= 0,
        ;
    }
    assert(spec_numeral_tenth_milli(body) == Some(scaled_value(dall, 1)));
    assert(scaled_value(dall, 1) == a * 10) by {
        reveal(pow);
        assert(pow(10, 0) == 1);
        assert(pow(10, 1) == 10);
    }
    assert(is_digit(body[0])) by {
        assert(body[0] == ip[0]);
    }
    lemma_digit_head_not_word(body);
    if m < 0 {
        let whole = seq!['-'] + body;
        assert(spec_format_milli(m) == whole);
        assert(whole[0] == '-');
        assert(whole.drop_first() =~= body);
        assert(spec_read_angle(whole) == Some(SpecReading::Finite(-(a * 10))));
    } else {
        assert(spec_format_milli(m) == body);
        assert(body[0] != '+' && body[0] != '-');
        assert(spec_read_angle(body) == Some(SpecReading::Finite(a * 10)));
    }
}

} // verus!
