//! Floating-point numbers of the interpreter's numeric tower, kept as their
//! IEEE 754 double-precision bit patterns (`u64`). All arithmetic on them is
//! done by `rustc_apfloat`, a software implementation of IEEE 754 whose
//! results are a pure function of the operand bit patterns; each operation is
//! named by an uninterpreted spec function.
use vstd::prelude::*;

use crate::strutil::is_digit;
use rustc_apfloat::Float;
use rustc_apfloat::ieee::Double;

verus! {

/// The sign bit of a double-precision value.
pub const F64_SIGN_MASK: u64 = 0x8000_0000_0000_0000;

/// All bits of a double-precision value except the sign bit.
pub const F64_ABS_MASK: u64 = 0x7FFF_FFFF_FFFF_FFFF;

/// Bit pattern of `1.0`.
pub const F64_ONE_BITS: u64 = 0x3FF0_0000_0000_0000;

/// Bit pattern of `0.0` (positive zero).
pub const F64_ZERO_BITS: u64 = 0;

/// Bit pattern of the machine epsilon for doubles, `2^-52`.
pub const F64_EPSILON_BITS: u64 = 0x3CB0_0000_0000_0000;

/// Bit pattern of positive infinity.
pub const F64_INFINITY_BITS: u64 = 0x7FF0_0000_0000_0000;

/// Bit pattern of negative infinity.
pub const F64_NEG_INFINITY_BITS: u64 = 0xFFF0_0000_0000_0000;

/// Bit pattern of the quiet NaN that a parsed `nan` literal denotes.
pub const F64_NAN_BITS: u64 = 0x7FF8_0000_0000_0000;

/// The exponent field of a double-precision value.
pub const F64_EXP_MASK: u64 = 0x7FF0_0000_0000_0000;

/// The mantissa field of a double-precision value.
pub const F64_MANTISSA_MASK: u64 = 0x000F_FFFF_FFFF_FFFF;

/// The bit pattern of the IEEE sum of the two doubles given by bit pattern.
pub uninterp spec fn float_add_bits(a: u64, b: u64) -> u64;

/// The bit pattern of the IEEE difference of the two doubles given by bit pattern.
pub uninterp spec fn float_sub_bits(a: u64, b: u64) -> u64;

/// The bit pattern of the IEEE product of the two doubles given by bit pattern.
pub uninterp spec fn float_mul_bits(a: u64, b: u64) -> u64;

/// The bit pattern of the IEEE quotient of the two doubles given by bit pattern.
pub uninterp spec fn float_div_bits(a: u64, b: u64) -> u64;

/// Whether the double given by `a` compares IEEE-less-than the one given by `b`.
pub uninterp spec fn float_lt_bits(a: u64, b: u64) -> bool;

/// Whether the doubles given by `a` and `b` compare IEEE-equal.
pub uninterp spec fn float_eq_bits(a: u64, b: u64) -> bool;

/// The bit pattern of the double given by `a`, rounded toward negative infinity
/// to an integral value.
pub uninterp spec fn float_floor_bits(a: u64) -> u64;

/// The bit pattern of the double nearest to the integer `i` (ties to even).
pub uninterp spec fn float_of_int_bits(i: int) -> u64;

/// The bit pattern that the decimal text `s` denotes, correctly rounded.
pub uninterp spec fn float_of_text(s: Seq<char>) -> u64;

/// Whether decimal-to-binary conversion accepts the text `s`.
pub uninterp spec fn float_parse_ok(s: Seq<char>) -> bool;

/// The decimal rendering of the double given by bit pattern `a` with at most
/// `digits` significant digits.
pub uninterp spec fn float_text_digits(a: u64, digits: int) -> Seq<char>;

/// The bit pattern of the IEEE negation of the double given by `a`: negation
/// flips exactly the sign bit.
pub open spec fn float_neg_bits(a: u64) -> u64 {
    a ^ F64_SIGN_MASK
}

/// Relies on `rustc_apfloat`'s `Double` addition (round to nearest, ties to
/// even), a pure function of the operand bit patterns.
#[verifier::external_body]
pub(crate) fn float_add(a: u64, b: u64) -> (r: u64)
    ensures
        r == float_add_bits(a, b),
{
    (Double::from_bits(a as u128) + Double::from_bits(b as u128)).value.to_bits() as u64
}

/// Relies on `rustc_apfloat`'s `Double` subtraction (round to nearest, ties to
/// even), a pure function of the operand bit patterns.
#[verifier::external_body]
pub(crate) fn float_sub(a: u64, b: u64) -> (r: u64)
    ensures
        r == float_sub_bits(a, b),
{
    (Double::from_bits(a as u128) - Double::from_bits(b as u128)).value.to_bits() as u64
}

/// Relies on `rustc_apfloat`'s `Double` multiplication (round to nearest, ties
/// to even), a pure function of the operand bit patterns.
#[verifier::external_body]
pub(crate) fn float_mul(a: u64, b: u64) -> (r: u64)
    ensures
        r == float_mul_bits(a, b),
{
    (Double::from_bits(a as u128) * Double::from_bits(b as u128)).value.to_bits() as u64
}

/// Relies on `rustc_apfloat`'s `Double` division (round to nearest, ties to
/// even), a pure function of the operand bit patterns.
#[verifier::external_body]
pub(crate) fn float_div(a: u64, b: u64) -> (r: u64)
    ensures
        r == float_div_bits(a, b),
{
    (Double::from_bits(a as u128) / Double::from_bits(b as u128)).value.to_bits() as u64
}

/// Relies on `rustc_apfloat`'s `PartialOrd` for `Double`, which implements the
/// IEEE comparison predicate (`NaN` is unordered).
#[verifier::external_body]
pub(crate) fn float_lt(a: u64, b: u64) -> (r: bool)
    ensures
        r == float_lt_bits(a, b),
{
    Double::from_bits(a as u128) < Double::from_bits(b as u128)
}

/// Relies on `rustc_apfloat`'s `PartialEq` for `Double`, which implements IEEE
/// equality (`NaN != NaN`, and positive zero equals negative zero).
#[verifier::external_body]
pub(crate) fn float_eq(a: u64, b: u64) -> (r: bool)
    ensures
        r == float_eq_bits(a, b),
{
    Double::from_bits(a as u128) == Double::from_bits(b as u128)
}

/// Relies on `rustc_apfloat`'s `round_to_integral` with rounding toward
/// negative infinity, which is the IEEE floor operation.
#[verifier::external_body]
pub(crate) fn float_floor(a: u64) -> (r: u64)
    ensures
        r == float_floor_bits(a),
{
    Double::from_bits(a as u128).round_to_integral(rustc_apfloat::Round::TowardNegative).value.to_bits() as u64
}

/// Relies on `rustc_apfloat`'s `from_i128`, the correctly rounded conversion
/// from an integer to a double (round to nearest, ties to even).
#[verifier::external_body]
pub(crate) fn float_of_int(i: i64) -> (r: u64)
    ensures
        r == float_of_int_bits(i as int),
{
    Double::from_i128(i as i128).value.to_bits() as u64
}

/// Relies on `rustc_apfloat`'s `from_str` for `Double`: a correctly rounded
/// decimal-to-binary conversion, a pure function of the text (so whether it
/// accepts is one too). Its source accepts every string of the form
/// `[+-]? digits [. digits] [(e|E) [+-] digits]` (one dot at most, at least
/// one digit in the significand), so on such strings it returns `Ok`.
#[verifier::external_body]
pub(crate) fn float_parse(s: &str) -> (r: Option<u64>)
    ensures
        r is Some <==> float_parse_ok(s@),
        r is Some ==> r->0 == float_of_text(s@),
        is_decimal_float_text(s@) ==> r is Some,
{
    match <Double as core::str::FromStr>::from_str(s) {
        Ok(d) => Some(d.to_bits() as u64),
        Err(_) => None,
    }
}

/// Relies on `rustc_apfloat`'s `Display` for `Double` with an explicit
/// precision: at most `digits` significant decimal digits (round half up),
/// trailing zeros trimmed, exponent notation when the value is far from one.
/// A pure function of the bit pattern and the digit count.
#[verifier::external_body]
pub(crate) fn float_render_digits(a: u64, digits: usize) -> (r: String)
    ensures
        r@ == float_text_digits(a, digits as int),
{
    format!("{:.*}", digits, Double::from_bits(a as u128))
}

/// Whether the bit pattern `a` is a NaN: exponent all ones and a nonzero
/// mantissa.
pub open spec fn is_nan_bits(a: u64) -> bool {
    a & F64_EXP_MASK == F64_EXP_MASK && a & F64_MANTISSA_MASK != 0
}

/// Whether rendering `a` with `digits` significant digits reads back as `a`.
pub open spec fn float_round_trips(a: u64, digits: int) -> bool {
    float_parse_ok(float_text_digits(a, digits)) && float_of_text(float_text_digits(a, digits))
        == a
}

/// The rendering of `a` with the fewest significant digits, at least
/// `digits`, that reads back as `a`; seventeen digits at the most.
pub open spec fn shortest_text_from(a: u64, digits: int) -> Seq<char>
    decreases 17 - digits,
{
    if digits >= 17 {
        float_text_digits(a, 17)
    } else if float_round_trips(a, digits) {
        float_text_digits(a, digits)
    } else {
        shortest_text_from(a, digits + 1)
    }
}

/// The textual rendering of the double given by bit pattern `a`: `NaN`,
/// `inf` and `-inf` for the non-finite values, and for a finite value its
/// decimal rendering with the fewest significant digits that reads back as
/// the same bit pattern.
pub open spec fn float_shortest_text(a: u64) -> Seq<char> {
    if is_nan_bits(a) {
        "NaN"@
    } else if a == F64_INFINITY_BITS {
        "inf"@
    } else if a == F64_NEG_INFINITY_BITS {
        "-inf"@
    } else {
        shortest_text_from(a, 1)
    }
}

/// Renders the double given by bit pattern `a`, exactly as
/// `float_shortest_text` describes: the rendering with the fewest
/// significant digits that reads back as the same bit pattern.
pub fn float_shortest(a: u64) -> (r: String)
    ensures
        r@ == float_shortest_text(a),
{
    if a & F64_EXP_MASK == F64_EXP_MASK {
        if a & F64_MANTISSA_MASK != 0 {
            return String::from_str("NaN");
        }
        if a & F64_SIGN_MASK != 0 {
            proof {
                assert(a == 0xFFF0_0000_0000_0000u64) by (bit_vector)
                    requires
                        a & 0x7FF0_0000_0000_0000u64 == 0x7FF0_0000_0000_0000u64 && a
                            & 0x000F_FFFF_FFFF_FFFFu64 == 0 && a & 0x8000_0000_0000_0000u64 != 0,
                ;
            }
            return String::from_str("-inf");
        }
        proof {
            assert(a == 0x7FF0_0000_0000_0000u64) by (bit_vector)
                requires
                    a & 0x7FF0_0000_0000_0000u64 == 0x7FF0_0000_0000_0000u64 && a
                        & 0x000F_FFFF_FFFF_FFFFu64 == 0 && a & 0x8000_0000_0000_0000u64 == 0,
            ;
        }
        return String::from_str("inf");
    }
    proof {
        assert(0x7FF0_0000_0000_0000u64 & 0x7FF0_0000_0000_0000u64 == 0x7FF0_0000_0000_0000u64)
            by (bit_vector);
        assert(0xFFF0_0000_0000_0000u64 & 0x7FF0_0000_0000_0000u64 == 0x7FF0_0000_0000_0000u64)
            by (bit_vector);
    }
    let mut digits: usize = 1;
    while digits < 17
        invariant
            1 <= digits <= 17,
            !is_nan_bits(a),
            a != F64_INFINITY_BITS,
            a != F64_NEG_INFINITY_BITS,
            shortest_text_from(a, digits as int) == shortest_text_from(a, 1),
        decreases 17 - digits,
    {
        let s = float_render_digits(a, digits);
        match float_parse(s.as_str()) {
            Some(b) => {
                if b == a {
                    return s;
                }
            },
            None => {},
        }
        digits += 1;
    }
    float_render_digits(a, 17)
}

/// The position of the first `e` or `E` in `s`, or the length of `s` when
/// there is none.
pub open spec fn first_exp_index(s: Seq<char>) -> int
    decreases s.len(),
{
    if s.len() == 0 {
        0
    } else if s[0] == 'e' || s[0] == 'E' {
        0
    } else {
        1 + first_exp_index(s.drop_first())
    }
}

/// The first exponent marker lies within the text.
pub proof fn lemma_first_exp_index_range(s: Seq<char>)
    ensures
        0 <= first_exp_index(s) <= s.len(),
        forall|j: int| 0 <= j < first_exp_index(s) ==> #[trigger] s[j] != 'e' && s[j] != 'E',
    decreases s.len(),
{
    if s.len() == 0 {
    } else if s[0] == 'e' || s[0] == 'E' {
    } else {
        lemma_first_exp_index_range(s.drop_first());
        assert(forall|j: int|
            1 <= j < first_exp_index(s) ==> #[trigger] s[j] == s.drop_first()[j - 1]);
    }
}

/// The digits of a decimal float lexeme after its optional sign: mantissa
/// digits up to the first `e`/`E`, then, if that marker is present, an
/// exponent part.
pub open spec fn is_float_digits(s: Seq<char>) -> bool {
    let k = first_exp_index(s);
    is_mantissa(s.take(k)) && (k == s.len() || is_exponent(s.skip(k)))
}

/// Digits with at most one dot among them and at least one digit.
pub open spec fn is_mantissa(s: Seq<char>) -> bool {
    &&& s.len() > 0
    &&& exists|i: int| 0 <= i < s.len() && is_digit(#[trigger] s[i])
    &&& forall|i: int| 0 <= i < s.len() ==> (is_digit(#[trigger] s[i]) || s[i] == '.')
    &&& forall|i: int, j: int|
        0 <= i < j < s.len() && #[trigger] s[i] == '.' && #[trigger] s[j] == '.' ==> false
}

/// Only digits from position `from` to the end, and at least one.
pub open spec fn all_digits_from(s: Seq<char>, from: int) -> bool {
    from < s.len() && forall|i: int| from <= i < s.len() ==> is_digit(#[trigger] s[i])
}

/// An exponent part: `e` or `E`, an optional sign, and at least one digit.
pub open spec fn is_exponent(s: Seq<char>) -> bool {
    &&& s.len() >= 2
    &&& (s[0] == 'e' || s[0] == 'E')
    &&& (if s[1] == '+' || s[1] == '-' {
        all_digits_from(s, 2)
    } else {
        all_digits_from(s, 1)
    })
}

/// A decimal float lexeme: an optional sign, then mantissa digits and an
/// optional exponent part.
pub open spec fn is_decimal_float_text(s: Seq<char>) -> bool {
    if s.len() > 0 && (s[0] == '+' || s[0] == '-') {
        is_float_digits(s.skip(1))
    } else {
        is_float_digits(s)
    }
}

/// Whether `c` is the letter `l` or its upper-case form `u`.
pub open spec fn letter_ci(c: char, l: char, u: char) -> bool {
    c == l || c == u
}

/// The word `inf`, in any case.
pub open spec fn is_inf_body(s: Seq<char>) -> bool {
    s.len() == 3 && letter_ci(s[0], 'i', 'I') && letter_ci(s[1], 'n', 'N') && letter_ci(
        s[2],
        'f',
        'F',
    )
}

/// The word `infinity`, in any case.
pub open spec fn is_infinity_body(s: Seq<char>) -> bool {
    &&& s.len() == 8
    &&& letter_ci(s[0], 'i', 'I')
    &&& letter_ci(s[1], 'n', 'N')
    &&& letter_ci(s[2], 'f', 'F')
    &&& letter_ci(s[3], 'i', 'I')
    &&& letter_ci(s[4], 'n', 'N')
    &&& letter_ci(s[5], 'i', 'I')
    &&& letter_ci(s[6], 't', 'T')
    &&& letter_ci(s[7], 'y', 'Y')
}

/// The word `nan`, in any case.
pub open spec fn is_nan_body(s: Seq<char>) -> bool {
    s.len() == 3 && letter_ci(s[0], 'n', 'N') && letter_ci(s[1], 'a', 'A') && letter_ci(
        s[2],
        'n',
        'N',
    )
}

/// What the lexeme `s` denotes as a float literal: the bit pattern of an
/// infinity or NaN word with its optional sign, the correctly rounded value
/// of decimal float text, and nothing for any other text. This is the float
/// grammar of `f64` parsing.
pub open spec fn spec_float_value(s: Seq<char>) -> Option<u64> {
    let neg = s.len() > 0 && s[0] == '-';
    let body = if s.len() > 0 && (s[0] == '+' || s[0] == '-') {
        s.skip(1)
    } else {
        s
    };
    let sign: u64 = if neg {
        F64_SIGN_MASK
    } else {
        0
    };
    if is_inf_body(body) || is_infinity_body(body) {
        Some(F64_INFINITY_BITS | sign)
    } else if is_nan_body(body) {
        Some(F64_NAN_BITS | sign)
    } else if is_decimal_float_text(s) {
        Some(float_of_text(s))
    } else {
        None
    }
}

/// `first_exp_index` returns the position of the first `e`/`E`.
proof fn lemma_first_exp_index(s: Seq<char>, k: int)
    requires
        0 <= k <= s.len(),
        forall|j: int| 0 <= j < k ==> #[trigger] s[j] != 'e' && s[j] != 'E',
        k == s.len() || s[k] == 'e' || s[k] == 'E',
    ensures
        first_exp_index(s) == k,
    decreases s.len(),
{
    if s.len() == 0 {
    } else if s[0] == 'e' || s[0] == 'E' {
        assert(k == 0);
    } else {
        assert(k >= 1);
        let t = s.drop_first();
        assert(forall|j: int| 0 <= j < k - 1 ==> #[trigger] t[j] != 'e' && t[j] != 'E') by {
            assert(forall|j: int| 0 <= j < t.len() ==> #[trigger] t[j] == s[j + 1]);
        }
        lemma_first_exp_index(t, k - 1);
    }
}

/// Decides whether the characters of `cs` between `start` and `k` are a
/// mantissa: digits with at most one dot among them and at least one digit.
fn scan_mantissa(cs: &Vec<char>, start: usize, k: usize) -> (r: bool)
    requires
        start <= k <= cs@.len(),
    ensures
        r == is_mantissa(cs@.subrange(start as int, k as int)),
{
    let ghost mant = cs@.subrange(start as int, k as int);
    proof {
        assert(forall|m: int| 0 <= m < mant.len() ==> #[trigger] mant[m] == cs@[start + m]);
    }
    let mut has_digit = false;
    let mut seen_dot = false;
    let mut i: usize = start;
    while i < k
        invariant
            start <= i <= k <= cs@.len(),
            mant == cs@.subrange(start as int, k as int),
            forall|m: int| 0 <= m < mant.len() ==> #[trigger] mant[m] == cs@[start + m],
            forall|m: int| 0 <= m < i - start ==> (is_digit(#[trigger] mant[m]) || mant[m] == '.'),
            has_digit <==> exists|m: int| 0 <= m < i - start && is_digit(#[trigger] mant[m]),
            seen_dot <==> exists|m: int| 0 <= m < i - start && #[trigger] mant[m] == '.',
            forall|m1: int, m2: int|
                0 <= m1 < i - start && 0 <= m2 < i - start && #[trigger] mant[m1] == '.'
                    && #[trigger] mant[m2] == '.' ==> m1 == m2,
        decreases k - i,
    {
        let c = cs[i];
        proof {
            assert(mant[i - start] == c);
        }
        if c == '.' {
            if seen_dot {
                proof {
                    let m1 = choose|m: int| 0 <= m < i - start && #[trigger] mant[m] == '.';
                    assert(mant[m1] == '.' && mant[i - start] == '.' && m1 < i - start);
                    assert(!is_mantissa(mant));
                }
                return false;
            }
            seen_dot = true;
        } else if c >= '0' && c <= '9' {
            has_digit = true;
        } else {
            proof {
                assert(!(is_digit(mant[i - start]) || mant[i - start] == '.'));
                assert(!is_mantissa(mant));
            }
            return false;
        }
        i += 1;
    }
    if !has_digit {
        proof {
            assert(!is_mantissa(mant));
        }
        return false;
    }
    proof {
        assert(is_mantissa(mant));
    }
    true
}

/// Decides whether the characters of `cs` from the marker at `k` on form an
/// exponent part: `e`/`E`, an optional sign, then at least one digit.
fn scan_exponent(cs: &Vec<char>, k: usize) -> (r: bool)
    requires
        k < cs@.len(),
        cs@[k as int] == 'e' || cs@[k as int] == 'E',
    ensures
        r == is_exponent(cs@.skip(k as int)),
{
    let ghost ex = cs@.skip(k as int);
    proof {
        assert(forall|m: int| 0 <= m < ex.len() ==> #[trigger] ex[m] == cs@[k + m]);
    }
    let n = cs.len();
    let mut j: usize = k + 1;
    if j < n && (cs[j] == '+' || cs[j] == '-') {
        j += 1;
    }
    let ghost digits_from = j as int;
    proof {
        if ex.len() >= 2 {
            assert((digits_from == k + 2) <==> (ex[1] == '+' || ex[1] == '-'));
        }
    }
    if j == n {
        proof {
            assert(!is_exponent(ex));
        }
        return false;
    }
    while j < n
        invariant
            digits_from <= j <= n,
            n == cs@.len(),
            digits_from < n,
            ex == cs@.skip(k as int),
            forall|m: int| 0 <= m < ex.len() ==> #[trigger] ex[m] == cs@[k + m],
            ex[0] == 'e' || ex[0] == 'E',
            ex.len() >= 2,
            k < digits_from <= k + 2,
            (digits_from == k + 2) <==> (ex[1] == '+' || ex[1] == '-'),
            forall|m: int| digits_from - k <= m < j - k ==> is_digit(#[trigger] ex[m]),
        decreases n - j,
    {
        let c = cs[j];
        proof {
            assert(ex[j - k] == c);
        }
        if c < '0' || c > '9' {
            proof {
                assert(!is_digit(ex[j - k]));
                assert(!all_digits_from(ex, digits_from - k));
                assert(!is_exponent(ex));
            }
            return false;
        }
        j += 1;
    }
    proof {
        assert(all_digits_from(ex, digits_from - k));
        assert(is_exponent(ex));
    }
    true
}

/// Decides whether `cs` is a decimal float lexeme, exactly as
/// `is_decimal_float_text` describes.
pub fn is_decimal_shape(cs: &Vec<char>) -> (r: bool)
    ensures
        r == is_decimal_float_text(cs@),
{
    let n = cs.len();
    let start: usize = if n > 0 && (cs[0] == '+' || cs[0] == '-') {
        1
    } else {
        0
    };
    let ghost body = cs@.skip(start as int);
    proof {
        assert(forall|i: int| 0 <= i < body.len() ==> #[trigger] body[i] == cs@[start + i]);
    }
    // Find the first exponent marker.
    let mut k: usize = start;
    while k < n && !(cs[k] == 'e' || cs[k] == 'E')
        invariant
            start <= k <= n,
            n == cs@.len(),
            forall|j: int| start <= j < k ==> #[trigger] cs@[j] != 'e' && cs@[j] != 'E',
        decreases n - k,
    {
        k += 1;
    }
    let ghost mant = cs@.subrange(start as int, k as int);
    let ghost ex = cs@.skip(k as int);
    proof {
        assert(forall|j: int| 0 <= j < k - start ==> #[trigger] body[j] != 'e' && body[j] != 'E');
        lemma_first_exp_index(body, k - start);
        assert(body.take(k - start) =~= mant);
        assert(ex =~= body.skip(k - start));
        if start == 1 {
            assert(cs@.skip(1) =~= body);
        } else {
            assert(cs@ =~= body);
        }
        assert(is_decimal_float_text(cs@) == (is_mantissa(mant) && (k == n || is_exponent(ex))));
    }
    if !scan_mantissa(cs, start, k) {
        return false;
    }
    if k == n {
        return true;
    }
    scan_exponent(cs, k)
}

/// The value of the lexeme `cs` as a float literal, exactly as
/// `spec_float_value` describes. `s` holds the same characters.
pub fn float_lexeme_value(cs: &Vec<char>, s: &str) -> (r: Option<u64>)
    requires
        cs@ == s@,
    ensures
        r == spec_float_value(s@),
{
    let n = cs.len();
    let neg = n > 0 && cs[0] == '-';
    let start: usize = if n > 0 && (cs[0] == '+' || cs[0] == '-') {
        1
    } else {
        0
    };
    let sign: u64 = if neg {
        F64_SIGN_MASK
    } else {
        0
    };
    let ghost body = cs@.skip(start as int);
    proof {
        assert(forall|i: int| 0 <= i < body.len() ==> #[trigger] body[i] == cs@[start + i]);
    }
    let m = n - start;
    if m == 3 && (cs[start] == 'i' || cs[start] == 'I') && (cs[start + 1] == 'n' || cs[start + 1]
        == 'N') && (cs[start + 2] == 'f' || cs[start + 2] == 'F') {
        return Some(F64_INFINITY_BITS | sign);
    }
    if m == 8 && (cs[start] == 'i' || cs[start] == 'I') && (cs[start + 1] == 'n' || cs[start + 1]
        == 'N') && (cs[start + 2] == 'f' || cs[start + 2] == 'F') && (cs[start + 3] == 'i'
        || cs[start + 3] == 'I') && (cs[start + 4] == 'n' || cs[start + 4] == 'N') && (cs[start + 5]
        == 'i' || cs[start + 5] == 'I') && (cs[start + 6] == 't' || cs[start + 6] == 'T') && (cs[
        start + 7] == 'y' || cs[start + 7] == 'Y') {
        return Some(F64_INFINITY_BITS | sign);
    }
    if m == 3 && (cs[start] == 'n' || cs[start] == 'N') && (cs[start + 1] == 'a' || cs[start + 1]
        == 'A') && (cs[start + 2] == 'n' || cs[start + 2] == 'N') {
        return Some(F64_NAN_BITS | sign);
    }
    if is_decimal_shape(cs) {
        match float_parse(s) {
            Some(b) => Some(b),
            None => {
                proof {
                    assert(false);
                }
                None
            },
        }
    } else {
        None
    }
}

} // verus!
