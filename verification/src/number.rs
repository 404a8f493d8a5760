//! How a number is shown: in fixed-point notation while its magnitude is
//! familiar, with a power of ten behind it otherwise.

use crate::decimal::{
    fixed_point_text, lemma_integer_text_is_ascii, lemma_normalized_is_decimal,
    lemma_trailing_zeros_bound, Decimal, DecimalView, MAX_FRACTION_DIGITS,
};
use crate::text::{int_text, int_to_string};
use vstd::math::min;
use vstd::prelude::*;
use vstd::string::*;

verus! {

/// Most decimal digits that are shown before a power of ten.
pub const MANTISSA_DIGITS: usize = 3;

/// Sign and leading digit of a decimal written in scientific notation.
pub open spec fn int_digits(d: DecimalView) -> Seq<char> {
    d.unscaled.take(d.sign_len() + 1)
}

/// The digits behind the leading one.
pub open spec fn dec_digits(d: DecimalView) -> Seq<char> {
    d.unscaled.skip(d.sign_len() + 1)
}

/// The power of ten that the leading digit stands at.
pub open spec fn exponent(d: DecimalView) -> int {
    d.unscaled.len() - d.sign_len() - 1 - d.scale
}

/// The first `max` items of a sequence, or all of it if it has fewer.
pub open spec fn truncated(s: Seq<char>, max: nat) -> Seq<char> {
    if s.len() <= max {
        s
    } else {
        s.take(max as int)
    }
}

/// The notation that a number is shown in.
#[derive(Debug, Clone, Copy, PartialEq, Eq, Structural)]
pub enum NumberFormat {
    /// Fixed-point, with this many fractional digits.
    Fixed(usize),
    /// Leading digit, a few decimals and a power of ten.
    Scientific,
}

/// The notation for a number whose scientific form has `dec_len` digits
/// behind the leading one and the given exponent. From thousandths up to
/// thousands the notation is fixed-point, and shows at most
/// [`MAX_FRACTION_DIGITS`] digits behind the leading one: a number of ones or
/// more loses the fractional digits that its integer part takes up, and has
/// none if its digits end before the point; a number below one keeps the
/// zeros that follow the point.
pub open spec fn spec_number_format(dec_len: nat, exponent: int) -> NumberFormat {
    if 0 <= exponent < 4 {
        if dec_len < exponent {
            NumberFormat::Fixed(0)
        } else {
            NumberFormat::Fixed((min(dec_len as int, MAX_FRACTION_DIGITS as int) - exponent) as usize)
        }
    } else if -3 <= exponent < 0 {
        NumberFormat::Fixed(min(dec_len - exponent, MAX_FRACTION_DIGITS as int) as usize)
    } else {
        NumberFormat::Scientific
    }
}

/// What follows the digits in scientific notation: nothing for the power
/// zero, else `x10^` and the exponent.
pub open spec fn exponent_suffix(exponent: int) -> Seq<char> {
    if exponent == 0 {
        Seq::empty()
    } else {
        seq!['x', '1', '0', '^'] + int_text(exponent)
    }
}

/// Scientific notation: the leading digit, a point and up to
/// [`MANTISSA_DIGITS`] decimals if there are any, and the power of ten.
pub open spec fn scientific_text(int_digits: Seq<char>, dec_digits: Seq<char>, exponent: int) -> Seq<
    char,
> {
    if dec_digits.len() == 0 {
        int_digits + exponent_suffix(exponent)
    } else {
        int_digits + seq!['.'] + truncated(dec_digits, MANTISSA_DIGITS as nat) + exponent_suffix(
            exponent,
        )
    }
}

/// The text that a number is shown as. The notation is chosen from the
/// scientific form of the normalised number; fixed-point text is
/// `bigdecimal`'s, of the number as it was given.
pub open spec fn number_text(d: DecimalView) -> Seq<char> {
    let n = d.normalized();
    match spec_number_format(dec_digits(n).len(), exponent(n)) {
        NumberFormat::Fixed(precision) => fixed_point_text(d.unscaled, d.scale, precision as nat),
        NumberFormat::Scientific => scientific_text(int_digits(n), dec_digits(n), exponent(n)),
    }
}

/// Dropping trailing zeros does not move the leading digit.
pub proof fn lemma_normalized_exponent(d: DecimalView)
    requires
        d.is_decimal(),
        !d.is_zero(),
    ensures
        exponent(d.normalized()) == exponent(d),
{
    lemma_trailing_zeros_bound(d.unscaled);
    lemma_normalized_is_decimal(d);
}

/// A number that is shown in fixed-point notation is one that `bigdecimal`
/// writes out plainly, with a precision within its bounds.
pub proof fn lemma_fixed_is_plain(d: DecimalView)
    requires
        d.is_decimal(),
    ensures
        spec_number_format(dec_digits(d.normalized()).len(), exponent(d.normalized()))
            matches NumberFormat::Fixed(precision) ==> d.is_plain() && precision
            <= MAX_FRACTION_DIGITS,
{
    if !d.is_zero() {
        lemma_normalized_exponent(d);
        lemma_normalized_is_decimal(d);
    }
}

/// Splits a decimal into the parts of its scientific notation: sign and
/// leading digit, the digits behind it, and the power of ten.
pub fn dec_in_scientific_notation(num: &Decimal) -> (parts: (String, String, i128))
    ensures
        parts.0@ == int_digits(num@),
        parts.1@ == dec_digits(num@),
        parts.2 == exponent(num@),
{
    let text = num.unscaled();
    proof {
        lemma_integer_text_is_ascii(text@);
    }
    broadcast use is_ascii_spec_bytes;

    assert(is_ascii(text));
    let len = text.as_bytes().len();
    assert(len == text@.len());
    let sign: usize = if text.get_ascii(0) == 45u8 {
        1
    } else {
        0
    };
    assert(sign == num@.sign_len());
    proof {
        if sign == 1 {
            assert(text@.skip(1).len() >= 1);
        }
    }
    let int_part = text.substring_ascii(0, sign + 1).to_owned();
    let dec_part = text.substring_ascii(sign + 1, len).to_owned();
    let exponent: i128 = (len - sign - 1) as i128 - num.scale() as i128;
    (int_part, dec_part, exponent)
}

/// Cuts a run of digits down to at most `max` of them.
pub fn max_precision(digits: &str, max: usize) -> (cut: String)
    ensures
        cut@ == truncated(digits@, max as nat),
{
    let len = digits.unicode_len();
    if len <= max {
        digits.to_owned()
    } else {
        digits.substring_char(0, max).to_owned()
    }
}

/// Chooses the notation for a number from its scientific form.
pub fn number_format(dec_len: usize, exponent: i128) -> (format: NumberFormat)
    ensures
        format == spec_number_format(dec_len as nat, exponent as int),
{
    if 0 <= exponent && exponent < 4 {
        let shift = exponent as usize;
        if dec_len < shift {
            NumberFormat::Fixed(0)
        } else if dec_len < MAX_FRACTION_DIGITS {
            NumberFormat::Fixed(dec_len - shift)
        } else {
            NumberFormat::Fixed(MAX_FRACTION_DIGITS - shift)
        }
    } else if -3 <= exponent && exponent < 0 {
        let shift = (-exponent) as usize;
        if dec_len < MAX_FRACTION_DIGITS - shift {
            NumberFormat::Fixed(dec_len + shift)
        } else {
            NumberFormat::Fixed(MAX_FRACTION_DIGITS)
        }
    } else {
        NumberFormat::Scientific
    }
}

/// Writes a number in scientific notation from its parts.
pub fn scientific(int_digits: &str, dec_digits: &str, exponent: i128) -> (text: String)
    ensures
        text@ == scientific_text(int_digits@, dec_digits@, exponent as int),
{
    let mut text = int_digits.to_owned();
    if dec_digits.unicode_len() != 0 {
        proof {
            reveal_strlit(".");
        }
        text.append(".");
        let decimals = max_precision(dec_digits, MANTISSA_DIGITS);
        text.append(decimals.as_str());
        assert(text@ =~= int_digits@ + seq!['.'] + truncated(dec_digits@, MANTISSA_DIGITS as nat));
    }
    if exponent != 0 {
        proof {
            reveal_strlit("x10^");
        }
        text.append("x10^");
        let power = int_to_string(exponent);
        text.append(power.as_str());
        assert("x10^"@ =~= seq!['x', '1', '0', '^']);
    }
    assert(text@ =~= scientific_text(int_digits@, dec_digits@, exponent as int));
    text
}

/// Shows a number: in fixed-point notation with `bigdecimal`'s rounding where
/// its magnitude allows, in scientific notation otherwise.
pub fn format_number(num: &Decimal) -> (text: String)
    ensures
        text@ == number_text(num@),
{
    let normal = num.normalized();
    let (int_digits, dec_digits, exponent) = dec_in_scientific_notation(&normal);
    match number_format(dec_digits.as_str().unicode_len(), exponent) {
        NumberFormat::Fixed(precision) => {
            proof {
                lemma_fixed_is_plain(num@);
            }
            num.to_fixed_point(precision)
        },
        NumberFormat::Scientific => scientific(int_digits.as_str(), dec_digits.as_str(), exponent),
    }
}

} // verus!
