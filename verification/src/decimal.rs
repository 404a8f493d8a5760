//! Arbitrary-precision decimals as plain data: the text of an integer and a
//! scale. The arithmetic on them is done by the `bigdecimal` crate.

use bigdecimal::num_bigint::BigInt;
use bigdecimal::BigDecimal;
use std::str::FromStr;
use vstd::prelude::*;
use vstd::std_specs::cmp::PartialEqSpecImpl;
use vstd::string::*;

verus! {

/// Largest number of fractional digits that a number is ever shown with.
pub const MAX_FRACTION_DIGITS: usize = 4;

/// Most zeros that may stand between the digits of a decimal and its point
/// when it is written out in plain notation.
pub const MAX_PLAIN_ZEROS: i64 = 3;

/// The mathematical content of a [`Decimal`]: it stands for the integer that
/// `unscaled` writes, divided by ten to the power `scale`.
pub struct DecimalView {
    pub unscaled: Seq<char>,
    pub scale: int,
}

pub open spec fn is_digit(c: char) -> bool {
    '0' <= c <= '9'
}

/// Text of a natural number: digits only, no leading zero but for zero itself.
pub open spec fn is_magnitude_text(s: Seq<char>) -> bool {
    &&& s.len() >= 1
    &&& forall|i: int| 0 <= i < s.len() ==> is_digit(#[trigger] s[i])
    &&& (s[0] == '0' ==> s.len() == 1)
}

/// Text of an integer in its one canonical form: a minus sign only before a
/// magnitude other than zero, then the magnitude.
pub open spec fn is_integer_text(s: Seq<char>) -> bool {
    if s.len() > 0 && s[0] == '-' {
        is_magnitude_text(s.skip(1)) && s[1] != '0'
    } else {
        is_magnitude_text(s)
    }
}

/// How many zeros end the text.
pub open spec fn trailing_zeros(s: Seq<char>) -> nat
    decreases s.len(),
{
    if s.len() > 0 && s.last() == '0' {
        1 + trailing_zeros(s.drop_last())
    } else {
        0
    }
}

impl DecimalView {
    /// The integer text is canonical, and the scale leaves room to drop every
    /// trailing zero without leaving the range of `i64`.
    pub open spec fn is_decimal(self) -> bool {
        &&& is_integer_text(self.unscaled)
        &&& i64::MIN <= self.scale - self.unscaled.len()
        &&& self.scale <= i64::MAX
    }

    pub open spec fn is_zero(self) -> bool {
        self.unscaled == seq!['0']
    }

    /// Number of characters that the sign takes.
    pub open spec fn sign_len(self) -> int {
        if self.unscaled.len() > 0 && self.unscaled[0] == '-' {
            1
        } else {
            0
        }
    }

    /// The same number with no trailing zero among its digits; zero becomes
    /// the digit `0` at scale 0.
    pub open spec fn normalized(self) -> DecimalView {
        if self.is_zero() {
            DecimalView { unscaled: seq!['0'], scale: 0 }
        } else {
            let zeros = trailing_zeros(self.unscaled);
            DecimalView {
                unscaled: self.unscaled.take(self.unscaled.len() - zeros),
                scale: self.scale - zeros,
            }
        }
    }

    /// Two decimals stand for the same number: they differ at most in
    /// trailing zeros.
    pub open spec fn same_number(self, other: DecimalView) -> bool {
        self.normalized() == other.normalized()
    }

    /// Whether `bigdecimal` can write the number in plain notation with up to
    /// [`MAX_FRACTION_DIGITS`] fractional digits on every platform.
    pub open spec fn is_plain(self) -> bool {
        self.is_zero() || self.scale >= -MAX_PLAIN_ZEROS
    }
}

/// The text that `bigdecimal` shows a decimal as when it is asked for exactly
/// `precision` fractional digits.
pub uninterp spec fn fixed_point_text(unscaled: Seq<char>, scale: int, precision: nat) -> Seq<char>;

pub proof fn lemma_integer_text_is_ascii(s: Seq<char>)
    requires
        is_integer_text(s),
    ensures
        vstd::utf8::is_ascii_chars(s),
{
    assert forall|i: int| 0 <= i < s.len() implies '\0' <= #[trigger] s[i] <= '\u{7f}' by {
        if s[0] == '-' {
            if i > 0 {
                assert(is_digit(s.skip(1)[i - 1]));
            }
        } else {
            assert(is_digit(s[i]));
        }
    }
}

pub proof fn lemma_trailing_zeros_bound(s: Seq<char>)
    ensures
        trailing_zeros(s) <= s.len(),
        forall|i: int| s.len() - trailing_zeros(s) <= i < s.len() ==> s[i] == '0',
        trailing_zeros(s) < s.len() ==> s[s.len() - trailing_zeros(s) - 1] != '0',
    decreases s.len(),
{
    if s.len() > 0 && s.last() == '0' {
        let t = s.drop_last();
        lemma_trailing_zeros_bound(t);
        assert forall|i: int| s.len() - trailing_zeros(s) <= i < s.len() implies s[i] == '0' by {
            if i < t.len() {
                assert(s[i] == t[i]);
            }
        }
        if trailing_zeros(s) < s.len() {
            assert(s[s.len() - trailing_zeros(s) - 1] == t[t.len() - trailing_zeros(t) - 1]);
        }
    }
}

/// Normalising keeps a decimal a decimal.
pub proof fn lemma_normalized_is_decimal(d: DecimalView)
    requires
        d.is_decimal(),
    ensures
        d.normalized().is_decimal(),
        d.normalized().sign_len() == d.sign_len(),
        !d.is_zero() ==> trailing_zeros(d.unscaled) < d.unscaled.len() - d.sign_len(),
{
    let s = d.unscaled;
    let n = d.normalized();
    if d.is_zero() {
        assert(is_magnitude_text(n.unscaled));
    } else {
        lemma_trailing_zeros_bound(s);
        let zeros = trailing_zeros(s);
        let sign = d.sign_len();
        // The first digit is not a zero, so the zeros stop before it.
        if sign == 1 {
            assert(s[1] != '0');
            assert(is_digit(s.skip(1)[0]));
        } else {
            assert(is_digit(s[0]));
            if s[0] == '0' {
                assert(s =~= seq!['0']);
            }
        }
        assert(s[sign] != '0');
        assert(zeros < s.len() - sign);
        let t = n.unscaled;
        assert(t.len() == s.len() - zeros);
        assert(forall|i: int| 0 <= i < t.len() ==> t[i] == s[i]);
        if sign == 1 {
            assert forall|i: int| 0 <= i < t.skip(1).len() implies is_digit(
                #[trigger] t.skip(1)[i],
            ) by {
                assert(is_digit(s.skip(1)[i]));
            }
            assert(t.skip(1)[0] == s.skip(1)[0]);
            assert(is_magnitude_text(t.skip(1)));
        } else {
            assert forall|i: int| 0 <= i < t.len() implies is_digit(#[trigger] t[i]) by {
                assert(is_digit(s[i]));
            }
            assert(is_magnitude_text(t));
        }
    }
}

/// An arbitrary-precision decimal number.
#[derive(Debug)]
pub struct Decimal {
    unscaled: String,
    scale: i64,
}

impl View for Decimal {
    type V = DecimalView;

    closed spec fn view(&self) -> DecimalView {
        DecimalView { unscaled: self.unscaled@, scale: self.scale as int }
    }
}

/// Tells whether a string is the canonical text of an integer.
pub fn is_integer_str(s: &str) -> (ok: bool)
    ensures
        ok == is_integer_text(s@),
{
    if !s.is_ascii() {
        proof {
            if is_integer_text(s@) {
                lemma_integer_text_is_ascii(s@);
            }
        }
        return false;
    }
    broadcast use is_ascii_spec_bytes;

    let bytes = s.as_bytes();
    let n = bytes.len();
    assert(n == s@.len());
    assert(forall|i: int| 0 <= i < n ==> bytes@[i] == s@[i] as u8);
    if n == 0 {
        return false;
    }
    let start: usize = if bytes[0] == 45u8 {
        1
    } else {
        0
    };
    assert(start == 1 <==> s@[0] == '-');
    if n == start {
        return false;
    }
    if bytes[start] == 48u8 && (start == 1 || n > 1) {
        assert(s@[start as int] == '0');
        if start == 1 {
            assert(s@[1] == '0');
        }
        return false;
    }
    let mut i: usize = start;
    while i < n
        invariant
            start <= i <= n,
            n == s@.len(),
            n == bytes@.len(),
            start == 1 <==> s@[0] == '-',
            start == 0 || start == 1,
            forall|i: int| 0 <= i < n ==> bytes@[i] == s@[i] as u8,
            vstd::utf8::is_ascii_chars(s@),
            forall|k: int| start <= k < i ==> is_digit(#[trigger] s@[k]),
        decreases n - i,
    {
        let b = bytes[i];
        if b < 48u8 || b > 57u8 {
            assert(!is_digit(s@[i as int]));
            proof {
                if start == 1 {
                    assert(s@.skip(1)[i - 1] == s@[i as int]);
                }
            }
            return false;
        }
        assert(is_digit(s@[i as int]));
        i += 1;
    }
    proof {
        if start == 1 {
            assert forall|k: int| 0 <= k < s@.skip(1).len() implies is_digit(
                #[trigger] s@.skip(1)[k],
            ) by {
                assert(is_digit(s@[k + 1]));
            }
            assert(s@.skip(1)[0] == s@[1]);
        }
    }
    true
}

/// Calls `BigDecimal::normalized` on the decimal that the parts write; the
/// integer goes in through `BigInt::from_str` and comes back through
/// `BigInt::to_string`. The contract says what the method's source does: zero
/// comes back as `0` at scale 0, any other number loses its trailing zeros and
/// has its scale lowered by their count.
#[verifier::external_body]
fn normalized_parts(d: &Decimal) -> (r: Decimal)
    requires
        d@.is_decimal(),
    ensures
        r@ == d@.normalized(),
{
    let unscaled = BigInt::from_str(d.unscaled.as_str()).unwrap();
    let (unscaled, scale) = BigDecimal::new(unscaled, d.scale).normalized().into_bigint_and_scale();
    Decimal { unscaled: unscaled.to_string(), scale }
}

/// Formats the decimal that the parts write through `BigDecimal`'s `Display`
/// with a precision. What comes back depends on the parts and the precision
/// alone (and on the rounding mode that `bigdecimal` was built with), so the
/// contract only gives it its name.
#[verifier::external_body]
fn fixed_point(d: &Decimal, precision: usize) -> (r: String)
    requires
        d@.is_decimal(),
        d@.is_plain(),
        precision <= MAX_FRACTION_DIGITS,
    ensures
        r@ == fixed_point_text(d@.unscaled, d@.scale, precision as nat),
{
    let unscaled = BigInt::from_str(d.unscaled.as_str()).unwrap();
    format!("{:.prec$}", BigDecimal::new(unscaled, d.scale), prec = precision)
}

impl Decimal {
    #[verifier::type_invariant]
    spec fn well_formed(self) -> bool {
        self@.is_decimal()
    }

    /// A decimal from the text of its unscaled integer and its scale, if the
    /// two make one.
    pub fn new(unscaled: &str, scale: i64) -> (r: Option<Decimal>)
        ensures
            r is Some <==> (DecimalView { unscaled: unscaled@, scale: scale as int }).is_decimal(),
            r is Some ==> r.unwrap()@ == (DecimalView { unscaled: unscaled@, scale: scale as int }),
    {
        if !is_integer_str(unscaled) {
            return None;
        }
        proof {
            lemma_integer_text_is_ascii(unscaled@);
        }
        broadcast use is_ascii_spec_bytes;

        assert(is_ascii(unscaled));
        let len = unscaled.as_bytes().len();
        assert(len == unscaled@.len());
        if (scale as i128) - (len as i128) < (i64::MIN as i128) {
            return None;
        }
        Some(Decimal { unscaled: unscaled.to_owned(), scale })
    }

    /// Text of the unscaled integer.
    pub fn unscaled(&self) -> (s: &str)
        ensures
            s@ == self@.unscaled,
            self@.is_decimal(),
    {
        proof {
            use_type_invariant(self);
        }
        self.unscaled.as_str()
    }

    /// Number of digits of the unscaled integer that stand behind the point.
    pub fn scale(&self) -> (scale: i64)
        ensures
            scale == self@.scale,
    {
        self.scale
    }

    /// The same number without trailing zeros.
    pub fn normalized(&self) -> (r: Decimal)
        ensures
            r@ == self@.normalized(),
            self@.is_decimal(),
    {
        proof {
            use_type_invariant(self);
            lemma_normalized_is_decimal(self@);
        }
        normalized_parts(self)
    }

    /// The number with exactly `precision` fractional digits, as `bigdecimal`
    /// shows it.
    pub(crate) fn to_fixed_point(&self, precision: usize) -> (r: String)
        requires
            self@.is_plain(),
            precision <= MAX_FRACTION_DIGITS,
        ensures
            r@ == fixed_point_text(self@.unscaled, self@.scale, precision as nat),
    {
        proof {
            use_type_invariant(self);
        }
        fixed_point(self, precision)
    }
}

impl Clone for Decimal {
    fn clone(&self) -> (copy: Decimal)
        ensures
            copy@ == self@,
    {
        proof {
            use_type_invariant(self);
        }
        Decimal { unscaled: self.unscaled.clone(), scale: self.scale }
    }
}

impl PartialEq for Decimal {
    /// Decimals are equal when they stand for the same number, whatever
    /// their trailing zeros.
    fn eq(&self, other: &Decimal) -> (equal: bool) {
        let mine = self.normalized();
        let theirs = other.normalized();
        let equal = mine.scale == theirs.scale && mine.unscaled == theirs.unscaled;
        assert(equal == (mine@ == theirs@)) by {
            if equal {
                assert(mine@.unscaled =~= theirs@.unscaled);
            }
        }
        equal
    }
}

impl PartialEqSpecImpl for Decimal {
    open spec fn obeys_eq_spec() -> bool {
        true
    }

    open spec fn eq_spec(&self, other: &Decimal) -> bool {
        self@.same_number(other@)
    }
}

impl Eq for Decimal {

}

} // verus!
