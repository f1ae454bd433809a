//! Fixed-point decimal values: a 96-bit mantissa with a base-10 scale,
//! matching what `rust_decimal` can represent. The struct holds the plain
//! parts, so contracts can speak of the exact value `mant / 10^scale`;
//! arithmetic is carried out by `rust_decimal` behind trusted wrappers.

use rust_decimal::Decimal;
use std::str::FromStr;
use vstd::prelude::*;

verus! {

/// Largest scale (digits after the decimal point) a decimal can carry.
pub const MAX_SCALE: u32 = 28;

/// Largest mantissa magnitude: 2^96 - 1.
pub const MAX_MANTISSA: i128 = 0x0000_0000_FFFF_FFFF_FFFF_FFFF_FFFF_FFFF;

/// A fixed-point decimal: the value `mant / 10^scale`.
#[derive(Clone, Copy, Debug, PartialEq, Eq, Structural)]
pub struct DecimalWrapper {
    pub mant: i128,
    pub scale: u32,
}

impl View for DecimalWrapper {
    type V = DecimalWrapper;

    open spec fn view(&self) -> DecimalWrapper {
        *self
    }
}

/// The representable range: scale within bounds, mantissa within 96 bits.
pub open spec fn dec_inv(d: DecimalWrapper) -> bool {
    d.scale <= MAX_SCALE && -MAX_MANTISSA <= d.mant <= MAX_MANTISSA
}

/// `10^e`.
pub open spec fn pow10(e: nat) -> int
    decreases e,
{
    if e == 0 {
        1
    } else {
        10 * pow10((e - 1) as nat)
    }
}

/// The value of a decimal, scaled to a common denominator of `10^MAX_SCALE`:
/// an integer, so two decimals are numerically equal exactly when their
/// scaled values are.
pub open spec fn scaled(d: DecimalWrapper) -> int {
    d.mant * pow10((MAX_SCALE - d.scale) as nat)
}

/// What `rust_decimal`'s `checked_add` returns, as mantissa and scale.
pub uninterp spec fn dec_add_of(am: int, asc: nat, bm: int, bsc: nat) -> Option<(int, nat)>;

/// What `rust_decimal`'s `checked_sub` returns, as mantissa and scale.
pub uninterp spec fn dec_sub_of(am: int, asc: nat, bm: int, bsc: nat) -> Option<(int, nat)>;

/// What `rust_decimal`'s `checked_div` returns, as mantissa and scale.
pub uninterp spec fn dec_div_of(am: int, asc: nat, bm: int, bsc: nat) -> Option<(int, nat)>;

/// What `rust_decimal`'s `to_string` renders for a decimal.
pub uninterp spec fn dec_str_of(m: int, s: nat) -> Seq<char>;

/// What `rust_decimal`'s `from_str` parses out of a string.
pub uninterp spec fn dec_from_str_of(s: Seq<char>) -> Option<(int, nat)>;

/// What `rust_decimal`'s `from_scientific` parses out of a string.
pub uninterp spec fn dec_from_sci_of(s: Seq<char>) -> Option<(int, nat)>;

/// Relies on rust_decimal's `Decimal::checked_add`: exact decimal addition,
/// `None` on overflow. When both operands share a scale and the mantissa sum
/// stays within 96 bits, the source adds mantissas directly and keeps the
/// scale, so the result is stated exactly; otherwise only the deterministic
/// name is stated. Converts through `from_i128_with_scale`, `mantissa` and
/// `scale`.
#[verifier::external_body]
fn dec_checked_add(a: &DecimalWrapper, b: &DecimalWrapper) -> (r: Option<DecimalWrapper>)
    requires
        dec_inv(*a),
        dec_inv(*b),
    ensures
        match r {
            Some(c) => dec_inv(c) && dec_add_of(
                a.mant as int,
                a.scale as nat,
                b.mant as int,
                b.scale as nat,
            ) == Some((c.mant as int, c.scale as nat)),
            None => dec_add_of(a.mant as int, a.scale as nat, b.mant as int, b.scale as nat)
                is None,
        },
        (a.scale == b.scale && -MAX_MANTISSA <= a.mant + b.mant <= MAX_MANTISSA) ==> r == Some(
            (DecimalWrapper { mant: (a.mant + b.mant) as i128, scale: a.scale }),
        ),
{
    let x = Decimal::from_i128_with_scale(a.mant, a.scale);
    let y = Decimal::from_i128_with_scale(b.mant, b.scale);
    x.checked_add(y).map(|d| DecimalWrapper { mant: d.mantissa(), scale: d.scale() })
}

/// Relies on rust_decimal's `Decimal::checked_sub`: exact decimal
/// subtraction, `None` on overflow; exact when the scales agree and the
/// mantissa difference stays within 96 bits, for the same reason as
/// addition. Converts through `from_i128_with_scale`, `mantissa` and
/// `scale`.
#[verifier::external_body]
fn dec_checked_sub(a: &DecimalWrapper, b: &DecimalWrapper) -> (r: Option<DecimalWrapper>)
    requires
        dec_inv(*a),
        dec_inv(*b),
    ensures
        match r {
            Some(c) => dec_inv(c) && dec_sub_of(
                a.mant as int,
                a.scale as nat,
                b.mant as int,
                b.scale as nat,
            ) == Some((c.mant as int, c.scale as nat)),
            None => dec_sub_of(a.mant as int, a.scale as nat, b.mant as int, b.scale as nat)
                is None,
        },
        (a.scale == b.scale && -MAX_MANTISSA <= a.mant - b.mant <= MAX_MANTISSA) ==> r == Some(
            (DecimalWrapper { mant: (a.mant - b.mant) as i128, scale: a.scale }),
        ),
{
    let x = Decimal::from_i128_with_scale(a.mant, a.scale);
    let y = Decimal::from_i128_with_scale(b.mant, b.scale);
    x.checked_sub(y).map(|d| DecimalWrapper { mant: d.mantissa(), scale: d.scale() })
}

/// Relies on rust_decimal's `Decimal::checked_div` and `normalize`:
/// decimal division rounded to at most 28 significant places, with trailing
/// fractional zeros stripped, `None` exactly on division by zero or
/// overflow; the quotient is a function of the operands alone, named
/// `dec_div_of`. Converts through `from_i128_with_scale`, `mantissa` and
/// `scale`.
#[verifier::external_body]
fn dec_checked_div(a: &DecimalWrapper, b: &DecimalWrapper) -> (r: Option<DecimalWrapper>)
    requires
        dec_inv(*a),
        dec_inv(*b),
    ensures
        match r {
            Some(c) => dec_inv(c) && dec_div_of(
                a.mant as int,
                a.scale as nat,
                b.mant as int,
                b.scale as nat,
            ) == Some((c.mant as int, c.scale as nat)),
            None => dec_div_of(a.mant as int, a.scale as nat, b.mant as int, b.scale as nat)
                is None,
        },
        b.mant == 0 ==> r is None,
{
    let x = Decimal::from_i128_with_scale(a.mant, a.scale);
    let y = Decimal::from_i128_with_scale(b.mant, b.scale);
    x.checked_div(y).map(|d| {
        let n = d.normalize();
        DecimalWrapper { mant: n.mantissa(), scale: n.scale() }
    })
}

/// Relies on rust_decimal's `PartialOrd`: decimals compare by numeric value
/// (the source aligns scales before comparing), which is the order of the
/// scaled values. Converts through `from_i128_with_scale`.
#[verifier::external_body]
fn dec_raw_lt(a: &DecimalWrapper, b: &DecimalWrapper) -> (r: bool)
    requires
        dec_inv(*a),
        dec_inv(*b),
    ensures
        r == (scaled(*a) < scaled(*b)),
{
    let x = Decimal::from_i128_with_scale(a.mant, a.scale);
    let y = Decimal::from_i128_with_scale(b.mant, b.scale);
    x < y
}

/// Relies on rust_decimal's `to_string`: the rendering is a function of
/// mantissa and scale alone, named `dec_str_of`, and is never empty.
/// Converts through `from_i128_with_scale`.
#[verifier::external_body]
fn dec_raw_to_string(d: &DecimalWrapper) -> (r: String)
    requires
        dec_inv(*d),
    ensures
        r@ == dec_str_of(d.mant as int, d.scale as nat),
        r@.len() > 0,
{
    Decimal::from_i128_with_scale(d.mant, d.scale).to_string()
}

/// Relies on rust_decimal's `Decimal::from_str`: whether and what it parses
/// is a function of the string alone, named `dec_from_str_of`. Converts
/// through `mantissa` and `scale`.
#[verifier::external_body]
fn dec_raw_from_str(s: &str) -> (r: Option<DecimalWrapper>)
    ensures
        match r {
            Some(d) => dec_inv(d) && dec_from_str_of(s@) == Some((d.mant as int, d.scale as nat)),
            None => dec_from_str_of(s@) is None,
        },
{
    match Decimal::from_str(s) {
        Ok(d) => Some(DecimalWrapper { mant: d.mantissa(), scale: d.scale() }),
        Err(_) => None,
    }
}

/// Relies on rust_decimal's `Decimal::from_scientific`: whether and what it
/// parses is a function of the string alone, named `dec_from_sci_of`.
/// Converts through `mantissa` and `scale`.
#[verifier::external_body]
fn dec_raw_from_scientific(s: &str) -> (r: Option<DecimalWrapper>)
    ensures
        match r {
            Some(d) => dec_inv(d) && dec_from_sci_of(s@) == Some((d.mant as int, d.scale as nat)),
            None => dec_from_sci_of(s@) is None,
        },
{
    match Decimal::from_scientific(s) {
        Ok(d) => Some(DecimalWrapper { mant: d.mantissa(), scale: d.scale() }),
        Err(_) => None,
    }
}

/// What parsing a decimal field yields: a plain parse, with scientific
/// notation as the fallback.
pub open spec fn dec_parse_of(s: Seq<char>) -> Option<(int, nat)> {
    if dec_from_str_of(s) is Some {
        dec_from_str_of(s)
    } else {
        dec_from_sci_of(s)
    }
}

impl DecimalWrapper {
    /// Well-formed: representable by `rust_decimal`.
    pub open spec fn wf(&self) -> bool {
        dec_inv(*self)
    }

    /// The decimal with integer value `n`.
    pub fn from_int(n: i64) -> (r: DecimalWrapper)
        ensures
            r.wf(),
            r.mant == n as int,
            r.scale == 0,
    {
        DecimalWrapper { mant: n as i128, scale: 0 }
    }

    /// The decimal with value `n` (a count).
    pub fn from_count(n: u64) -> (r: DecimalWrapper)
        ensures
            r.wf(),
            r.mant == n as int,
            r.scale == 0,
    {
        DecimalWrapper { mant: n as i128, scale: 0 }
    }

    /// Parses a decimal, first plainly, then as scientific notation.
    pub fn parse(s: &str) -> (r: Option<DecimalWrapper>)
        ensures
            match r {
                Some(d) => d.wf() && dec_parse_of(s@) == Some((d.mant as int, d.scale as nat)),
                None => dec_parse_of(s@) is None,
            },
    {
        match dec_raw_from_str(s) {
            Some(d) => Some(d),
            None => dec_raw_from_scientific(s),
        }
    }

    /// Exact addition; `None` on overflow. When the scales agree and the
    /// mantissa sum fits, the sum is stated exactly.
    pub fn checked_add(&self, other: &DecimalWrapper) -> (r: Option<DecimalWrapper>)
        requires
            self.wf(),
            other.wf(),
        ensures
            match r {
                Some(c) => c.wf() && dec_add_of(
                    self.mant as int,
                    self.scale as nat,
                    other.mant as int,
                    other.scale as nat,
                ) == Some((c.mant as int, c.scale as nat)),
                None => dec_add_of(
                    self.mant as int,
                    self.scale as nat,
                    other.mant as int,
                    other.scale as nat,
                ) is None,
            },
            (self.scale == other.scale && -MAX_MANTISSA <= self.mant + other.mant <= MAX_MANTISSA)
                ==> r == Some(
                (DecimalWrapper { mant: (self.mant + other.mant) as i128, scale: self.scale }),
            ),
    {
        dec_checked_add(self, other)
    }

    /// Exact subtraction; `None` on overflow.
    pub fn checked_sub(&self, other: &DecimalWrapper) -> (r: Option<DecimalWrapper>)
        requires
            self.wf(),
            other.wf(),
        ensures
            match r {
                Some(c) => c.wf() && dec_sub_of(
                    self.mant as int,
                    self.scale as nat,
                    other.mant as int,
                    other.scale as nat,
                ) == Some((c.mant as int, c.scale as nat)),
                None => dec_sub_of(
                    self.mant as int,
                    self.scale as nat,
                    other.mant as int,
                    other.scale as nat,
                ) is None,
            },
            (self.scale == other.scale && -MAX_MANTISSA <= self.mant - other.mant <= MAX_MANTISSA)
                ==> r == Some(
                (DecimalWrapper { mant: (self.mant - other.mant) as i128, scale: self.scale }),
            ),
    {
        dec_checked_sub(self, other)
    }

    /// Division rounded to 28 significant places; `None` on a zero divisor
    /// or overflow.
    pub fn checked_div(&self, other: &DecimalWrapper) -> (r: Option<DecimalWrapper>)
        requires
            self.wf(),
            other.wf(),
        ensures
            match r {
                Some(c) => c.wf() && dec_div_of(
                    self.mant as int,
                    self.scale as nat,
                    other.mant as int,
                    other.scale as nat,
                ) == Some((c.mant as int, c.scale as nat)),
                None => dec_div_of(
                    self.mant as int,
                    self.scale as nat,
                    other.mant as int,
                    other.scale as nat,
                ) is None,
            },
            other.mant == 0 ==> r is None,
    {
        dec_checked_div(self, other)
    }

    /// Numeric strict order.
    pub fn lt(&self, other: &DecimalWrapper) -> (r: bool)
        requires
            self.wf(),
            other.wf(),
        ensures
            r == (scaled(*self) < scaled(*other)),
    {
        dec_raw_lt(self, other)
    }

    /// The decimal rendered as text, as `rust_decimal` renders it.
    pub fn to_display_string(&self) -> (r: String)
        requires
            self.wf(),
        ensures
            r@ == dec_str_of(self.mant as int, self.scale as nat),
            r@.len() > 0,
    {
        dec_raw_to_string(self)
    }
}

/// A failed decimal parse.
#[derive(Debug)]
pub struct DecParseError;

impl FromStr for DecimalWrapper {
    type Err = DecParseError;

    fn from_str(s: &str) -> Result<DecimalWrapper, DecParseError> {
        match DecimalWrapper::parse(s) {
            Some(d) => Ok(d),
            None => Err(DecParseError),
        }
    }
}

/// The sum of a sequence of integers.
pub open spec fn sum_int(s: Seq<int>) -> int
    decreases s.len(),
{
    if s.len() == 0 {
        0
    } else {
        sum_int(s.drop_last()) + s.last()
    }
}

/// Removing one element takes exactly its value out of the sum.
pub proof fn lemma_sum_int_remove(s: Seq<int>, i: int)
    requires
        0 <= i < s.len(),
    ensures
        sum_int(s) == sum_int(s.remove(i)) + s[i],
    decreases s.len(),
{
    if i == s.len() - 1 {
        assert(s.remove(i) =~= s.drop_last());
    } else {
        let t = s.drop_last();
        lemma_sum_int_remove(t, i);
        assert(s.remove(i).drop_last() =~= t.remove(i));
        assert(s.remove(i).last() == s.last());
    }
}

} // verus!
