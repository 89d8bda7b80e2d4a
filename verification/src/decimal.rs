//! Exact decimal amounts (prices and quantities).
//!
//! A `Dec` holds the two plain parts of a `rust_decimal::Decimal`: a signed
//! mantissa of at most 96 bits and a scale between 0 and 28, so that the
//! number is `mantissa / 10^scale`. Comparisons and arithmetic are done by
//! `rust_decimal` itself; the wrappers below state what it returns.
use vstd::prelude::*;
use rust_decimal::Decimal;

verus! {

/// Largest magnitude of a mantissa: 2^96 - 1.
pub const MAX_MANTISSA: i128 = 79228162514264337593543950335i128;

/// Largest scale (number of decimal places).
pub const MAX_SCALE: u32 = 28u32;

/// 10 to the power `n`.
pub open spec fn pow10(n: nat) -> int
    decreases n,
{
    if n == 0 {
        1
    } else {
        10 * pow10((n - 1) as nat)
    }
}

pub proof fn lemma_pow10_positive(n: nat)
    ensures
        pow10(n) >= 1,
    decreases n,
{
    if n > 0 {
        lemma_pow10_positive((n - 1) as nat);
    }
}

pub proof fn lemma_pow10_monotone(a: nat, b: nat)
    requires
        a <= b,
    ensures
        pow10(a) <= pow10(b),
    decreases b,
{
    if a < b {
        lemma_pow10_monotone(a, (b - 1) as nat);
        lemma_pow10_positive((b - 1) as nat);
    }
}

/// The largest value a decimal can hold, in units of 10^-28.
pub open spec fn max_value() -> int {
    MAX_MANTISSA * pow10(28)
}

/// A decimal number `mantissa / 10^scale`.
#[derive(Clone, Copy, Debug)]
pub struct Dec {
    pub mantissa: i128,
    pub scale: u32,
}

impl Dec {
    /// The parts are those of a `rust_decimal::Decimal`.
    pub open spec fn wf(self) -> bool {
        &&& -MAX_MANTISSA <= self.mantissa <= MAX_MANTISSA
        &&& self.scale <= MAX_SCALE
    }

    /// The number, as an integer count of units of 10^-28.
    pub open spec fn value(self) -> int {
        self.mantissa * pow10((28 - self.scale) as nat)
    }

    /// Builds a decimal from its parts; `None` when they are out of range.
    pub fn new(mantissa: i128, scale: u32) -> (r: Option<Dec>)
        ensures
            r is Some <==> (-MAX_MANTISSA <= mantissa <= MAX_MANTISSA && scale <= MAX_SCALE),
            r matches Some(d) ==> d.mantissa == mantissa && d.scale == scale && d.wf(),
    {
        if -MAX_MANTISSA <= mantissa && mantissa <= MAX_MANTISSA && scale <= MAX_SCALE {
            Some(Dec { mantissa, scale })
        } else {
            None
        }
    }

    /// The decimal as `rust_decimal` writes it.
    pub fn to_string(&self) -> (r: String)
        requires
            self.wf(),
        ensures
            r@ == decimal_text(*self),
    {
        dec_to_string(*self)
    }

    /// The decimal zero.
    pub fn zero() -> (r: Dec)
        ensures
            r.wf(),
            r.mantissa == 0,
            r.scale == 0,
            r.value() == 0,
    {
        Dec { mantissa: 0, scale: 0 }
    }
}

/// The value of a decimal is zero, negative or positive as its mantissa is.
pub proof fn lemma_value_sign(d: Dec)
    ensures
        (d.value() == 0) == (d.mantissa == 0),
        (d.value() > 0) == (d.mantissa > 0),
        (d.value() < 0) == (d.mantissa < 0),
{
    let p = pow10((28 - d.scale) as nat);
    lemma_pow10_positive((28 - d.scale) as nat);
    if d.mantissa > 0 {
        assert(d.mantissa * p > 0) by (nonlinear_arith)
            requires
                d.mantissa > 0,
                p >= 1,
        ;
    } else if d.mantissa < 0 {
        assert(d.mantissa * p < 0) by (nonlinear_arith)
            requires
                d.mantissa < 0,
                p >= 1,
        ;
    } else {
        assert(d.mantissa * p == 0) by (nonlinear_arith)
            requires
                d.mantissa == 0,
        ;
    }
}

/// A decimal's value lies within the decimal range.
pub proof fn lemma_value_bounds(d: Dec)
    requires
        d.wf(),
    ensures
        -max_value() <= d.value() <= max_value(),
{
    let k = (28 - d.scale) as nat;
    lemma_pow10_monotone(k, 28);
    lemma_pow10_positive(k);
    let p = pow10(k);
    let q = pow10(28);
    let m = d.mantissa as int;
    let mx = MAX_MANTISSA as int;
    assert(-mx * q <= m * p <= mx * q) by (nonlinear_arith)
        requires
            -mx <= m <= mx,
            1 <= p <= q,
            mx >= 0,
    ;
}

/// The mantissa of `a - b` when both are written at the larger of their scales.
pub open spec fn aligned_difference(a: Dec, b: Dec) -> int {
    let s: nat = if a.scale >= b.scale { a.scale as nat } else { b.scale as nat };
    a.mantissa * pow10((s - a.scale) as nat) - b.mantissa * pow10((s - b.scale) as nat)
}

/// The mantissa of `a + b` when both are written at the larger of their scales.
pub open spec fn aligned_sum(a: Dec, b: Dec) -> int {
    let s: nat = if a.scale >= b.scale { a.scale as nat } else { b.scale as nat };
    a.mantissa * pow10((s - a.scale) as nat) + b.mantissa * pow10((s - b.scale) as nat)
}

/// What `rust_decimal` computes for `a - b`.
pub uninterp spec fn decimal_sub(a: Dec, b: Dec) -> Dec;

/// What `rust_decimal` computes for `a + b`.
pub uninterp spec fn decimal_add(a: Dec, b: Dec) -> Dec;

/// What `rust_decimal` computes for `a.saturating_add(b)`.
pub uninterp spec fn decimal_saturating_add(a: Dec, b: Dec) -> Dec;

/// What `rust_decimal` computes for `a * b`.
pub uninterp spec fn decimal_mul(a: Dec, b: Dec) -> Dec;

/// The decimal digits of `n`, most significant first; none for zero.
pub open spec fn decimal_digits(n: nat) -> Seq<char>
    decreases n,
{
    if n == 0 {
        Seq::<char>::empty()
    } else {
        decimal_digits(n / 10).push((48 + n % 10) as char)
    }
}

/// The text that `rust_decimal` writes for a decimal (`Display` without a
/// precision): a minus sign when negative, then the digits of the
/// magnitude, padded with leading zeros to at least `scale` digits, with a
/// point before the last `scale` of them and a `0` before the point when no
/// digit is left in front of it.
pub open spec fn decimal_text(d: Dec) -> Seq<char> {
    let a: nat = if d.mantissa < 0 { (-d.mantissa) as nat } else { d.mantissa as nat };
    let ds = decimal_digits(a);
    let s = d.scale as int;
    let padded = if ds.len() < s { Seq::new((s - ds.len()) as nat, |_i: int| '0') + ds } else { ds };
    let w = padded.len() - s;
    let whole = if w == 0 { seq!['0'] } else { padded.take(w) };
    let body = if s == 0 { whole } else { whole + seq!['.'] + padded.skip(w) };
    if d.mantissa < 0 { seq!['-'] + body } else { body }
}

/// The decimal type of `rust_decimal`, carried through the wrappers below.
#[verifier::external_type_specification]
#[verifier::external_body]
pub struct ExDecimal(rust_decimal::Decimal);

/// `Decimal::from_i128_with_scale`, on parts that are in range.
#[verifier::external_body]
fn to_decimal(d: Dec) -> Decimal
    requires
        d.wf(),
{
    Decimal::from_i128_with_scale(d.mantissa, d.scale)
}

/// `Decimal::mantissa` and `Decimal::scale`: the parts of a decimal.
#[verifier::external_body]
fn from_decimal(d: Decimal) -> (r: Dec)
    ensures
        r.wf(),
{
    Dec { mantissa: d.mantissa(), scale: d.scale() }
}

/// `<Decimal as PartialOrd>::le`: `Decimal` orders numbers by their value,
/// whatever their scale (so `1.0 <= 1.00` and `1.00 <= 1.0`).
#[verifier::external_body]
pub(crate) fn dec_le(a: Dec, b: Dec) -> (r: bool)
    requires
        a.wf(),
        b.wf(),
    ensures
        r == (a.value() <= b.value()),
{
    to_decimal(a) <= to_decimal(b)
}

/// `<Decimal as Sub>::sub`. It panics only when the difference is out of the
/// decimal range, which `requires` excludes. The result is the exact
/// difference whenever that difference, written at the larger of the two
/// scales, still has a mantissa of at most 96 bits; otherwise it is rounded,
/// which is left unsaid here.
#[verifier::external_body]
pub(crate) fn dec_sub(a: Dec, b: Dec) -> (r: Dec)
    requires
        a.wf(),
        b.wf(),
        -max_value() <= a.value() - b.value() <= max_value(),
    ensures
        r == decimal_sub(a, b),
        r.wf(),
        -MAX_MANTISSA <= aligned_difference(a, b) <= MAX_MANTISSA ==> r.value() == a.value()
            - b.value(),
{
    from_decimal(to_decimal(a) - to_decimal(b))
}

/// `<Decimal as Add>::add`. It panics only when the sum is out of the
/// decimal range, which `requires` excludes. The result is the exact sum
/// whenever that sum, written at the larger of the two scales, still has a
/// mantissa of at most 96 bits; otherwise it is rounded, which is left
/// unsaid here.
#[verifier::external_body]
pub(crate) fn dec_add(a: Dec, b: Dec) -> (r: Dec)
    requires
        a.wf(),
        b.wf(),
        -max_value() <= a.value() + b.value() <= max_value(),
    ensures
        r == decimal_add(a, b),
        r.wf(),
        -MAX_MANTISSA <= aligned_sum(a, b) <= MAX_MANTISSA ==> r.value() == a.value()
            + b.value(),
{
    from_decimal(to_decimal(a) + to_decimal(b))
}

/// `Decimal::saturating_add`: `checked_add`, or the largest (smallest)
/// decimal when that fails. Both it and `+` run the same addition, so when
/// the sum is in range, where `+` does not panic, it returns what `+`
/// returns. Exact under the same condition as `dec_add`; what it returns
/// out of range is left unsaid here.
#[verifier::external_body]
pub(crate) fn dec_saturating_add(a: Dec, b: Dec) -> (r: Dec)
    requires
        a.wf(),
        b.wf(),
    ensures
        r == decimal_saturating_add(a, b),
        r.wf(),
        -max_value() <= a.value() + b.value() <= max_value() ==> r == decimal_add(a, b),
        -MAX_MANTISSA <= aligned_sum(a, b) <= MAX_MANTISSA ==> r.value() == a.value()
            + b.value(),
{
    from_decimal(to_decimal(a).saturating_add(to_decimal(b)))
}

/// `<Decimal as Mul>::mul`. It panics only when the product is out of the
/// decimal range, which `requires` excludes. A product with a zero factor is
/// zero (at scale 0). Otherwise the result is the exact product when the
/// scales add up to at most 28 and the product of the mantissas has at most
/// 96 bits; in the other cases it is rounded, which is left unsaid here.
#[verifier::external_body]
pub(crate) fn dec_mul(a: Dec, b: Dec) -> (r: Dec)
    requires
        a.wf(),
        b.wf(),
        -MAX_MANTISSA * pow10((a.scale + b.scale) as nat) <= a.mantissa * b.mantissa
            <= MAX_MANTISSA * pow10((a.scale + b.scale) as nat),
    ensures
        r == decimal_mul(a, b),
        r.wf(),
        a.mantissa * b.mantissa == 0 ==> r.mantissa == 0 && r.scale == 0,
        a.mantissa * b.mantissa != 0 && a.scale + b.scale <= MAX_SCALE && -MAX_MANTISSA
            <= a.mantissa * b.mantissa <= MAX_MANTISSA ==> r.mantissa == a.mantissa * b.mantissa
            && r.scale == a.scale + b.scale,
{
    from_decimal(to_decimal(a) * to_decimal(b))
}

/// `<Decimal as ToString>::to_string`, which writes with `Display`: see
/// `decimal_text`.
#[verifier::external_body]
pub(crate) fn dec_to_string(d: Dec) -> (r: String)
    requires
        d.wf(),
    ensures
        r@ == decimal_text(d),
{
    to_decimal(d).to_string()
}

/// The smaller of two decimals by value; the first when they are equal
/// (as `Ord::min` chooses).
pub fn dec_min(a: Dec, b: Dec) -> (r: Dec)
    requires
        a.wf(),
        b.wf(),
    ensures
        r == spec_min(a, b),
{
    if dec_le(a, b) {
        a
    } else {
        b
    }
}

pub open spec fn spec_min(a: Dec, b: Dec) -> Dec {
    if a.value() <= b.value() {
        a
    } else {
        b
    }
}

/// Whether a decimal is zero or negative.
pub fn dec_is_nonpositive(d: Dec) -> (r: bool)
    requires
        d.wf(),
    ensures
        r == (d.value() <= 0),
{
    dec_le(d, Dec::zero())
}

/// Subtracting a decimal from itself gives exactly zero.
pub proof fn lemma_sub_self_exact(a: Dec)
    ensures
        aligned_difference(a, a) == 0,
{
}

} // verus!
