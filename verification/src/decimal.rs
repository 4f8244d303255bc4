//! Exact decimal numbers for prices and quantities.
//!
//! A [`Decimal`] holds the two integers that define a decimal number, its
//! mantissa and its scale, and stands for `mantissa / 10^scale`. Comparison
//! and arithmetic are done by the `rust_decimal` crate; the functions that
//! call it are the only unproved items of this module.

use std::cmp::Ordering;
use vstd::prelude::*;
use vstd::std_specs::cmp::PartialEqSpecImpl;
use vstd::std_specs::cmp::PartialOrdSpecImpl;
use vstd::std_specs::convert::FromSpecImpl;

verus! {

/// Largest number of fractional digits a decimal can carry.
pub const MAX_SCALE: u32 = 28;

/// Largest magnitude of a mantissa: `2^96 - 1`.
pub const MAX_MANTISSA: i128 = 0xFFFF_FFFF_FFFF_FFFF_FFFF_FFFF;

/// Ten to the power `n`.
pub open spec fn pow10(n: nat) -> int
    decreases n,
{
    if n == 0 {
        1
    } else {
        10 * pow10((n - 1) as nat)
    }
}

/// The mathematical content of a decimal: the number `mantissa / 10^scale`.
pub struct DecimalValue {
    pub mantissa: int,
    pub scale: nat,
}

impl DecimalValue {
    /// The mantissa fits in 96 bits and the scale is at most 28.
    pub open spec fn valid(self) -> bool {
        &&& -MAX_MANTISSA <= self.mantissa <= MAX_MANTISSA
        &&& self.scale <= MAX_SCALE
    }

    /// The number in units of `10^-28`: an integer for every valid decimal,
    /// and equal for two decimals exactly when they denote the same number.
    pub open spec fn units(self) -> int {
        self.mantissa * pow10((MAX_SCALE - self.scale) as nat)
    }

    /// The number can be written with `scale` fractional digits and a
    /// mantissa of at most 96 bits.
    pub open spec fn fits_scale(self, scale: nat) -> bool {
        &&& self.valid()
        &&& self.scale <= scale <= MAX_SCALE
        &&& -capacity(scale) < self.units() < capacity(scale)
    }
}

/// `2^96` in units of `10^-scale`, expressed in units of `10^-28`: the bound
/// that the magnitude of a number written with `scale` fractional digits
/// stays below.
pub open spec fn capacity(scale: nat) -> int {
    (MAX_MANTISSA + 1) * pow10((MAX_SCALE - scale) as nat)
}

/// Powers of ten are positive and grow with the exponent.
pub proof fn lemma_pow10(a: nat, b: nat)
    requires
        a <= b,
    ensures
        0 < pow10(a) <= pow10(b),
    decreases b,
{
    if b == 0 {
    } else if a == b {
        lemma_pow10(0, (b - 1) as nat);
    } else {
        lemma_pow10(a, (b - 1) as nat);
    }
}

/// A narrower scale has the larger capacity.
pub proof fn lemma_capacity(a: nat, b: nat)
    requires
        a <= b <= MAX_SCALE,
    ensures
        0 < capacity(b) <= capacity(a),
{
    lemma_pow10((MAX_SCALE - b) as nat, (MAX_SCALE - a) as nat);
    let x = pow10((MAX_SCALE - b) as nat);
    let y = pow10((MAX_SCALE - a) as nat);
    assert((MAX_MANTISSA + 1) * x <= (MAX_MANTISSA + 1) * y) by (nonlinear_arith)
        requires
            0 < x <= y,
    ;
    assert(0 < (MAX_MANTISSA + 1) * x) by (nonlinear_arith)
        requires
            0 < x,
    ;
}

/// The larger of two scales.
pub open spec fn wider_scale(a: DecimalValue, b: DecimalValue) -> nat {
    if a.scale >= b.scale {
        a.scale
    } else {
        b.scale
    }
}

/// A decimal number with a 96-bit mantissa and up to 28 fractional digits.
#[derive(Clone, Copy, Debug)]
pub struct Decimal {
    pub(crate) mantissa: i128,
    pub(crate) scale: u32,
}

impl View for Decimal {
    type V = DecimalValue;

    closed spec fn view(&self) -> DecimalValue {
        DecimalValue { mantissa: self.mantissa as int, scale: self.scale as nat }
    }
}

/// What `rust_decimal::Decimal::checked_add` returns for the decimals
/// `am / 10^asc` and `bm / 10^bsc`, as mantissa and scale.
pub uninterp spec fn decimal_sum(am: int, asc: nat, bm: int, bsc: nat) -> Option<DecimalValue>;

/// What `rust_decimal::Decimal::saturating_sub` returns for the decimals
/// `am / 10^asc` and `bm / 10^bsc`, as mantissa and scale.
pub uninterp spec fn decimal_difference(am: int, asc: nat, bm: int, bsc: nat) -> DecimalValue;

/// What `rust_decimal::Decimal::checked_mul` returns for the decimals
/// `am / 10^asc` and `bm / 10^bsc`, as mantissa and scale.
pub uninterp spec fn decimal_product(am: int, asc: nat, bm: int, bsc: nat) -> Option<DecimalValue>;

/// What `rust_decimal::Decimal::checked_div` returns for the decimals
/// `am / 10^asc` and `bm / 10^bsc`, as mantissa and scale.
pub uninterp spec fn decimal_quotient(am: int, asc: nat, bm: int, bsc: nat) -> Option<DecimalValue>;

/// What `rust_decimal::Decimal::from_str` (the `FromStr` impl) returns for
/// a text, as mantissa and scale; `None` where it returns an error.
pub uninterp spec fn decimal_from_text(text: Seq<char>) -> Option<DecimalValue>;

/// What `rust_decimal::Decimal::to_string` (by the `Display` impl) returns
/// for the decimal `mantissa / 10^scale`.
pub uninterp spec fn decimal_text(mantissa: int, scale: nat) -> Seq<char>;

impl Decimal {
    /// Every decimal in executable code is valid.
    #[verifier::type_invariant]
    pub open spec fn inv(self) -> bool {
        self@.valid()
    }

    /// The decimal with the given mantissa and scale.
    pub closed spec fn of_value(v: DecimalValue) -> Decimal {
        Decimal { mantissa: v.mantissa as i128, scale: v.scale as u32 }
    }

    /// The sum of two decimals as the decimal arithmetic computes it; `None`
    /// where it overflows.
    pub open spec fn checked_sum(self, other: Decimal) -> Option<Decimal> {
        match decimal_sum(self@.mantissa, self@.scale, other@.mantissa, other@.scale) {
            Some(v) => Some(Decimal::of_value(v)),
            None => None,
        }
    }

    /// The sum of two decimals as the decimal arithmetic computes it; the
    /// largest decimal where it overflows.
    pub open spec fn sum(self, other: Decimal) -> Decimal {
        match self.checked_sum(other) {
            Some(d) => d,
            None => Decimal::largest(),
        }
    }

    /// The difference of two decimals as the decimal arithmetic computes it.
    pub open spec fn difference(self, other: Decimal) -> Decimal {
        Decimal::of_value(
            decimal_difference(self@.mantissa, self@.scale, other@.mantissa, other@.scale),
        )
    }

    /// The product of two decimals as the decimal arithmetic computes it;
    /// `None` where it overflows.
    pub open spec fn product(self, other: Decimal) -> Option<Decimal> {
        match decimal_product(self@.mantissa, self@.scale, other@.mantissa, other@.scale) {
            Some(v) => Some(Decimal::of_value(v)),
            None => None,
        }
    }

    /// The quotient of two decimals as the decimal arithmetic computes it;
    /// `None` where the divisor is zero or the quotient overflows.
    pub open spec fn quotient(self, other: Decimal) -> Option<Decimal> {
        match decimal_quotient(self@.mantissa, self@.scale, other@.mantissa, other@.scale) {
            Some(v) => Some(Decimal::of_value(v)),
            None => None,
        }
    }

    /// The decimal that a text denotes, as the decimal arithmetic reads it.
    pub open spec fn from_text(text: Seq<char>) -> Option<Decimal> {
        match decimal_from_text(text) {
            Some(v) => Some(Decimal::of_value(v)),
            None => None,
        }
    }

    /// The decimal as a text, as the decimal arithmetic writes it.
    pub open spec fn as_text(self) -> Seq<char> {
        decimal_text(self@.mantissa, self@.scale)
    }

    /// The smaller of two decimals; the first where they denote the same number.
    pub open spec fn smaller(self, other: Decimal) -> Decimal {
        if self@.units() > other@.units() {
            other
        } else {
            self
        }
    }

    /// Neither number is below zero, and their exact sum can be written at
    /// the wider of the two scales.
    pub open spec fn sum_is_exact(self, other: Decimal) -> bool {
        &&& self@.units() >= 0
        &&& other@.units() >= 0
        &&& self@.units() + other@.units() < capacity(wider_scale(self@, other@))
    }

    /// The second number is not below zero and not above the first, and
    /// their exact difference can be written at the wider of the two scales.
    pub open spec fn difference_is_exact(self, other: Decimal) -> bool {
        &&& 0 <= other@.units() <= self@.units()
        &&& self@.units() - other@.units() < capacity(wider_scale(self@, other@))
    }

    pub open spec fn is_zero(self) -> bool {
        self@.units() == 0
    }

    pub open spec fn is_positive(self) -> bool {
        self@.units() > 0
    }

    pub open spec fn is_below(self, other: Decimal) -> bool {
        self@.units() < other@.units()
    }

    pub open spec fn is_at_most(self, other: Decimal) -> bool {
        self@.units() <= other@.units()
    }

    pub open spec fn same_number(self, other: Decimal) -> bool {
        self@.units() == other@.units()
    }

    /// Zero, written without fractional digits.
    pub closed spec fn nil() -> Decimal {
        Decimal { mantissa: 0, scale: 0 }
    }

    /// The largest decimal, `2^96 - 1`.
    pub closed spec fn largest() -> Decimal {
        Decimal { mantissa: MAX_MANTISSA, scale: 0 }
    }

    /// The number zero, written without fractional digits.
    pub fn zero() -> (r: Decimal)
        ensures
            r == Decimal::nil(),
            r@ == (DecimalValue { mantissa: 0, scale: 0 }),
            r@.units() == 0,
    {
        Decimal { mantissa: 0, scale: 0 }
    }

    /// The largest decimal: `2^96 - 1`.
    pub fn max_value() -> (r: Decimal)
        ensures
            r == Decimal::largest(),
            r@ == (DecimalValue { mantissa: MAX_MANTISSA as int, scale: 0 }),
    {
        Decimal { mantissa: MAX_MANTISSA, scale: 0 }
    }

    /// The decimal `mantissa / 10^scale`, or `None` where the mantissa needs
    /// more than 96 bits or the scale is above 28.
    pub fn new(mantissa: i128, scale: u32) -> (r: Option<Decimal>)
        ensures
            match r {
                Some(d) => d@ == (DecimalValue { mantissa: mantissa as int, scale: scale as nat }),
                None => !(DecimalValue { mantissa: mantissa as int, scale: scale as nat }).valid(),
            },
    {
        if scale <= MAX_SCALE && -MAX_MANTISSA <= mantissa && mantissa <= MAX_MANTISSA {
            Some(Decimal { mantissa, scale })
        } else {
            None
        }
    }

    /// The whole number `n`.
    pub fn from_i64(n: i64) -> (r: Decimal)
        ensures
            r@ == (DecimalValue { mantissa: n as int, scale: 0 }),
    {
        Decimal { mantissa: n as i128, scale: 0 }
    }

    pub fn mantissa(&self) -> (r: i128)
        ensures
            r == self@.mantissa,
    {
        self.mantissa
    }

    pub fn scale(&self) -> (r: u32)
        ensures
            r == self@.scale,
    {
        self.scale
    }

    /// Calls `rust_decimal::Decimal::cmp` (the `Ord` impl): the order of the
    /// two numbers, whatever their scales.
    #[verifier::external_body]
    fn compare(a: Decimal, b: Decimal) -> (r: Ordering)
        requires
            a@.valid(),
            b@.valid(),
        ensures
            r == Ordering::Less <==> a@.units() < b@.units(),
            r == Ordering::Equal <==> a@.units() == b@.units(),
            r == Ordering::Greater <==> a@.units() > b@.units(),
    {
        let x = rust_decimal::Decimal::from_i128_with_scale(a.mantissa, a.scale);
        let y = rust_decimal::Decimal::from_i128_with_scale(b.mantissa, b.scale);
        x.cmp(&y)
    }

    /// Calls `rust_decimal::Decimal::min`: the second decimal where the first
    /// is greater, else the first, with its own scale.
    #[verifier::external_body]
    fn min(a: Decimal, b: Decimal) -> (r: Decimal)
        requires
            a@.valid(),
            b@.valid(),
        ensures
            r == a.smaller(b),
    {
        let x = rust_decimal::Decimal::from_i128_with_scale(a.mantissa, a.scale);
        let y = rust_decimal::Decimal::from_i128_with_scale(b.mantissa, b.scale);
        let z = x.min(y);
        Decimal { mantissa: z.mantissa(), scale: z.scale() }
    }

    /// Calls `rust_decimal::Decimal::checked_add`: the sum, or `None` on
    /// overflow. The result is named, not computed here. One fact is stated
    /// beside the name, for two numbers that are not below zero: where the
    /// exact sum can be written at the wider of the two scales, the result
    /// is that sum and its scale is no wider.
    #[verifier::external_body]
    fn checked_add(a: Decimal, b: Decimal) -> (r: Option<Decimal>)
        requires
            a@.valid(),
            b@.valid(),
        ensures
            r == a.checked_sum(b),
            match r {
                Some(d) => Some(d@) == decimal_sum(a@.mantissa, a@.scale, b@.mantissa, b@.scale)
                    && d@.valid(),
                None => decimal_sum(a@.mantissa, a@.scale, b@.mantissa, b@.scale) is None,
            },
            a.sum_is_exact(b) ==> r is Some && r->0@.units() == a@.units() + b@.units() && r->0@.scale
                <= wider_scale(a@, b@),
    {
        let x = rust_decimal::Decimal::from_i128_with_scale(a.mantissa, a.scale);
        let y = rust_decimal::Decimal::from_i128_with_scale(b.mantissa, b.scale);
        match x.checked_add(y) {
            Some(z) => Some(Decimal { mantissa: z.mantissa(), scale: z.scale() }),
            None => None,
        }
    }

    /// The sum of two decimals, or the largest decimal where the sum
    /// overflows.
    pub(crate) fn plus(a: Decimal, b: Decimal) -> (r: Decimal)
        ensures
            r == a.sum(b),
            r@.valid(),
            a.sum_is_exact(b) ==> r@.units() == a@.units() + b@.units() && r@.scale <= wider_scale(
                a@,
                b@,
            ),
    {
        proof {
            use_type_invariant(&a);
            use_type_invariant(&b);
        }
        let r = match Decimal::checked_add(a, b) {
            Some(d) => d,
            None => Decimal::max_value(),
        };
        proof {
            use_type_invariant(&r);
        }
        r
    }

    /// The sum of two decimals, or `None` where it overflows.
    pub(crate) fn checked_plus(a: Decimal, b: Decimal) -> (r: Option<Decimal>)
        ensures
            r == a.checked_sum(b),
    {
        proof {
            use_type_invariant(&a);
            use_type_invariant(&b);
        }
        Decimal::checked_add(a, b)
    }

    /// The difference of two decimals as the decimal arithmetic computes it.
    pub(crate) fn minus(a: Decimal, b: Decimal) -> (r: Decimal)
        ensures
            r == a.difference(b),
            r@.valid(),
            a.difference_is_exact(b) ==> r@.units() == a@.units() - b@.units() && r@.scale
                <= wider_scale(a@, b@),
    {
        proof {
            use_type_invariant(&a);
            use_type_invariant(&b);
        }
        Decimal::saturating_sub(a, b)
    }

    /// The smaller of two decimals; the first where they are the same number.
    pub(crate) fn lesser(a: Decimal, b: Decimal) -> (r: Decimal)
        ensures
            r == a.smaller(b),
    {
        proof {
            use_type_invariant(&a);
            use_type_invariant(&b);
        }
        Decimal::min(a, b)
    }

    /// The product of two decimals, or `None` where it overflows.
    pub(crate) fn times(a: Decimal, b: Decimal) -> (r: Option<Decimal>)
        ensures
            r == a.product(b),
    {
        proof {
            use_type_invariant(&a);
            use_type_invariant(&b);
        }
        Decimal::checked_mul(a, b)
    }

    /// The quotient of two decimals, or `None` where the divisor is zero or
    /// the quotient overflows.
    pub(crate) fn divided_by(a: Decimal, b: Decimal) -> (r: Option<Decimal>)
        ensures
            r == a.quotient(b),
    {
        proof {
            use_type_invariant(&a);
            use_type_invariant(&b);
        }
        Decimal::checked_div(a, b)
    }

    /// Calls `rust_decimal::Decimal::saturating_sub`. The result is named,
    /// not computed here. One fact is stated beside the name, for a number
    /// that is not below zero taken from one that is not smaller: where the
    /// exact difference can be written at the wider of the two scales, the
    /// result is that difference and its scale is no wider.
    #[verifier::external_body]
    fn saturating_sub(a: Decimal, b: Decimal) -> (r: Decimal)
        requires
            a@.valid(),
            b@.valid(),
        ensures
            r@ == decimal_difference(a@.mantissa, a@.scale, b@.mantissa, b@.scale),
            r == a.difference(b),
            r@.valid(),
            a.difference_is_exact(b) ==> r@.units() == a@.units() - b@.units() && r@.scale
                <= wider_scale(a@, b@),
    {
        let x = rust_decimal::Decimal::from_i128_with_scale(a.mantissa, a.scale);
        let y = rust_decimal::Decimal::from_i128_with_scale(b.mantissa, b.scale);
        let z = x.saturating_sub(y);
        Decimal { mantissa: z.mantissa(), scale: z.scale() }
    }

    /// Calls `rust_decimal::Decimal::checked_mul`: the product, rounded where
    /// it needs more than 28 fractional digits, or `None` on overflow. The
    /// result is named, not computed here.
    #[verifier::external_body]
    fn checked_mul(a: Decimal, b: Decimal) -> (r: Option<Decimal>)
        requires
            a@.valid(),
            b@.valid(),
        ensures
            r == a.product(b),
            match r {
                Some(d) => Some(d@) == decimal_product(
                    a@.mantissa,
                    a@.scale,
                    b@.mantissa,
                    b@.scale,
                ) && d@.valid(),
                None => decimal_product(a@.mantissa, a@.scale, b@.mantissa, b@.scale) is None,
            },
    {
        let x = rust_decimal::Decimal::from_i128_with_scale(a.mantissa, a.scale);
        let y = rust_decimal::Decimal::from_i128_with_scale(b.mantissa, b.scale);
        match x.checked_mul(y) {
            Some(z) => Some(Decimal { mantissa: z.mantissa(), scale: z.scale() }),
            None => None,
        }
    }

    /// Calls `rust_decimal::Decimal::checked_div`: the quotient, rounded to
    /// the digits a decimal can hold, or `None` where the divisor is zero or
    /// the quotient overflows. The result is named, not computed here.
    #[verifier::external_body]
    fn checked_div(a: Decimal, b: Decimal) -> (r: Option<Decimal>)
        requires
            a@.valid(),
            b@.valid(),
        ensures
            r == a.quotient(b),
            match r {
                Some(d) => Some(d@) == decimal_quotient(
                    a@.mantissa,
                    a@.scale,
                    b@.mantissa,
                    b@.scale,
                ) && d@.valid(),
                None => decimal_quotient(a@.mantissa, a@.scale, b@.mantissa, b@.scale) is None,
            },
    {
        let x = rust_decimal::Decimal::from_i128_with_scale(a.mantissa, a.scale);
        let y = rust_decimal::Decimal::from_i128_with_scale(b.mantissa, b.scale);
        match x.checked_div(y) {
            Some(z) => Some(Decimal { mantissa: z.mantissa(), scale: z.scale() }),
            None => None,
        }
    }

    /// Calls `rust_decimal::Decimal::from_str` through `str::parse`: the
    /// decimal that the text denotes, or `None` where the crate returns an
    /// error. The result is named, not computed here.
    #[verifier::external_body]
    fn parse_text(s: &str) -> (r: Option<Decimal>)
        ensures
            r == Decimal::from_text(s@),
            match r {
                Some(d) => Some(d@) == decimal_from_text(s@) && d@.valid(),
                None => decimal_from_text(s@) is None,
            },
    {
        match s.parse::<rust_decimal::Decimal>() {
            Ok(z) => Some(Decimal { mantissa: z.mantissa(), scale: z.scale() }),
            Err(_) => None,
        }
    }

    /// Calls `rust_decimal::Decimal::to_string`: the decimal as a text.
    /// The result is named, not computed here.
    #[verifier::external_body]
    fn write_text(a: Decimal) -> (r: String)
        requires
            a@.valid(),
        ensures
            r@ == decimal_text(a@.mantissa, a@.scale),
    {
        rust_decimal::Decimal::from_i128_with_scale(a.mantissa, a.scale).to_string()
    }

    /// The decimal that a text denotes, or `None` where it denotes none.
    pub fn parse(s: &str) -> (r: Option<Decimal>)
        ensures
            r == Decimal::from_text(s@),
    {
        Decimal::parse_text(s)
    }

    /// The decimal as a text.
    pub fn text(&self) -> (r: String)
        ensures
            r@ == self.as_text(),
    {
        proof {
            use_type_invariant(self);
        }
        Decimal::write_text(*self)
    }

    /// `self < other` as numbers.
    pub fn less_than(&self, other: &Decimal) -> (r: bool)
        ensures
            r == self.is_below(*other),
    {
        proof {
            use_type_invariant(self);
            use_type_invariant(other);
        }
        match Decimal::compare(*self, *other) {
            Ordering::Less => true,
            _ => false,
        }
    }

    /// `self <= other` as numbers.
    pub fn at_most(&self, other: &Decimal) -> (r: bool)
        ensures
            r == self.is_at_most(*other),
    {
        proof {
            use_type_invariant(self);
            use_type_invariant(other);
        }
        match Decimal::compare(*self, *other) {
            Ordering::Greater => false,
            _ => true,
        }
    }

    /// Whether the two decimals denote the same number, whatever their scales.
    pub fn equals(&self, other: &Decimal) -> (r: bool)
        ensures
            r == self.same_number(*other),
    {
        proof {
            use_type_invariant(self);
            use_type_invariant(other);
        }
        match Decimal::compare(*self, *other) {
            Ordering::Equal => true,
            _ => false,
        }
    }

    /// Whether the number is above zero.
    pub fn positive(&self) -> (r: bool)
        ensures
            r == self.is_positive(),
    {
        let z = Decimal::zero();
        proof {
            assert(pow10(28) > 0) by {
                reveal_with_fuel(pow10, 30);
            }
            assert(z@.units() == 0);
        }
        z.less_than(self)
    }

    /// The number is above zero and can be written at scale `k`.
    pub open spec fn sound(self, k: nat) -> bool {
        self@.fits_scale(k) && self@.units() > 0
    }

    /// The number is not below zero and can be written at scale `k`.
    pub open spec fn room(self, k: nat) -> bool {
        self@.fits_scale(k) && self@.units() >= 0
    }

    /// Among numbers that are not below zero and can be written at scale
    /// `k`, the difference of a number and one that is not greater is exact.
    pub proof fn lemma_difference_exact(a: Decimal, b: Decimal, k: nat)
        requires
            a.room(k),
            b.room(k),
            b@.units() <= a@.units(),
        ensures
            a.difference_is_exact(b),
            wider_scale(a@, b@) <= k,
    {
        lemma_capacity(wider_scale(a@, b@), k);
    }

    /// Among numbers that are not below zero and can be written at scale
    /// `k`, a sum that stays below the capacity of that scale is exact.
    pub proof fn lemma_sum_exact(a: Decimal, b: Decimal, k: nat)
        requires
            a.room(k),
            b.room(k),
            a@.units() + b@.units() < capacity(k),
        ensures
            a.sum_is_exact(b),
            wider_scale(a@, b@) <= k,
    {
        lemma_capacity(wider_scale(a@, b@), k);
    }

    /// What zero and the largest decimal are made of.
    pub proof fn lemma_constants()
        ensures
            Decimal::nil()@ == (DecimalValue { mantissa: 0, scale: 0 }),
            Decimal::nil()@.units() == 0,
            Decimal::nil()@.valid(),
            Decimal::largest()@ == (DecimalValue { mantissa: MAX_MANTISSA as int, scale: 0 }),
    {
    }
}

impl PartialEq for Decimal {
    fn eq(&self, other: &Decimal) -> (r: bool) {
        self.equals(other)
    }
}

impl PartialEqSpecImpl for Decimal {
    open spec fn obeys_eq_spec() -> bool {
        true
    }

    open spec fn eq_spec(&self, other: &Decimal) -> bool {
        self.same_number(*other)
    }
}

impl PartialOrd for Decimal {
    fn partial_cmp(&self, other: &Decimal) -> (r: Option<Ordering>) {
        proof {
            use_type_invariant(self);
            use_type_invariant(other);
        }
        Some(Decimal::compare(*self, *other))
    }
}

impl PartialOrdSpecImpl for Decimal {
    open spec fn obeys_partial_cmp_spec() -> bool {
        true
    }

    open spec fn partial_cmp_spec(&self, other: &Decimal) -> Option<Ordering> {
        if self@.units() < other@.units() {
            Some(Ordering::Less)
        } else if self@.units() == other@.units() {
            Some(Ordering::Equal)
        } else {
            Some(Ordering::Greater)
        }
    }
}

impl From<i64> for Decimal {
    fn from(n: i64) -> (r: Decimal) {
        Decimal::from_i64(n)
    }
}

impl FromSpecImpl<i64> for Decimal {
    open spec fn obeys_from_spec() -> bool {
        true
    }

    open spec fn from_spec(n: i64) -> Decimal {
        Decimal::of_value(DecimalValue { mantissa: n as int, scale: 0 })
    }
}

} // verus!
