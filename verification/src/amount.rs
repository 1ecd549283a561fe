//! Amounts: prices, quantities and costs, each a whole number of steps.
//!
//! A market says how many decimal places its prices and its quantities are
//! written with. An amount counts steps of that size: with one place, the
//! price 0.3 is the amount 3. A cost has the places of a price and of a
//! quantity together.

use vstd::arithmetic::div_mod::{lemma_fundamental_div_mod, lemma_fundamental_div_mod_converse};
use vstd::prelude::*;

verus! {

/// Largest magnitude an [`Amount`] holds: 2^96 - 1, the widest integer a
/// `rust_decimal::Decimal` stores.
pub const MAX_UNITS: i128 = 79_228_162_514_264_337_593_543_950_335;

/// The most decimal places that a `rust_decimal::Decimal` is written with.
pub const MAX_PLACES: u32 = 28;

/// Whether `x` is a number of units that an [`Amount`] can hold.
pub open spec fn in_range(x: int) -> bool {
    -MAX_UNITS <= x <= MAX_UNITS
}

/// A signed number of steps, between `-MAX_UNITS` and `MAX_UNITS`.
#[derive(Clone, Copy, Debug, PartialEq, Eq, Structural)]
pub struct Amount {
    pub(crate) units: i128,
}

impl View for Amount {
    type V = int;

    closed spec fn view(&self) -> int {
        self.units as int
    }
}

impl Amount {
    /// Every amount is in range.
    #[verifier::type_invariant]
    pub open spec fn inv(self) -> bool {
        in_range(self@)
    }

    /// The amount of `units` units, if that many fit.
    pub fn new(units: i128) -> (r: Option<Amount>)
        ensures
            r is Some <==> in_range(units as int),
            r matches Some(a) ==> a@ == units,
    {
        if -MAX_UNITS <= units && units <= MAX_UNITS {
            Some(Amount { units })
        } else {
            None
        }
    }

    /// The number `mantissa / 10^scale`, counted in steps of `10^-places`:
    /// the way from a decimal number to the amount of a market that writes
    /// with `places` decimal places. There is none where the number is not a
    /// whole number of steps, or where the steps do not fit.
    pub fn from_decimal(mantissa: i128, scale: u32, places: u32) -> (r: Option<Amount>)
        ensures
            r is Some <==> in_range(mantissa as int) && (steps_of(
                mantissa as int,
                scale as nat,
                places as nat,
            ) matches Some(steps) && in_range(steps)),
            r matches Some(a) ==> steps_of(mantissa as int, scale as nat, places as nat) == Some(
                a@,
            ),
    {
        if mantissa < -MAX_UNITS || mantissa > MAX_UNITS {
            return None;
        }
        let negative = mantissa < 0;
        let size: u128 = if negative {
            (-mantissa) as u128
        } else {
            mantissa as u128
        };
        let scaled = if scale <= places {
            scaled_up(size, places - scale)
        } else {
            scaled_down(size, scale - places)
        };
        proof {
            if scale <= places {
                lemma_power_of_ten_positive((places - scale) as nat);
                assert((-(size as int)) * power_of_ten((places - scale) as nat) == -(size
                    * power_of_ten((places - scale) as nat))) by (nonlinear_arith);
            } else {
                lemma_power_of_ten_positive((scale - places) as nat);
                lemma_divides_negative(size as int, power_of_ten((scale - places) as nat) as int);
            }
        }
        match scaled {
            Some(steps) => {
                if negative {
                    Some(Amount { units: -(steps as i128) })
                } else {
                    Some(Amount { units: steps as i128 })
                }
            },
            None => None,
        }
    }

    /// The amount of `units` units; every `i64` fits.
    pub fn from_i64(units: i64) -> (r: Amount)
        ensures
            r@ == units,
    {
        Amount { units: units as i128 }
    }

    /// The number of units.
    pub fn units(&self) -> (r: i128)
        ensures
            r == self@,
            in_range(self@),
    {
        proof {
            use_type_invariant(self);
        }
        self.units
    }

    /// No units at all.
    pub fn zero() -> (r: Amount)
        ensures
            r@ == 0,
    {
        Amount { units: 0 }
    }

    /// The largest amount.
    pub fn max_value() -> (r: Amount)
        ensures
            r@ == MAX_UNITS,
    {
        Amount { units: MAX_UNITS }
    }

    /// The smaller of two amounts.
    pub fn min(self, other: Amount) -> (r: Amount)
        ensures
            r@ == if self@ > other@ { other@ } else { self@ },
    {
        if self.units > other.units {
            other
        } else {
            self
        }
    }

    /// `-|self|`: the same magnitude, with the sign of a sum received.
    pub fn negative(self) -> (r: Amount)
        ensures
            r@ == if self@ > 0 { -self@ } else { self@ },
    {
        proof {
            use_type_invariant(self);
        }
        if self.units > 0 {
            Amount { units: -self.units }
        } else {
            self
        }
    }

    /// The amount as text, written with `places` decimal places: a minus
    /// sign where it is negative, the digits of the whole part, and, where
    /// there are places, a point and that many digits.
    pub fn to_text(&self, places: u32) -> (r: String)
        requires
            places <= MAX_PLACES,
        ensures
            r@ == decimal_numeral(self@, places as nat),
    {
        proof {
            use_type_invariant(self);
        }
        decimal_to_text(self.units, places)
    }

    /// `self + other`, or `None` where the sum does not fit.
    pub fn checked_add(self, other: Amount) -> (r: Option<Amount>)
        ensures
            r is Some <==> in_range(self@ + other@),
            r matches Some(a) ==> a@ == self@ + other@,
    {
        proof {
            use_type_invariant(self);
            use_type_invariant(other);
        }
        match decimal_sum(self.units, other.units) {
            Some(units) => Some(Amount { units }),
            None => None,
        }
    }

    /// `self - other`, or `None` where the difference does not fit.
    pub fn checked_sub(self, other: Amount) -> (r: Option<Amount>)
        ensures
            r is Some <==> in_range(self@ - other@),
            r matches Some(a) ==> a@ == self@ - other@,
    {
        proof {
            use_type_invariant(self);
            use_type_invariant(other);
        }
        match decimal_difference(self.units, other.units) {
            Some(units) => Some(Amount { units }),
            None => None,
        }
    }

    /// `self * other`, or `None` where the product does not fit.
    pub fn checked_mul(self, other: Amount) -> (r: Option<Amount>)
        ensures
            r is Some <==> in_range(self@ * other@),
            r matches Some(a) ==> a@ == self@ * other@,
    {
        proof {
            use_type_invariant(self);
            use_type_invariant(other);
        }
        match decimal_product(self.units, other.units) {
            Some(units) => Some(Amount { units }),
            None => None,
        }
    }
}

/// The character of one decimal digit.
pub open spec fn digit(d: int) -> char {
    if d == 0 {
        '0'
    } else if d == 1 {
        '1'
    } else if d == 2 {
        '2'
    } else if d == 3 {
        '3'
    } else if d == 4 {
        '4'
    } else if d == 5 {
        '5'
    } else if d == 6 {
        '6'
    } else if d == 7 {
        '7'
    } else if d == 8 {
        '8'
    } else {
        '9'
    }
}

/// The decimal digits of `n`, the highest first, without leading zeros; `0` for 0.
pub open spec fn digits(n: nat) -> Seq<char>
    decreases n,
{
    if n < 10 {
        seq![digit(n as int)]
    } else {
        digits(n / 10).push(digit((n % 10) as int))
    }
}

/// 10 to the power of `places`.
pub open spec fn power_of_ten(places: nat) -> nat
    decreases places,
{
    if places == 0 {
        1
    } else {
        10 * power_of_ten((places - 1) as nat)
    }
}

/// The lowest `places` decimal digits of `n`, the highest first, with
/// zeros where `n` has fewer.
pub open spec fn low_digits(n: nat, places: nat) -> Seq<char>
    decreases places,
{
    if places == 0 {
        Seq::empty()
    } else {
        low_digits(n / 10, (places - 1) as nat).push(digit((n % 10) as int))
    }
}

/// `n` without its sign.
pub open spec fn size(n: int) -> nat {
    if n < 0 {
        (-n) as nat
    } else {
        n as nat
    }
}

/// The number of `units` steps of 10 to the power of `-places`, as text: a
/// minus sign where it is negative, the digits of the whole part, and, where
/// there are places, a point and that many digits.
pub open spec fn decimal_numeral(units: int, places: nat) -> Seq<char> {
    let sign = if units < 0 {
        seq!['-']
    } else {
        Seq::empty()
    };
    let whole = digits(size(units) / power_of_ten(places));
    if places == 0 {
        sign + whole
    } else {
        sign + whole + seq!['.'] + low_digits(size(units) % power_of_ten(places), places)
    }
}

/// The number `mantissa / 10^scale` in steps of `10^-places`, where it is a
/// whole number of them.
pub open spec fn steps_of(mantissa: int, scale: nat, places: nat) -> Option<int> {
    if scale <= places {
        Some(mantissa * power_of_ten((places - scale) as nat))
    } else if mantissa % (power_of_ten((scale - places) as nat) as int) == 0 {
        Some(mantissa / (power_of_ten((scale - places) as nat) as int))
    } else {
        None
    }
}

/// A power of ten is positive, and grows with its exponent.
pub proof fn lemma_power_of_ten_positive(places: nat)
    ensures
        power_of_ten(places) >= 1,
        power_of_ten(places + 1) == 10 * power_of_ten(places),
    decreases places,
{
    if places > 0 {
        lemma_power_of_ten_positive((places - 1) as nat);
    }
}

/// A number and its negative are divided by the same numbers, and their
/// quotients are each other's negatives.
pub proof fn lemma_divides_negative(size: int, by: int)
    requires
        by >= 1,
    ensures
        (-size) % by == 0 <==> size % by == 0,
        size % by == 0 ==> (-size) / by == -(size / by),
{
    lemma_fundamental_div_mod(size, by);
    lemma_fundamental_div_mod(-size, by);
    if size % by == 0 {
        let q = size / by;
        assert(-size == (-q) * by + 0) by (nonlinear_arith)
            requires
                size == by * q + 0,
        ;
        lemma_fundamental_div_mod_converse(-size, by, -q, 0);
    }
    if (-size) % by == 0 {
        let q = (-size) / by;
        assert(size == (-q) * by + 0) by (nonlinear_arith)
            requires
                -size == by * q + 0,
        ;
        lemma_fundamental_div_mod_converse(size, by, -q, 0);
    }
}

/// `size * 10^by`, where that fits an amount.
fn scaled_up(size: u128, by: u32) -> (r: Option<u128>)
    requires
        size <= MAX_UNITS,
    ensures
        r is Some <==> size * power_of_ten(by as nat) <= MAX_UNITS,
        r matches Some(v) ==> v == size * power_of_ten(by as nat),
{
    if size == 0 {
        assert(0 * power_of_ten(by as nat) == 0) by (nonlinear_arith);
        return Some(0);
    }
    let mut current: u128 = size;
    let mut i: u32 = 0;
    assert(size * power_of_ten(0) == size) by (nonlinear_arith)
        requires
            power_of_ten(0) == 1,
    ;
    while i < by
        invariant
            i <= by,
            size >= 1,
            current == size * power_of_ten(i as nat),
            current <= MAX_UNITS,
        decreases by - i,
    {
        proof {
            lemma_power_of_ten_positive(i as nat);
            assert(size * (10 * power_of_ten(i as nat)) == 10 * (size * power_of_ten(i as nat)))
                by (nonlinear_arith);
        }
        let next: u128 = current * 10;
        if next > MAX_UNITS as u128 {
            proof {
                lemma_power_of_ten_grows((i + 1) as nat, by as nat);
                assert(size * power_of_ten(by as nat) >= size * power_of_ten((i + 1) as nat))
                    by (nonlinear_arith)
                    requires
                        size >= 1,
                        power_of_ten(by as nat) >= power_of_ten((i + 1) as nat),
                ;
            }
            return None;
        }
        current = next;
        i = i + 1;
    }
    Some(current)
}

/// A power of ten is no more than a power of ten with a higher exponent.
pub proof fn lemma_power_of_ten_grows(low: nat, high: nat)
    requires
        low <= high,
    ensures
        power_of_ten(low) <= power_of_ten(high),
    decreases high - low,
{
    if low < high {
        lemma_power_of_ten_grows(low, (high - 1) as nat);
        lemma_power_of_ten_positive((high - 1) as nat);
    }
}

/// `size / 10^by`, where that is a whole number.
fn scaled_down(size: u128, by: u32) -> (r: Option<u128>)
    requires
        size <= MAX_UNITS,
    ensures
        r is Some <==> size as int % (power_of_ten(by as nat) as int) == 0,
        r matches Some(v) ==> v == size as int / (power_of_ten(by as nat) as int) && v
            <= MAX_UNITS,
{
    proof {
        lemma_power_of_ten_positive(by as nat);
    }
    if size == 0 {
        assert(0int % (power_of_ten(by as nat) as int) == 0 && 0int / (power_of_ten(
            by as nat,
        ) as int) == 0) by (nonlinear_arith)
            requires
                power_of_ten(by as nat) >= 1,
        ;
        return Some(0);
    }
    let mut current: u128 = size;
    let mut i: u32 = 0;
    assert(size == size * power_of_ten(0)) by (nonlinear_arith)
        requires
            power_of_ten(0) == 1,
    ;
    while i < by
        invariant
            i <= by,
            size >= 1,
            current >= 1,
            current <= MAX_UNITS,
            size == current * power_of_ten(i as nat),
        decreases by - i,
    {
        proof {
            lemma_power_of_ten_positive(i as nat);
        }
        if current % 10 != 0 {
            proof {
                let p = power_of_ten(i as nat) as int;
                let q = power_of_ten(by as nat) as int;
                let rest = power_of_ten((by - i) as nat) as int;
                let tenth = power_of_ten((by - i - 1) as nat) as int;
                lemma_power_of_ten_positive(by as nat);
                lemma_power_of_ten_split(i as nat, by as nat);
                lemma_power_of_ten_positive((by - i - 1) as nat);
                assert(rest == 10 * tenth);
                if size as int % q == 0 {
                    let v = size as int / q;
                    lemma_fundamental_div_mod(size as int, q);
                    assert(current as int == (tenth * v) * 10 + 0) by (nonlinear_arith)
                        requires
                            size as int == q * v + 0,
                            q == rest * p,
                            rest == 10 * tenth,
                            size as int == current as int * p,
                            p >= 1,
                    ;
                    lemma_fundamental_div_mod_converse(current as int, 10, tenth * v, 0);
                }
            }
            return None;
        }
        proof {
            lemma_fundamental_div_mod(current as int, 10);
            assert(size as int == (current as int / 10) * (10 * power_of_ten(i as nat)))
                by (nonlinear_arith)
                requires
                    size as int == current as int * power_of_ten(i as nat),
                    current as int == 10 * (current as int / 10) + 0,
            ;
        }
        current = current / 10;
        i = i + 1;
    }
    proof {
        let q = power_of_ten(by as nat) as int;
        lemma_power_of_ten_positive(by as nat);
        lemma_fundamental_div_mod_converse(size as int, q, current as int, 0);
    }
    Some(current)
}

/// A power of ten is the product of the powers of ten of two parts of its exponent.
pub proof fn lemma_power_of_ten_split(low: nat, high: nat)
    requires
        low <= high,
    ensures
        power_of_ten(high) == power_of_ten((high - low) as nat) * power_of_ten(low),
    decreases high - low,
{
    if low < high {
        lemma_power_of_ten_split(low, (high - 1) as nat);
        lemma_power_of_ten_positive((high - 1) as nat);
        lemma_power_of_ten_positive((high - 1 - low) as nat);
        assert(10 * (power_of_ten((high - 1 - low) as nat) * power_of_ten(low)) == (10
            * power_of_ten((high - 1 - low) as nat)) * power_of_ten(low)) by (nonlinear_arith);
    } else {
        assert(1 * power_of_ten(low) == power_of_ten(low)) by (nonlinear_arith);
    }
}

/// `Display` of `rust_decimal::Decimal`, on the number with the mantissa
/// `units` and the scale `places`: a minus sign where it is negative, the
/// digits of the whole part, and, where the scale is not 0, a point and as
/// many digits as the scale says.
#[verifier::external_body]
fn decimal_to_text(units: i128, places: u32) -> (r: String)
    requires
        in_range(units as int),
        places <= MAX_PLACES,
    ensures
        r@ == decimal_numeral(units as int, places as nat),
{
    format!("{}", rust_decimal::Decimal::from_i128_with_scale(units, places))
}

/// `rust_decimal::Decimal::checked_add` on two whole numbers: the sum, or
/// `None` where the sum needs more than 96 bits.
#[verifier::external_body]
fn decimal_sum(a: i128, b: i128) -> (r: Option<i128>)
    requires
        in_range(a as int),
        in_range(b as int),
    ensures
        r is Some <==> in_range(a + b),
        r matches Some(s) ==> s == a + b,
{
    let x = rust_decimal::Decimal::from_i128_with_scale(a, 0);
    let y = rust_decimal::Decimal::from_i128_with_scale(b, 0);
    match x.checked_add(y) {
        Some(d) => Some(d.mantissa()),
        None => None,
    }
}

/// `rust_decimal::Decimal::checked_sub` on two whole numbers: the
/// difference, or `None` where it needs more than 96 bits.
#[verifier::external_body]
fn decimal_difference(a: i128, b: i128) -> (r: Option<i128>)
    requires
        in_range(a as int),
        in_range(b as int),
    ensures
        r is Some <==> in_range(a - b),
        r matches Some(d) ==> d == a - b,
{
    let x = rust_decimal::Decimal::from_i128_with_scale(a, 0);
    let y = rust_decimal::Decimal::from_i128_with_scale(b, 0);
    match x.checked_sub(y) {
        Some(d) => Some(d.mantissa()),
        None => None,
    }
}

/// `rust_decimal::Decimal::checked_mul` on two whole numbers: the product,
/// or `None` where it needs more than 96 bits.
#[verifier::external_body]
fn decimal_product(a: i128, b: i128) -> (r: Option<i128>)
    requires
        in_range(a as int),
        in_range(b as int),
    ensures
        r is Some <==> in_range(a * b),
        r matches Some(p) ==> p == a * b,
{
    let x = rust_decimal::Decimal::from_i128_with_scale(a, 0);
    let y = rust_decimal::Decimal::from_i128_with_scale(b, 0);
    match x.checked_mul(y) {
        Some(d) => Some(d.mantissa()),
        None => None,
    }
}

} // verus!
