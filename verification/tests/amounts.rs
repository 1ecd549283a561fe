use rust_pie_ob::amount::MAX_UNITS;
use rust_pie_ob::{Amount, Side};

#[test]
fn amount_holds_up_to_96_bits() {
    assert_eq!(MAX_UNITS, (1i128 << 96) - 1);
    assert_eq!(Amount::new(MAX_UNITS).unwrap().units(), MAX_UNITS);
    assert_eq!(Amount::new(-MAX_UNITS).unwrap().units(), -MAX_UNITS);
    assert_eq!(Amount::new(MAX_UNITS + 1), None);
    assert_eq!(Amount::new(-MAX_UNITS - 1), None);
    assert_eq!(Amount::max_value().units(), MAX_UNITS);
    assert_eq!(Amount::zero().units(), 0);
    assert_eq!(Amount::from_i64(i64::MIN).units(), i64::MIN as i128);
}

#[test]
fn checked_add_is_the_sum_or_nothing() {
    let a = Amount::from_i64(2);
    let b = Amount::from_i64(-5);
    assert_eq!(a.checked_add(b), Some(Amount::from_i64(-3)));
    assert_eq!(a.checked_add(a), Some(Amount::from_i64(4)));
    let max = Amount::max_value();
    assert_eq!(max.checked_add(Amount::from_i64(1)), None);
    assert_eq!(max.checked_add(Amount::from_i64(-1)), Amount::new(MAX_UNITS - 1));
    assert_eq!(max.checked_add(Amount::zero()), Some(max));
}

#[test]
fn checked_sub_is_the_difference_or_nothing() {
    let a = Amount::from_i64(2);
    let b = Amount::from_i64(5);
    assert_eq!(a.checked_sub(b), Some(Amount::from_i64(-3)));
    assert_eq!(b.checked_sub(a), Some(Amount::from_i64(3)));
    let least = Amount::new(-MAX_UNITS).unwrap();
    assert_eq!(least.checked_sub(Amount::from_i64(1)), None);
    assert_eq!(Amount::zero().checked_sub(least), Some(Amount::max_value()));
}

#[test]
fn checked_mul_is_the_product_or_nothing() {
    let a = Amount::from_i64(-6);
    let b = Amount::from_i64(7);
    assert_eq!(a.checked_mul(b), Some(Amount::from_i64(-42)));
    assert_eq!(a.checked_mul(Amount::zero()), Some(Amount::zero()));
    let big = Amount::new(1i128 << 48).unwrap();
    assert_eq!(big.checked_mul(big), None);
    let half = Amount::new(1i128 << 47).unwrap();
    assert_eq!(half.checked_mul(big), Amount::new(1i128 << 95));
    assert_eq!(Amount::max_value().checked_mul(Amount::from_i64(-1)), Amount::new(-MAX_UNITS));
    assert_eq!(Amount::max_value().checked_mul(Amount::from_i64(2)), None);
}

#[test]
fn min_is_the_smaller() {
    let a = Amount::from_i64(2);
    let b = Amount::from_i64(5);
    assert_eq!(a.min(b), a);
    assert_eq!(b.min(a), a);
    assert_eq!(a.min(a), a);
}

#[test]
fn negative_keeps_the_magnitude() {
    assert_eq!(Amount::from_i64(12).negative(), Amount::from_i64(-12));
    assert_eq!(Amount::from_i64(-12).negative(), Amount::from_i64(-12));
    assert_eq!(Amount::zero().negative(), Amount::zero());
}

#[test]
fn amount_prints_its_digits() {
    assert_eq!(Amount::from_i64(0).to_text(0), "0");
    assert_eq!(Amount::from_i64(7).to_text(0), "7");
    assert_eq!(Amount::from_i64(1056).to_text(0), "1056");
    assert_eq!(Amount::from_i64(-177).to_text(0), "-177");
    assert_eq!(Amount::max_value().to_text(0), "79228162514264337593543950335");
}

#[test]
fn sides_are_opposite() {
    assert_eq!(Side::Buy.opposite(), Side::Sell);
    assert_eq!(Side::Sell.opposite(), Side::Buy);
}

#[test]
fn amount_prints_its_decimal_places() {
    assert_eq!(Amount::from_i64(3).to_text(1), "0.3");
    assert_eq!(Amount::from_i64(10).to_text(1), "1.0");
    assert_eq!(Amount::from_i64(1234).to_text(2), "12.34");
    assert_eq!(Amount::from_i64(1200).to_text(2), "12.00");
    assert_eq!(Amount::from_i64(0).to_text(2), "0.00");
    assert_eq!(Amount::from_i64(-5).to_text(3), "-0.005");
    assert_eq!(Amount::from_i64(-12345).to_text(3), "-12.345");
    assert_eq!(Amount::from_i64(1).to_text(28), "0.0000000000000000000000000001");
    assert_eq!(Amount::max_value().to_text(28), "7.9228162514264337593543950335");
}

#[test]
fn decimal_numbers_become_steps() {
    // 0.3 with one place, with two, with none
    assert_eq!(Amount::from_decimal(3, 1, 1), Some(Amount::from_i64(3)));
    assert_eq!(Amount::from_decimal(3, 1, 2), Some(Amount::from_i64(30)));
    assert_eq!(Amount::from_decimal(3, 1, 0), None);
    // 0.30 is 0.3
    assert_eq!(Amount::from_decimal(30, 2, 1), Some(Amount::from_i64(3)));
    assert_eq!(Amount::from_decimal(35, 2, 1), None);
    // 5 and 5.000
    assert_eq!(Amount::from_decimal(5, 0, 0), Some(Amount::from_i64(5)));
    assert_eq!(Amount::from_decimal(5000, 3, 0), Some(Amount::from_i64(5)));
    assert_eq!(Amount::from_decimal(5, 0, 3), Some(Amount::from_i64(5000)));
    // signs and zero
    assert_eq!(Amount::from_decimal(-120, 2, 1), Some(Amount::from_i64(-12)));
    assert_eq!(Amount::from_decimal(-12, 1, 3), Some(Amount::from_i64(-1200)));
    assert_eq!(Amount::from_decimal(-125, 2, 1), None);
    assert_eq!(Amount::from_decimal(0, 5, 0), Some(Amount::zero()));
    assert_eq!(Amount::from_decimal(0, 0, 28), Some(Amount::zero()));
    assert_eq!(Amount::from_decimal(0, 28, u32::MAX), Some(Amount::zero()));
    assert_eq!(Amount::from_decimal(0, u32::MAX, 0), Some(Amount::zero()));
    // what does not fit
    assert_eq!(Amount::from_decimal(MAX_UNITS, 0, 0), Some(Amount::max_value()));
    assert_eq!(Amount::from_decimal(MAX_UNITS, 0, 1), None);
    assert_eq!(Amount::from_decimal(MAX_UNITS + 1, 0, 0), None);
    assert_eq!(Amount::from_decimal(MAX_UNITS + 1, 1, 0), None);
    assert_eq!(Amount::from_decimal(1, 0, 28), Amount::new(10i128.pow(28)));
    assert_eq!(Amount::from_decimal(1, 0, 29), None);
    assert_eq!(Amount::from_decimal(7, 0, u32::MAX), None);
    assert_eq!(Amount::from_decimal(10i128.pow(28), 28, 0), Some(Amount::from_i64(1)));
    assert_eq!(Amount::from_decimal(10i128.pow(28), 29, 0), None);
}
