use bluechips::money::Currency;
use bluechips::text::MoneyError;

#[test]
fn from_integer() {
    let c = Currency::from(123456);
    assert_eq!("$1,234.56", c.display());
}

#[test]
fn from_str() {
    let c = Currency::try_from("1234.56").unwrap();
    assert_eq!("$1,234.56", c.display());
}

#[test]
fn add() {
    let c1 = Currency::from(123);
    let c2 = Currency::from(456);
    let c = c1.add(&c2);
    assert_eq!("$5.79", c.display());
}

#[test]
fn display_zero_and_negative() {
    assert_eq!("$0.00", Currency::from_minor(0).display());
    assert_eq!("-$0.12", Currency::from_minor(-12).display());
    assert_eq!("$0.07", Currency::from_minor(7).display());
    assert_eq!("-$1,234.56", Currency::from_minor(-123456).display());
    assert_eq!("$12,345,678.90", Currency::from_minor(1234567890).display());
}

#[test]
fn parse_plain_values() {
    assert_eq!(123456, Currency::try_from("1234.56").unwrap().as_minor());
    assert_eq!(0, Currency::try_from("0").unwrap().as_minor());
    assert_eq!(500, Currency::try_from("5").unwrap().as_minor());
    assert_eq!(550, Currency::try_from("5.5").unwrap().as_minor());
    assert_eq!(-312, Currency::try_from("-3.12").unwrap().as_minor());
    assert_eq!(1200, Currency::try_from("12.").unwrap().as_minor());
}

#[test]
fn parse_rounds_half_to_even() {
    // Below and above the half cent round down and up.
    assert_eq!(1, Currency::try_from("0.014").unwrap().as_minor());
    assert_eq!(2, Currency::try_from("0.016").unwrap().as_minor());
    // An exact half cent goes to the even cent.
    assert_eq!(2, Currency::try_from("0.015").unwrap().as_minor());
    assert_eq!(2, Currency::try_from("0.025").unwrap().as_minor());
    // A half cent with more behind it rounds up.
    assert_eq!(3, Currency::try_from("0.0251").unwrap().as_minor());
    // The sign applies to the rounded magnitude.
    assert_eq!(-2, Currency::try_from("-0.015").unwrap().as_minor());
}

#[test]
fn parse_rejects_malformed_strings() {
    assert_eq!(Err(MoneyError::InvalidFormat), Currency::try_from(""));
    assert_eq!(Err(MoneyError::InvalidFormat), Currency::try_from("-"));
    assert_eq!(Err(MoneyError::InvalidFormat), Currency::try_from(".5"));
    assert_eq!(Err(MoneyError::InvalidFormat), Currency::try_from("1.2.3"));
    assert_eq!(Err(MoneyError::InvalidFormat), Currency::try_from("12a"));
    assert_eq!(Err(MoneyError::InvalidFormat), Currency::try_from("$5"));
}

#[test]
fn parse_rejects_out_of_range_values() {
    assert_eq!(
        Err(MoneyError::OutOfRange),
        Currency::try_from("999999999999999999999999")
    );
    assert_eq!(
        Err(MoneyError::OutOfRange),
        Currency::try_from("-999999999999999999999999")
    );
}

#[test]
fn arithmetic_and_predicates() {
    let a = Currency::from_minor(250);
    let b = Currency::from_minor(-100);
    assert_eq!(150, a.add(&b).as_minor());
    assert_eq!(350, a.sub(&b).as_minor());
    assert_eq!(100, b.abs().as_minor());
    assert_eq!(100, b.neg().as_minor());
    assert!(b.is_negative());
    assert!(a.is_positive());
    assert!(Currency::zero().is_zero());
    assert!(b.lt(&a));
    assert!(!a.lt(&b));
    let values = vec![a, b, Currency::from_minor(50)];
    assert_eq!(200, Currency::sum(&values).as_minor());
}

#[test]
fn scalar_multiplication_and_truncating_division() {
    let a = Currency::from_minor(250);
    assert_eq!(750, a.scale(3).as_minor());
    assert_eq!(-500, a.scale(-2).as_minor());
    // Division truncates toward zero, for either sign.
    assert_eq!(83, a.div_scalar(3).as_minor());
    assert_eq!(-83, a.div_scalar(-3).as_minor());
    assert_eq!(-83, Currency::from_minor(-250).div_scalar(3).as_minor());
    assert_eq!(83, Currency::from_minor(-250).div_scalar(-3).as_minor());
    assert_eq!(i64::MIN, Currency::from_minor(i64::MIN).div_scalar(1).as_minor());
}
