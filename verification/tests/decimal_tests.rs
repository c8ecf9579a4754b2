use lightning_core::decimal::Decimal;

#[test]
fn test_parse_and_render() {
    let (neg, d) = Decimal::parse("50000.0").unwrap();
    assert!(!neg);
    assert_eq!(d.mantissa, 500000);
    assert_eq!(d.scale, 1);
    assert_eq!(d.to_string(), "50000.0");

    let (neg, d) = Decimal::parse("0.01").unwrap();
    assert!(!neg);
    assert_eq!(d.mantissa, 1);
    assert_eq!(d.scale, 2);
    assert_eq!(d.to_string(), "0.01");

    let (neg, d) = Decimal::parse("-3.50").unwrap();
    assert!(neg);
    assert_eq!(d.to_string(), "3.50");

    assert_eq!(Decimal::zero().to_string(), "0");

    assert!(Decimal::parse("").is_none());
    assert!(Decimal::parse(".5").is_none());
    assert!(Decimal::parse("5.").is_none());
    assert!(Decimal::parse("1.2.3").is_none());
    assert!(Decimal::parse("1e5").is_none());
    // more fractional digits than the core keeps
    assert!(Decimal::parse("0.123456789012345").is_none());
}

#[test]
fn test_arithmetic_is_exact() {
    let a = Decimal::parse("50000.0").unwrap().1;
    let b = Decimal::parse("0.01").unwrap().1;
    let p = a.checked_mul(&b).unwrap();
    assert_eq!(p.to_string(), "500.000");

    let x = Decimal::parse("1.0").unwrap().1;
    let y = Decimal::parse("0.5").unwrap().1;
    let s = x.checked_sub(&y).unwrap();
    assert_eq!(s.to_string(), "0.5");
    let t = s.checked_add(&y).unwrap();
    assert!(t.eq_value(&x));

    // scale grows to the finer operand
    let u = Decimal::new(1000, 0).checked_add(&Decimal::new(500, 1)).unwrap();
    assert_eq!(u.to_string(), "1050.0");
}

#[test]
fn test_comparisons_ignore_scale() {
    let a = Decimal::new(10, 1); // 1.0
    let b = Decimal::new(100, 2); // 1.00
    assert!(a.eq_value(&b));
    assert!(!a.lt(&b));
    assert!(a.le(&b));
    let c = Decimal::new(5, 1); // 0.5
    assert!(c.lt(&a));
    assert!(a.min(&c).eq_value(&c));
}

#[test]
fn test_out_of_range_is_rejected() {
    // magnitude beyond 10^20 cannot be represented
    assert!(Decimal::parse("100000000000000000000").is_none());
    let big = Decimal::parse("99999999999999999999").unwrap().1;
    assert!(big.checked_add(&big).is_none());
    assert!(big.checked_mul(&big).is_none());
}
