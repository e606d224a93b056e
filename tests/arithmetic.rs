use accurate_float::{af32, AccurateFloat, AccurateOps, AfError};

fn num(s: &str) -> af32 {
    af32::new_from_str(s)
}

#[test]
fn results_that_fit_are_exact() {
    // Trailing zero places go when the magnitude would not fit otherwise.
    assert_eq!((num("2000000.25") + num("0.25")).decode(), "2000000.5");
    assert_eq!((num("2000000.25") - num("-0.25")).decode(), "2000000.5");
    assert_eq!((num("1000000.5") * num("1.2")).decode(), "1200000.6");
    assert_eq!((num("-1000000.5") * num("1.2")).decode(), "-1200000.6");
    // Otherwise they stay.
    assert_eq!((num("0.35") - num("0.25")).decode(), "0.10");
    assert_eq!((num("3.125") + num("0.3")).decode(), "3.425");
    assert_eq!((num("1.2345") * num("6.789")).decode(), "8.3810205");
}

#[test]
fn leading_zeros_of_a_result_fraction_are_lost() {
    assert_eq!((num("0.15") + num("0.9")).decode(), "1.5");
    assert_eq!((num("0.1") * num("0.2")).decode(), "0.2");
}

#[test]
fn product_fraction_is_cut_to_fit() {
    // 0.12345 * 0.67891 = 0.0838114395: 838114395 needs more than 26 bits,
    // so the last places go until 8381143 remains.
    assert_eq!((num("0.12345") * num("0.67891")).decode(), "0.8381143");
}

#[test]
fn division_of_a_repeating_quotient_is_truncated() {
    // 1 / 3 to twelve places, then cut to the places that fit 26 bits.
    assert_eq!((num("1.0") / num("3.0")).decode(), "0.33333333");
    assert_eq!((num("-2.0") / num("3.0")).decode(), "-0.66666666");
}

#[test]
fn division_by_zero_is_refused() {
    assert_eq!(num("1.0").checked_div(num("0.0")), Err(AfError::DivisionByZero));
    assert_eq!(num("0.3").checked_div(num("0.1")).map(|x| x.decode()), Ok("3.0".to_string()));
}

#[test]
fn operands_commute() {
    let pairs = vec![("0.25", "0.5"), ("-1.5", "2.0"), ("10.125", "0.875"), ("3.0", "-0.7")];
    for (a, b) in pairs {
        assert_eq!((num(a) + num(b)).decode(), (num(b) + num(a)).decode());
        assert_eq!((num(a) * num(b)).decode(), (num(b) * num(a)).decode());
    }
}

#[test]
fn number_minus_itself_is_zero() {
    for a in ["0.0", "1.5", "-7.25", "10.125", "67108863.0"] {
        assert_eq!((num(a) - num(a)).decode(), "0.0");
        assert_eq!((num(a) - num(a)).bits, 0);
    }
}

#[test]
fn adding_zero_keeps_the_number() {
    for a in ["0.0", "1.5", "-7.25", "10.125", "-0.3"] {
        assert_eq!((num(a) + num("0.0")).decode(), num(a).decode());
    }
}

#[test]
fn negation_is_zero_minus() {
    assert_eq!(num("3.5").neg(), num("0.0") - num("3.5"));
    assert_eq!(num("-0.0").neg().decode(), "0.0");
}

#[test]
fn text_conversions_agree() {
    let a: af32 = "2.5".into();
    let b: af32 = String::from("2.5").into();
    assert_eq!(a, b);
    assert_eq!(a, af32::new_from_bits(a.bits));
    let bad: af32 = "two".into();
    assert_eq!(bad.bits, 0);
    assert_eq!(af32::try_new_from_str("two"), Err(AfError::MalformedNumber));
    assert_eq!(af32::try_new_from_str("2.5"), Ok(a));
}

#[test]
fn trait_operations_match_operators() {
    let a = num("5.5");
    let b = num("2.0");
    assert_eq!(AccurateOps::add(a, b).decode(), "7.5");
    assert_eq!(AccurateOps::sub(a, b).decode(), "3.5");
    assert_eq!(AccurateOps::mul(a, b).decode(), "11.0");
    assert_eq!(AccurateOps::div(a, b).map(|x| x.decode()), Ok("2.75".to_string()));
    assert_eq!(AccurateOps::div(a, num("0.0")), Err(AfError::DivisionByZero));
}

#[test]
fn accurate_float_works_like_af32() {
    let a: AccurateFloat = "0.25".into();
    let b = AccurateFloat::new_from_str("0.5");
    assert_eq!((a + b).decode(), "0.75");
    assert_eq!((a - b).decode(), "-0.25");
    assert_eq!((a * b).decode(), "0.125");
    assert_eq!((a / b).decode(), "0.5");
    assert_eq!(AccurateFloat::new_from_bits(5).decode(), "5.0");
    assert_eq!(b.checked_div(AccurateFloat::new_from_str("0")), Err(AfError::DivisionByZero));
    assert_eq!(
        AccurateFloat::try_new_from_str("1..0"),
        Err(AfError::MalformedNumber)
    );
}
