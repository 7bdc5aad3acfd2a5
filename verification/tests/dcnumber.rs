use std::cmp::Ordering;
use std::str::FromStr;

use rdc::dcnumber::digits_type::DigitsType;
use rdc::dcnumber::error::ParseDCNumberError;
use rdc::dcnumber::small_ints;
use rdc::dcnumber::traits::FromBytes;
use rdc::dcnumber::unsigned::{decimal_digits, UnsignedDCNumber};

fn number(digits: Vec<u8>, separator: usize) -> UnsignedDCNumber {
    UnsignedDCNumber::new(DigitsType::from(digits), separator)
}

fn udcn(text: &str) -> UnsignedDCNumber {
    UnsignedDCNumber::from_str(text).expect(text)
}

fn max_u64() -> UnsignedDCNumber {
    number(vec![1, 8, 4, 4, 6, 7, 4, 4, 0, 7, 3, 7, 0, 9, 5, 5, 1, 6, 1, 5], 20)
}

fn max_i64() -> UnsignedDCNumber {
    number(vec![9, 2, 2, 3, 3, 7, 2, 0, 3, 6, 8, 5, 4, 7, 7, 5, 8, 0, 7], 19)
}

#[test]
fn mod_test_split() {
    assert_eq!((&[0u8][..], &[][..]), small_ints::zero().split());
    assert_eq!((&[1u8][..], &[][..]), small_ints::one().split());
    assert_eq!((&[1u8, 2, 3, 4][..], &[3u8, 2][..]), udcn("1234.32").split());
    assert_eq!((&[1u8, 2, 3, 4][..], &[3u8, 2][..]), udcn("1234.320").split());
}

#[test]
fn mod_test_default() {
    assert_eq!(small_ints::zero(), UnsignedDCNumber::default());
}

#[test]
fn mod_test_cmp_unsigned() {
    let zero = small_ints::zero();
    let one = small_ints::one();
    assert_eq!(Ordering::Equal, zero.cmp_unsigned(&zero));
    assert_eq!(Ordering::Less, zero.cmp_unsigned(&one));
    assert_eq!(Ordering::Greater, one.cmp_unsigned(&zero));
    assert_eq!(Ordering::Equal, one.cmp_unsigned(&one));
}

#[test]
fn mod_test_eq() {
    assert_eq!(small_ints::zero(), small_ints::zero());
    assert_eq!(small_ints::one(), small_ints::one())
}

#[test]
fn mod_test_partial_order() {
    let zero = small_ints::zero();
    let one = small_ints::one();
    assert_eq!(Some(Ordering::Less), zero.partial_cmp(&one));
    assert_eq!(Some(Ordering::Greater), one.partial_cmp(&zero));
    assert_eq!(Some(Ordering::Equal), zero.partial_cmp(&zero));
    assert_eq!(Some(Ordering::Less), UnsignedDCNumber::from(213u64).partial_cmp(&udcn("321.12")));
}

#[test]
fn mod_test_order() {
    assert!(small_ints::zero() < small_ints::one());
}

#[test]
fn mod_test_to_primitive() {
    assert_eq!(0, small_ints::zero().to_u64().expect("u64 zero"));
    assert_eq!(1, small_ints::one().to_u64().expect("u64 one"));
    assert_eq!(u64::MAX, max_u64().to_u64().expect("u64 max_u64"));
    assert_eq!(i64::MAX as u64, max_i64().to_u64().expect("u64 max_i64"));
    assert_eq!(None, udcn("10.1").to_u64());
    assert_eq!(None, udcn("6125216521678251786215186528167125821752187528175218721582715125214512421532154211624217421765421").to_u64());
    assert_eq!(i64::MAX as u64 + 1, max_i64().to_u64().expect("u64 max_i64") + 1);
    assert_eq!(0, small_ints::zero().to_i64().expect("i64 zero"));
    assert_eq!(1, small_ints::one().to_i64().expect("i64 one"));
    assert_eq!(i64::MAX, max_i64().to_i64().expect("i64 max_i64"));
    assert_eq!(None, max_u64().to_i64());
    assert_eq!(None, udcn("10.1").to_i64());
}

#[test]
fn mod_test_decimal_digits() {
    assert_eq!(0, decimal_digits(0));
    assert_eq!(1, decimal_digits(1));
    assert_eq!(2, decimal_digits(22));
    assert_eq!(3, decimal_digits(311));
    assert_eq!(4, decimal_digits(4123));
    assert_eq!(5, decimal_digits(63413));
    assert_eq!(6, decimal_digits(732142));
    assert_eq!(7, decimal_digits(9231763));
    assert_eq!(8, decimal_digits(84985731));
    assert_eq!(9, decimal_digits(223173622));
    assert_eq!(10, decimal_digits(1231736322));
    assert_eq!(19, decimal_digits(i64::MAX as u64));
    assert_eq!(20, decimal_digits(u64::MAX));
}

#[test]
fn mod_test_from_u64_zero() {
    assert_eq!(small_ints::zero(), UnsignedDCNumber::from(0u64));
}

#[test]
fn mod_test_from_u64_one() {
    assert_eq!(small_ints::one(), UnsignedDCNumber::from(1u64));
}

#[test]
fn mod_test_from_u64() {
    let n = UnsignedDCNumber::from(1234567890u64);
    assert_eq!(UnsignedDCNumber::with_integer_digits(DigitsType::from(vec![1, 2, 3, 4, 5, 6, 7, 8, 9, 0])), n);
}

#[test]
fn test_from_str() {
    assert_eq!(udcn(".32"), udcn("0.32"));
    assert_eq!(udcn(".320"), udcn("0.32"));
}

#[test]
fn test_is_zero() {
    assert!(number(vec![0], 1)._is_zero());
    assert!(!number(vec![1], 1)._is_zero());
    assert!(!number(vec![0, 1], 1)._is_zero());
}

#[test]
fn unsigned_test_default() {
    assert_eq!(number(vec![0], 1), UnsignedDCNumber::default());
}

#[test]
fn unsigned_test_split() {
    assert_eq!((&[0u8][..], &[][..]), small_ints::zero().split());
}

#[test]
fn test_split1() {
    assert_eq!((&[1u8][..], &[][..]), number(vec![1], 1).split());
}

#[test]
fn test_split2() {
    assert_eq!((&[1u8, 2, 3, 4][..], &[3u8, 2][..]), udcn("1234.32").split());
}

#[test]
fn test_split3() {
    assert_eq!((&[1u8, 2, 3, 4][..], &[3u8, 2][..]), udcn("1234.320").split());
}

#[test]
fn test_regression_a_16() {
    let n = UnsignedDCNumber::from_str_radix("A", 16).expect("A in hex should be fine");
    assert_eq!(number(vec![1, 0], 2), n);
}

#[test]
fn unsigned_test_cmp_unsigned() {
    let zero = number(vec![0], 1);
    let one = number(vec![1], 1);
    assert_eq!(Ordering::Equal, zero.cmp_unsigned(&zero));
    assert_eq!(Ordering::Less, zero.cmp_unsigned(&one));
    assert_eq!(Ordering::Greater, one.cmp_unsigned(&zero));
    assert_eq!(Ordering::Equal, one.cmp_unsigned(&one));
}

#[test]
fn unsigned_test_eq() {
    assert_eq!(number(vec![0], 1), number(vec![0], 1));
    assert_eq!(number(vec![1], 1), number(vec![1], 1))
}

#[test]
fn unsigned_test_partial_order() {
    let zero = number(vec![0], 1);
    let one = number(vec![1], 1);
    assert_eq!(Some(Ordering::Less), zero.partial_cmp(&one));
    assert_eq!(Some(Ordering::Greater), one.partial_cmp(&zero));
    assert_eq!(Some(Ordering::Equal), zero.partial_cmp(&zero));
    assert_eq!(Some(Ordering::Less), UnsignedDCNumber::from(213u32).partial_cmp(&udcn("321.12")));
}

#[test]
fn unsigned_test_order() {
    assert!(number(vec![0], 1) < number(vec![1], 1));
}

#[test]
fn unsigned_test_to_primitive() {
    assert_eq!(0, number(vec![0], 1).to_u64().expect("u64 zero_literal!()"));
    assert_eq!(1, number(vec![1], 1).to_u64().expect("u64 one"));
    assert_eq!(u64::MAX, max_u64().to_u64().expect("u64 max_u64"));
    assert_eq!(i64::MAX as u64, max_i64().to_u64().expect("u64 max_i64"));
    assert_eq!(None, udcn("10.1").to_u64());
    assert_eq!(None, udcn("6125216521678251786215186528167125821752187528175218721582715125214512421532154211624217421765421").to_u64());
    assert_eq!(0, number(vec![0], 1).to_i64().expect("i64 zero"));
    assert_eq!(1, number(vec![1], 1).to_i64().expect("i64 one"));
    assert_eq!(i64::MAX, max_i64().to_i64().expect("i64 max_i64"));
}

#[test]
fn test_display() {
    let digits = "0";
    let n = udcn(digits);
    assert_eq!(digits.to_string(), n.to_string());
}

#[test]
fn unsigned_test_decimal_digits() {
    assert_eq!(0, decimal_digits(0));
    assert_eq!(1, decimal_digits(1));
    assert_eq!(2, decimal_digits(22));
    assert_eq!(3, decimal_digits(311));
    assert_eq!(4, decimal_digits(4123));
    assert_eq!(5, decimal_digits(63413));
    assert_eq!(6, decimal_digits(732142));
    assert_eq!(7, decimal_digits(9231763));
    assert_eq!(8, decimal_digits(84985731));
    assert_eq!(9, decimal_digits(223173622));
    assert_eq!(10, decimal_digits(1231736322));
    assert_eq!(19, decimal_digits(i64::MAX as u64));
    assert_eq!(20, decimal_digits(u64::MAX));
}

#[test]
fn unsigned_test_from_u64_zero() {
    assert_eq!(number(vec![0], 1), UnsignedDCNumber::from(0u64));
}

#[test]
fn test_from_u64_10() {
    assert_eq!(number(vec![1, 0], 2), UnsignedDCNumber::from(10u64));
}

#[test]
fn unsigned_test_from_u64_one() {
    assert_eq!(number(vec![1], 1), UnsignedDCNumber::from(1u64));
}

#[test]
fn unsigned_test_from_u64() {
    let n = UnsignedDCNumber::from(1234567890u64);
    assert_eq!(UnsignedDCNumber::with_integer_digits(DigitsType::from(vec![1, 2, 3, 4, 5, 6, 7, 8, 9, 0])), n);
}

#[test]
fn test_from_str_dot32() {
    assert_eq!(udcn(".32"), udcn("0.32"));
}

#[test]
fn test_from_str_dot320() {
    assert_eq!(udcn(".320"), udcn("0.32"));
}

#[test]
fn test_from_u8() {
    for i in 0..256 {
        let i = i as u8;
        assert_eq!(i as u64, UnsignedDCNumber::from(i).to_u64().unwrap());
        assert_eq!(i.to_string(), UnsignedDCNumber::from(i).to_string());
    }
}

#[test]
fn test_zero_and_one() {
    assert_eq!(number(vec![0], 1), UnsignedDCNumber::zero());
    assert_eq!(number(vec![1], 1), UnsignedDCNumber::one());
    assert!(UnsignedDCNumber::zero().is_zero());
    assert!(!UnsignedDCNumber::one().is_zero());
    assert!(!UnsignedDCNumber::zero().is_one());
    assert!(UnsignedDCNumber::one().is_one());
}

#[test]
fn parse_errors_are_reported() {
    assert_eq!(Err(ParseDCNumberError::EmptyString), UnsignedDCNumber::from_str(""));
    assert_eq!(Err(ParseDCNumberError::InvalidDigit), UnsignedDCNumber::from_str("a"));
    assert_eq!(Err(ParseDCNumberError::InvalidDigit), UnsignedDCNumber::from_str("0a"));
    assert_eq!(Err(ParseDCNumberError::RepeatedDot), UnsignedDCNumber::from_str("0..0"));
    assert_eq!(udcn("1234"), udcn("01234"));
    assert_eq!(udcn("1234"), udcn("1234.0"));
    assert_eq!(udcn("1234.32"), udcn("01234.320"));
}

#[test]
fn arithmetic_on_digits() {
    assert_eq!(udcn("1235.5"), udcn("1234.25") + udcn("1.25"));
    assert_eq!(udcn("1233"), udcn("1234.25") - udcn("1.25"));
    assert_eq!(udcn("2468.5"), udcn("1234.25") * 2u8);
    assert!(udcn("9.99") < udcn("10"));
}
