use std::str::FromStr;

use rdc::dcnumber::digits_type::DigitsType;
use rdc::dcnumber::error::ParseDCNumberError;
use rdc::dcnumber::small_ints;
use rdc::dcnumber::traits::FromBytes;
use rdc::dcnumber::unsigned::UnsignedDCNumber;

fn parsed(text: &str) -> UnsignedDCNumber {
    UnsignedDCNumber::from_str(text).expect(text)
}

fn digits_at(digits: Vec<u8>, separator: usize) -> UnsignedDCNumber {
    UnsignedDCNumber::new(DigitsType::from(digits), separator)
}

fn check_add(expected: &str, lhs: &str, rhs: &str) {
    let expected = parsed(expected);
    let l = parsed(lhs);
    let r = parsed(rhs);
    assert_eq!(expected, l.dup() + r.dup());
    assert_eq!(expected, l.dup() + parsed(rhs));
    assert_eq!(expected, parsed(lhs) + r.dup());
    assert_eq!(expected, l + r);
}

fn check_sub(expected: &str, lhs: &str, rhs: &str) {
    let expected = parsed(expected);
    let l = parsed(lhs);
    let r = parsed(rhs);
    assert_eq!(expected, l.dup() - r.dup());
    assert_eq!(expected, l.dup() - parsed(rhs));
    assert_eq!(expected, parsed(lhs) - r.dup());
    assert_eq!(expected, l - r);
}

fn check_add_interned(expected: &str, lhs: u8, rhs: u8) {
    let expected = parsed(expected);
    let l = small_ints::interned(lhs);
    let r = small_ints::interned(rhs);
    assert_eq!(expected, l.dup() + r.dup(), "dup dup");
    assert_eq!(expected, l + r, "- -");
}

fn check_display(digits: &str) {
    assert_eq!(digits.to_string(), parsed(digits).to_string());
}

fn check_same_parse(expected: &str, digits: &str) {
    assert_eq!(parsed(expected), parsed(digits));
    assert_eq!(
        UnsignedDCNumber::from_str_radix(digits, 10).expect(digits),
        UnsignedDCNumber::from_bytes_radix(digits.as_bytes(), 10).expect(digits)
    );
    assert_eq!(
        UnsignedDCNumber::from_str(digits).expect(digits),
        UnsignedDCNumber::from_bytes(digits.as_bytes()).expect(digits)
    );
    assert_eq!(
        UnsignedDCNumber::from_str(digits).expect(digits),
        UnsignedDCNumber::from_bytes_radix(digits.as_bytes(), 10).expect(digits)
    );
}

fn check_parses_to(expected: UnsignedDCNumber, digits: &str) {
    assert_eq!(expected, parsed(digits));
    assert_eq!(expected, UnsignedDCNumber::from_bytes(digits.as_bytes()).expect(digits));
    assert_eq!(expected, UnsignedDCNumber::from_bytes_radix(digits.as_bytes(), 10).expect(digits));
    assert_eq!(expected, UnsignedDCNumber::from_str_radix(digits, 10).expect(digits));
}

fn check_parse_error(expected: ParseDCNumberError, digits: &str) {
    assert_eq!(Err(expected), UnsignedDCNumber::from_str(digits));
    assert_eq!(Err(expected), UnsignedDCNumber::from_bytes(digits.as_bytes()));
    assert_eq!(Err(expected), UnsignedDCNumber::from_str_radix(digits, 10));
    assert_eq!(Err(expected), UnsignedDCNumber::from_bytes_radix(digits.as_bytes(), 10));
}

fn check_byte_radix(digit: u8, radix: u32) {
    let text = [digit];
    assert_eq!(
        UnsignedDCNumber::from_bytes_radix(&text, radix),
        UnsignedDCNumber::from_byte_radix(digit, radix)
    );
    if radix == 10 {
        assert_eq!(UnsignedDCNumber::from_bytes_radix(&text, 10), UnsignedDCNumber::from_byte(digit));
    }
}

fn check_radix(decimal: &str, digits: &str, radix: u32) {
    assert_eq!(
        UnsignedDCNumber::from_bytes(decimal.as_bytes()).expect(decimal),
        UnsignedDCNumber::from_bytes_radix(digits.as_bytes(), radix).expect(digits)
    );
}

#[test] fn add_zero() { check_add("0", "0", "0"); }
#[test] fn add_unit() { check_add("1", "1", "0"); }
#[test] fn add_two() { check_add("2", "2", "0"); }
#[test] fn add_unit2() { check_add("1", "1", "0"); }
#[test] fn add_units() { check_add("2", "1", "1"); }
#[test] fn add_to_three() { check_add("10", "3", "7"); }
#[test] fn add_seven() { check_add("7", "0", "7"); }
#[test] fn integers() { check_add("1026", "520", "506"); }
#[test] fn add_frac() { check_add("20.2", "10.1", "10.1"); }
#[test] fn add_f() { check_add("10143.043", "7221.123", "2921.92"); }
#[test] fn add_f1() { check_add("20143.043", "17221.123", "2921.92"); }
#[test] fn add_f2() { check_add("20143.043", "7221.123", "12921.92"); }
#[test] fn add_f3b() { check_add("110", "101", "9"); }
#[test] fn add_f3c() { check_add("112", "103", "9"); }
#[test] fn add_f3() { check_add("110143.043", "107221.123", "2921.92"); }
#[test] fn add_f4() { check_add("110143.043", "7221.123", "102921.92"); }
#[test] fn add_le() { check_add("10.1", "9.9", "0.2"); }
#[test] fn add_le2() { check_add("10.12", "9.9", "0.22"); }
#[test] fn add_le3() { check_add("10.12", "9.92", "0.2"); }
#[test] fn add_le4() { check_add("10.12", "0.92", "9.2"); }
#[test] fn add_le5() { check_add("1000.12", "990.92", "9.2"); }
#[test] fn add_le6() { check_add("1000.12", "999.92", "0.2"); }
#[test] fn add_le7() { check_add("1000.12", "9.2", "990.92"); }
#[test] fn add_le8() { check_add("1000.12", "0.2", "999.92"); }
#[test] fn add_zero_u8() { assert_eq!(parsed("0"), parsed("0") + 0u8); }
#[test] fn add_unit_u8() { assert_eq!(parsed("1"), parsed("0") + 1u8); }

#[test] fn badd_zero() { check_add_interned("0", 0, 0); }
#[test] fn badd_unit() { check_add_interned("1", 1, 0); }
#[test] fn badd_unit2() { check_add_interned("1", 0, 1); }
#[test] fn bborroweds() { check_add_interned("254", 127, 127); }

#[test] fn sub_zero() { check_sub("0", "0", "0"); }
#[test] fn simple_9_3() { check_sub("6", "9", "3"); }
#[test] fn simple_4_4() { check_sub("0", "4", "4"); }
#[test] fn int_carry_10_7() { check_sub("3", "10", "7"); }
#[test] fn int_carry_100_3() { check_sub("97", "100", "3"); }
#[test] fn int_carry_100_30() { check_sub("70", "100", "30"); }
#[test] fn int_carry_200_30() { check_sub("170", "200", "30"); }
#[test] fn frac_simple_9_3_0() { check_sub("6.3", "9.3", "3.0"); }
#[test] fn frac_simple_9_3() { check_sub("6.3", "9.3", "3"); }
#[test] fn frac_carry_10_dot7() { check_sub("9.3", "10", "0.7"); }
#[test] fn frac_carry_100_dot3() { check_sub("99.7", "100", "0.3"); }
#[test] fn frac_carry_100_dot30() { check_sub("99.7", "100", "0.30"); }
#[test] fn frac_carry_103dot23_1dot1() { check_sub("102.13", "103.23", "1.1"); }

#[test] fn mul_t1() { assert_eq!(parsed("10"), parsed("1") * 10u8); }
#[test] fn mul_t0() { assert_eq!(parsed("0"), parsed("0") * 10u8); }
#[test] fn mul_t10() { assert_eq!(parsed("100"), parsed("10") * 10u8); }
#[test] fn mul_t10dot1() { assert_eq!(parsed("101"), parsed("10.1") * 10u8); }
#[test] fn mul_t0dot1() { assert_eq!(parsed("1"), parsed("0.1") * 10u8); }
#[test] fn mul_t1_2() { assert_eq!(parsed("10"), parsed("1") * 10u8); }
#[test] fn mul_t0_2() { assert_eq!(parsed("0"), parsed("0") * 2u8); }
#[test] fn mul_t10_2() { assert_eq!(parsed("20"), parsed("10") * 2u8); }
#[test] fn mul_t10dot1_2() { assert_eq!(parsed("20.2"), parsed("10.1") * 2u8); }
#[test] fn mul_t0dot1_2() { assert_eq!(parsed("0.2"), parsed("0.1") * 2u8); }
#[test] fn mul_t19_99() { assert_eq!(parsed("1881"), parsed("19") * 99u8); }
#[test] fn mul_t109_99() { assert_eq!(parsed("10791"), parsed("109") * 99u8); }
#[test] fn mul_t109dot0_99() { assert_eq!(parsed("10791"), parsed("109.0") * 99u8); }
#[test] fn mul_t10dot9_99() { assert_eq!(parsed("1079.1"), parsed("10.9") * 99u8); }

#[test] fn display_zero() { check_display("0"); }
#[test] fn display_one() { check_display("1"); }
#[test] fn display_one_dot_one() { check_display("1.1"); }
#[test] fn display_1dot1() { check_display("1.1"); }
#[test] fn display_10dot1() { check_display("10.1"); }
#[test] fn display_0dot9() { check_display("0.9"); }
#[test] fn display_0dot01() { check_display("0.01"); }
#[test] fn display_1740() { check_display("1740"); }
#[test] fn display_1000dot3() { check_display("1000.3"); }

#[test] fn from_tail0() { check_same_parse("1234.32", "1234.320"); }
#[test] fn from_taildot0() { check_same_parse("1234", "1234.0"); }
#[test] fn from_ident() { check_same_parse("1234", "1234."); }
#[test] fn from_leading0_f() { check_same_parse("01234.32", "1234.32"); }
#[test] fn from_leading_tailing_0f() { check_same_parse("01234.32", "1234.320"); }
#[test] fn eq_zero() { check_same_parse("0", "0"); }
#[test] fn eq_one() { check_same_parse("1", "1"); }
#[test] fn eq_one_dot_one() { check_same_parse("1.1", "1.1"); }
#[test] fn eq_0dot9() { check_same_parse("0.9", "0.9"); }
#[test] fn eq_0dot01() { check_same_parse("0.01", "0.01"); }
#[test] fn eq_1740() { check_same_parse("1740", "1740"); }
#[test] fn eq_1000dot3() { check_same_parse("1000.3", "1000.3"); }
#[test] fn eq_10() { check_same_parse("10", "10"); }

#[test] fn from_str_zero() { check_parses_to(digits_at(vec![0], 1), "0"); }
#[test] fn from_str_one() { check_parses_to(digits_at(vec![1], 1), "1"); }
#[test] fn from_str_10() { check_parses_to(digits_at(vec![1, 0], 2), "10"); }
#[test] fn from_str_byte_spec() { check_parses_to(digits_at(vec![1, 1], 1), "1.1"); }
#[test] fn from_str_0dot9() { check_parses_to(digits_at(vec![0, 9], 1), "0.9"); }
#[test] fn from_str_1000dot3() { check_parses_to(digits_at(vec![1, 0, 0, 0, 3], 4), "1000.3"); }
#[test] fn from_str_0dot01() { check_parses_to(digits_at(vec![0, 0, 1], 1), "0.01"); }
#[test] fn from_str_from_int() { check_parses_to(UnsignedDCNumber::from(1234u16), "1234"); }
#[test] fn from_str_from_int_leading0() { check_parses_to(UnsignedDCNumber::from(1234u16), "01234"); }
#[test] fn from_str_empty() { check_parse_error(ParseDCNumberError::EmptyString, ""); }
#[test] fn from_str_a() { check_parse_error(ParseDCNumberError::InvalidDigit, "a"); }
#[test] fn from_str_1a() { check_parse_error(ParseDCNumberError::InvalidDigit, "1a]"); }
#[test] fn from_str_0a() { check_parse_error(ParseDCNumberError::InvalidDigit, "0a"); }
#[test] fn from_str_dota() { check_parse_error(ParseDCNumberError::InvalidDigit, ".a"); }
#[test] fn from_str_0dotdot0() { check_parse_error(ParseDCNumberError::RepeatedDot, "0..0"); }

#[test] fn from_byte_radix_1_8() { check_byte_radix(b'1', 8); }
#[test] fn from_byte_radix_2_8() { check_byte_radix(b'2', 8); }
#[test] fn from_byte_radix_3_8() { check_byte_radix(b'3', 8); }
#[test] fn from_byte_radix_4_8() { check_byte_radix(b'4', 8); }
#[test] fn from_byte_radix_5_8() { check_byte_radix(b'5', 8); }
#[test] fn from_byte_radix_6_8() { check_byte_radix(b'6', 8); }
#[test] fn from_byte_radix_7_8() { check_byte_radix(b'7', 8); }
#[test] fn from_byte_radix_8_8() { check_byte_radix(b'8', 8); }
#[test] fn from_byte_radix_9_8() { check_byte_radix(b'9', 8); }
#[test] fn from_byte_radix_8_10() { check_byte_radix(b'8', 10); }
#[test] fn from_byte_radix_9_10() { check_byte_radix(b'9', 10); }
#[test] fn from_byte_radix_a_8() { check_byte_radix(b'A', 8); }
#[test] fn from_byte_radix_a_10() { check_byte_radix(b'A', 10); }
#[test] fn from_byte_radix_a_16() { check_byte_radix(b'A', 16); }

#[test] fn first_hex() { check_radix("10", "A", 16); }
#[test] fn b2_10() { check_radix("2", "10", 2); }
#[test] fn b3_10() { check_radix("3", "10", 3); }
#[test] fn b4_10() { check_radix("4", "10", 4); }
#[test] fn b5_10() { check_radix("5", "10", 5); }
#[test] fn b6_10() { check_radix("6", "10", 6); }
#[test] fn b7_10() { check_radix("7", "10", 7); }
#[test] fn b8_10() { check_radix("8", "10", 8); }
#[test] fn b9_10() { check_radix("9", "10", 9); }
#[test] fn b8_0() { check_radix("0", "0", 8); }
#[test] fn b8_1() { check_radix("1", "1", 8); }
#[test] fn b8_2() { check_radix("2", "2", 8); }
#[test] fn b10_0() { check_radix("0", "0", 10); }
#[test] fn b10_1() { check_radix("1", "1", 10); }
#[test] fn b10_2() { check_radix("2", "2", 10); }
#[test] fn b16_0() { check_radix("0", "0", 16); }
#[test] fn b16_1() { check_radix("1", "1", 16); }
#[test] fn b16_2() { check_radix("2", "2", 16); }
#[test] fn b16_a() { check_radix("10", "A", 16); }

#[test] fn test_0_u8() { assert_eq!(parsed("0"), UnsignedDCNumber::from(0u8)); }
#[test] fn test_1_u8() { assert_eq!(parsed("1"), UnsignedDCNumber::from(1u8)); }
#[test] fn test_2_u8() { assert_eq!(parsed("2"), UnsignedDCNumber::from(2u8)); }
#[test] fn test_10_u8() { assert_eq!(parsed("10"), UnsignedDCNumber::from(10u8)); }
#[test] fn test_12u8() { assert_eq!(parsed("12"), UnsignedDCNumber::from(12u8)); }
#[test] fn test_123u8() { assert_eq!(parsed("123"), UnsignedDCNumber::from(123u8)); }
#[test] fn test_223u8() { assert_eq!(parsed("223"), UnsignedDCNumber::from(223u8)); }
#[test] fn test_255u8() { assert_eq!(parsed("255"), UnsignedDCNumber::from(255u8)); }
#[test] fn test_0_u16() { assert_eq!(parsed("0"), UnsignedDCNumber::from(0u16)); }
#[test] fn test_1_u16() { assert_eq!(parsed("1"), UnsignedDCNumber::from(1u16)); }
#[test] fn test_2_u16() { assert_eq!(parsed("2"), UnsignedDCNumber::from(2u16)); }
#[test] fn test_10_u16() { assert_eq!(parsed("10"), UnsignedDCNumber::from(10u16)); }
#[test] fn test_12u16() { assert_eq!(parsed("12"), UnsignedDCNumber::from(12u16)); }
#[test] fn test_123u16() { assert_eq!(parsed("123"), UnsignedDCNumber::from(123u16)); }
#[test] fn test_223u16() { assert_eq!(parsed("223"), UnsignedDCNumber::from(223u16)); }
#[test] fn test_255u16() { assert_eq!(parsed("255"), UnsignedDCNumber::from(255u16)); }
#[test] fn test_256u32() { assert_eq!(parsed("256"), UnsignedDCNumber::from(256u32)); }
#[test] fn test_10256u32() { assert_eq!(parsed("10256"), UnsignedDCNumber::from(10256u32)); }
#[test] fn test_0_u32() { assert_eq!(parsed("0"), UnsignedDCNumber::from(0u32)); }
#[test] fn test_1_u32() { assert_eq!(parsed("1"), UnsignedDCNumber::from(1u32)); }
#[test] fn test_2_u32() { assert_eq!(parsed("2"), UnsignedDCNumber::from(2u32)); }
#[test] fn test_10_u32() { assert_eq!(parsed("10"), UnsignedDCNumber::from(10u32)); }
#[test] fn test_12u32() { assert_eq!(parsed("12"), UnsignedDCNumber::from(12u32)); }
#[test] fn test_123u32() { assert_eq!(parsed("123"), UnsignedDCNumber::from(123u32)); }
#[test] fn test_223u32() { assert_eq!(parsed("223"), UnsignedDCNumber::from(223u32)); }
#[test] fn test_255u32() { assert_eq!(parsed("255"), UnsignedDCNumber::from(255u32)); }
#[test] fn test_0_u64() { assert_eq!(parsed("0"), UnsignedDCNumber::from(0u64)); }
#[test] fn test_1_u64() { assert_eq!(parsed("1"), UnsignedDCNumber::from(1u64)); }
#[test] fn test_2_u64() { assert_eq!(parsed("2"), UnsignedDCNumber::from(2u64)); }
#[test] fn test_10_u64() { assert_eq!(parsed("10"), UnsignedDCNumber::from(10u64)); }
#[test] fn test_12u64() { assert_eq!(parsed("12"), UnsignedDCNumber::from(12u64)); }
#[test] fn test_123u64() { assert_eq!(parsed("123"), UnsignedDCNumber::from(123u64)); }
#[test] fn test_223u64() { assert_eq!(parsed("223"), UnsignedDCNumber::from(223u64)); }
#[test] fn test_255u64() { assert_eq!(parsed("255"), UnsignedDCNumber::from(255u64)); }

#[test]
fn new_brings_digits_to_normal_form() {
    assert_eq!(parsed("1.2"), digits_at(vec![0, 1, 2, 0], 2));
    assert_eq!(parsed("0.32"), digits_at(vec![3, 2], 0));
    assert_eq!(parsed("0"), digits_at(vec![], 0));
    assert_eq!(parsed("0"), digits_at(vec![0, 0], 1));
    assert_eq!(parsed("7"), UnsignedDCNumber::with_integer_digits(DigitsType::from(vec![0u8, 0, 7])));
    assert_eq!((&[1u8][..], &[2u8][..]), digits_at(vec![0, 1, 2, 0], 2).split());
}
