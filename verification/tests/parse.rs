use apbig::buffer::Buffer;
use apbig::parse::ParseError;
use apbig::UBig;

#[test]
fn parse_decimal() {
    assert_eq!(UBig::from_str_with_radix_prefix("0").unwrap(), UBig::from_word(0));
    assert_eq!(UBig::from_str_with_radix_prefix("42").unwrap(), UBig::from_word(42));
    assert_eq!(UBig::from_str_with_radix_prefix("+42").unwrap(), UBig::from_word(42));
    assert_eq!(UBig::from_str_with_radix_prefix("007").unwrap(), UBig::from_word(7));
    assert_eq!(
        UBig::from_str_with_radix_prefix("18446744073709551615").unwrap(),
        UBig::from_word(u64::MAX)
    );
}

#[test]
fn parse_decimal_of_two_words() {
    assert_eq!(
        UBig::from_str_with_radix_prefix("18446744073709551616").unwrap(),
        UBig::from(Buffer::from_words(&[0, 1]))
    );
    assert_eq!(
        UBig::from_str_with_radix_prefix("123456789012345678901234567890").unwrap(),
        UBig::from(Buffer::from_words(&[0xc373e0ee4e3f0ad2, 0x18ee90ff6]))
    );
}

#[test]
fn parse_with_each_prefix() {
    assert_eq!(
        UBig::from_str_with_radix_prefix("0b1110000").unwrap(),
        UBig::from_word(0b1110000)
    );
    assert_eq!(UBig::from_str_with_radix_prefix("0o777").unwrap(), UBig::from_word(511));
    assert_eq!(UBig::from_str_with_radix_prefix("0x1f").unwrap(), UBig::from_word(31));
    assert_eq!(UBig::from_str_with_radix_prefix("0x1F").unwrap(), UBig::from_word(31));
    assert_eq!(UBig::from_str_with_radix_prefix("+0xff").unwrap(), UBig::from_word(255));
    assert_eq!(
        UBig::from_str_with_radix_prefix("0x1234aebc032148970911").unwrap(),
        UBig::from(Buffer::from_words(&[0xaebc032148970911, 0x1234]))
    );
}

#[test]
fn parse_without_digits() {
    for text in ["", "+", "0x", "0b", "0o", "+0x"] {
        assert_eq!(
            UBig::from_str_with_radix_prefix(text),
            Err(ParseError::NoDigits)
        );
    }
    assert_eq!(UBig::from_str_radix("", 10), Err(ParseError::NoDigits));
    assert_eq!(UBig::from_str_radix("+", 16), Err(ParseError::NoDigits));
}

#[test]
fn parse_with_an_invalid_digit() {
    for text in [
        "12a", "0b102", "0o8", "0xg", "-1", "++1", "1 ", " 1", "0X1f", "1_000", "é", "0x1é", "12３",
    ] {
        assert_eq!(
            UBig::from_str_with_radix_prefix(text),
            Err(ParseError::InvalidDigit)
        );
    }
    assert_eq!(UBig::from_str_radix("0x1f", 16), Err(ParseError::InvalidDigit));
    assert_eq!(UBig::from_str_radix("2", 2), Err(ParseError::InvalidDigit));
    assert_eq!(UBig::from_str_radix("é", 36), Err(ParseError::InvalidDigit));
}

#[test]
fn parse_in_a_given_radix() {
    assert_eq!(UBig::from_str_radix("zz", 36).unwrap(), UBig::from_word(1295));
    assert_eq!(UBig::from_str_radix("ZZ", 36).unwrap(), UBig::from_word(1295));
    assert_eq!(UBig::from_str_radix("+101", 2).unwrap(), UBig::from_word(5));
    assert_eq!(UBig::from_str_radix("0b1", 12).unwrap(), UBig::from_word(133));
    assert_eq!(UBig::from_str_radix("a", 11).unwrap(), UBig::from_word(10));
    assert_eq!(UBig::from_str_radix("a", 10), Err(ParseError::InvalidDigit));
}
