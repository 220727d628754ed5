use stream_http::{dec_buf_to_int, hex_buf_to_int, IntegerDecodeError};

#[test]
fn test_hex() {
    assert_eq!(245, hex_buf_to_int(b"F5").unwrap());
    assert_eq!(245, hex_buf_to_int(b"f5").unwrap());
    assert_eq!(9, hex_buf_to_int(b"9").unwrap());
}

#[test]
fn test_dec() {
    assert_eq!(245, dec_buf_to_int(b"245").unwrap());
    assert_eq!(9, dec_buf_to_int(b"9").unwrap());
}

#[test]
fn hex_empty_is_zero() {
    assert_eq!(Ok(0), hex_buf_to_int(b""));
    assert_eq!(Ok(0), dec_buf_to_int(b""));
}

#[test]
fn hex_longest_accepted() {
    assert_eq!(Ok(0xff_ffff_ffff_ffff), hex_buf_to_int(b"ffffffffffffff"));
    assert_eq!(Ok(0xABCDEF), hex_buf_to_int(b"aBcDeF"));
}

#[test]
fn hex_too_long() {
    assert_eq!(Err(IntegerDecodeError::TooLong(15)), hex_buf_to_int(b"000000000000001"));
}

#[test]
fn dec_longest_accepted() {
    assert_eq!(Ok(999_999_999_999_999_999), dec_buf_to_int(b"999999999999999999"));
    assert_eq!(Ok(12_345_678), dec_buf_to_int(b"12345678"));
}

#[test]
fn dec_too_long() {
    assert_eq!(Err(IntegerDecodeError::TooLong(19)), dec_buf_to_int(b"1234567890123456789"));
}

#[test]
fn invalid_char_is_the_first_one() {
    assert_eq!(Err(IntegerDecodeError::InvalidChar(b'g')), hex_buf_to_int(b"1g2z"));
    assert_eq!(Err(IntegerDecodeError::InvalidChar(b'a')), dec_buf_to_int(b"1a"));
    assert_eq!(Err(IntegerDecodeError::InvalidChar(b'-')), dec_buf_to_int(b"-5"));
}
