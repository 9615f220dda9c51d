//! Tests for the two-character base-36 key codec.
use bms_rs::bms::Alphanumeric;

#[test]
fn test_from_str() {
    let a = Alphanumeric::from_str("X5");
    assert_eq!(a.key, 1193);
}

#[test]
fn test_from_int() {
    let a = Alphanumeric::from_int(1193);
    assert_eq!(a.key, 1193);
}

#[test]
fn test_from_str_invalid_str() {
    let a = Alphanumeric::from_str("!@#");
    assert_eq!(a.key, 0);
}

#[test]
fn test_as_base36() {
    let a = Alphanumeric::from_int(1193);
    assert_eq!(a.as_base36(), "X5");
}

#[test]
fn test_round_trip_uppercases() {
    // encode(decode(t)) == uppercase(t) for valid two-character tokens.
    assert_eq!(Alphanumeric::from_str("x5").as_base36(), "X5");
    assert_eq!(Alphanumeric::from_str("00").as_base36(), "00");
    assert_eq!(Alphanumeric::from_str("zz").as_base36(), "ZZ");
    assert_eq!(Alphanumeric::from_str("ZZ").as_base36(), "ZZ");
    assert_eq!(Alphanumeric::from_str("a9").as_base36(), "A9");
}

#[test]
fn test_decode_invalid_tokens_yield_zero() {
    // Any invalid, short or empty token decodes to the placeholder key.
    assert_eq!(Alphanumeric::from_str("").key, 0);
    assert_eq!(Alphanumeric::from_str("A").key, 0);
    assert_eq!(Alphanumeric::from_str("AAA").key, 0);
    assert_eq!(Alphanumeric::from_str("!!").key, 0);
    assert_eq!(Alphanumeric::from_str("A ").key, 0);
    assert_eq!(Alphanumeric::from_str(" 1").key, 0);
}

#[test]
fn test_decode_boundaries() {
    assert_eq!(Alphanumeric::from_str("00").key, 0);
    assert_eq!(Alphanumeric::from_str("01").key, 1);
    assert_eq!(Alphanumeric::from_str("10").key, 36);
    assert_eq!(Alphanumeric::from_str("ZZ").key, 1295);
}

#[test]
fn test_encode_zero_pads() {
    assert_eq!(Alphanumeric::from_int(0).as_base36(), "00");
    assert_eq!(Alphanumeric::from_int(1).as_base36(), "01");
    assert_eq!(Alphanumeric::from_int(36).as_base36(), "10");
    assert_eq!(Alphanumeric::from_int(1295).as_base36(), "ZZ");
}
