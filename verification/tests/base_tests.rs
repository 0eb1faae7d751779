use base_converter::Base;
use base_converter::ParseError;

#[test]
fn test_to_num() {
    // Ok cases
    assert_eq!(Base::Hex.to_num("0xff").ok(), Some(255));
    assert_eq!(Base::Hex.to_num("ff").ok(), Some(255));
    assert_eq!(Base::Hex.to_num("0XFF").ok(), Some(255));
    assert_eq!(Base::Hex.to_num("0").ok(), Some(0));
    assert_eq!(Base::Hex.to_num("0x00").ok(), Some(0));
    assert_eq!(Base::Hex.to_num("0xffffffffffffffff").ok(), Some(u64::MAX));
    assert_eq!(Base::Bin.to_num("0b101010001101").ok(), Some(2701));
    assert_eq!(Base::Bin.to_num("0B101010001101").ok(), Some(2701));
    assert_eq!(Base::Bin.to_num("0b1010_1000_1101").ok(), Some(2701));
    assert_eq!(Base::Bin.to_num("1010_1000_1101").ok(), Some(2701));
    assert_eq!(Base::Dec.to_num("101").ok(), Some(101));

    // Error cases
    assert!(Base::Hex.to_num("0xgk").is_err());
    assert!(Base::Hex.to_num("-0xgk").is_err());
    assert!(Base::Bin.to_num("0b12").is_err());
    assert!(Base::Bin.to_num("012").is_err());
    assert!(Base::Dec.to_num("-012").is_err());
    assert!(Base::Dec.to_num("0d012").is_err());
}

#[test]
fn test_bin_format() {
    assert_eq!(Base::Bin.from(15), String::from("1111"));
    assert_eq!(Base::Bin.from(16), String::from("0001_0000"));
    assert_eq!(Base::Bin.from(0), String::from("0"));
    assert_eq!(Base::Bin.from(1), String::from("1"));
    assert_eq!(Base::Bin.from(2), String::from("10"));
}

#[test]
fn test_round_trip() {
    let values: Vec<u64> = vec![0, 1, 2, 4, 15, 16, 255, 2701, 65535, 65536, u64::MAX];
    let bases = [Base::Hex, Base::Dec, Base::Bin];
    for &b in bases.iter() {
        for &v in values.iter() {
            assert_eq!(b.to_num(&b.from(v)).ok(), Some(v));
        }
    }
}

#[test]
fn test_hex_case_and_prefix() {
    assert_eq!(Base::Hex.to_num("0xFF").ok(), Some(255));
    assert_eq!(Base::Hex.to_num("ff").ok(), Some(255));
    assert_eq!(Base::Hex.to_num("0XFF").ok(), Some(255));
}

#[test]
fn test_bin_underscores_and_prefix() {
    assert_eq!(Base::Bin.to_num("0b1010_1000_1101").ok(), Some(2701));
    assert_eq!(Base::Bin.to_num("1010_1000_1101").ok(), Some(2701));
    assert_eq!(Base::Bin.to_num("0B1010_1000_1101").ok(), Some(2701));
}

#[test]
fn test_dec_rejects_signs_and_prefixes() {
    assert!(Base::Dec.to_num("-012").is_err());
    assert!(Base::Dec.to_num("0d012").is_err());
    assert!(Base::Dec.to_num("+12").is_err());
    assert_eq!(Base::Dec.to_num("012").ok(), Some(12));
}

#[test]
fn test_overflow() {
    assert_eq!(Base::Hex.to_num("0xffffffffffffffff").ok(), Some(u64::MAX));
    assert_eq!(
        Base::Hex.to_num("0x10000000000000000"),
        Err(ParseError::Overflow)
    );
    assert_eq!(
        Base::Dec.to_num("18446744073709551615").ok(),
        Some(u64::MAX)
    );
    assert_eq!(
        Base::Dec.to_num("18446744073709551616"),
        Err(ParseError::Overflow)
    );
}

#[test]
fn test_error_variants() {
    assert_eq!(Base::Hex.to_num(""), Err(ParseError::EmptyDigits));
    assert_eq!(Base::Hex.to_num("0x"), Err(ParseError::EmptyDigits));
    assert_eq!(Base::Hex.to_num("0xgk"), Err(ParseError::InvalidDigit));
    assert_eq!(Base::Bin.to_num("0b12"), Err(ParseError::InvalidDigit));
    assert_eq!(Base::Dec.to_num("-1"), Err(ParseError::InvalidDigit));
}

#[test]
fn test_u_suffix() {
    assert_eq!(Base::Hex.to_num("0xffu").ok(), Some(255));
    assert_eq!(Base::Dec.to_num("101u").ok(), Some(101));
    assert_eq!(Base::Bin.to_num("0b10u").ok(), Some(2));
}

#[test]
fn test_format() {
    assert_eq!(Base::Hex.from(255), String::from("0xff"));
    assert_eq!(Base::Hex.from(0), String::from("0x0"));
    assert_eq!(Base::Hex.from(u64::MAX), String::from("0xffffffffffffffff"));
    assert_eq!(Base::Dec.from(255), String::from("255"));
    assert_eq!(Base::Dec.from(0), String::from("0"));
    assert_eq!(Base::Bin.from(4), String::from("100"));
    assert_eq!(Base::Bin.from(2701), String::from("1010_1000_1101"));
}

#[test]
fn test_label() {
    assert_eq!(Base::Hex.label(), "hex");
    assert_eq!(Base::Dec.label(), "dec");
    assert_eq!(Base::Bin.label(), "bin");
}
