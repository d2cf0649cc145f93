use obis_tool::hex_obis::HexObis;
use obis_tool::obis::{ObisError, ObisForm};

#[test]
fn hex_obis_test_hex_obis_from_str() {
    let actual_obis = HexObis::from_str("ffffffffffff").unwrap();
    let expected_obis = HexObis { code: [255, 255, 255, 255, 255, 255] };
    assert_eq!(actual_obis, expected_obis);
}

#[test]
fn hex_obis_test_hex_obis_too_few_chars() {
    let actual_error = HexObis::from_str("a").unwrap_err();
    let expected_error = ObisError::InvalidLength { actual: 1, expected: 12, kind: ObisForm::Hex };
    assert_eq!(actual_error, expected_error);
}

#[test]
fn hex_obis_test_hex_obis_too_many_chars() {
    let actual_error = HexObis::from_str("aaaaaaaaaaaaa").unwrap_err();
    let expected_error = ObisError::InvalidLength { actual: 13, expected: 12, kind: ObisForm::Hex };
    assert_eq!(actual_error, expected_error);
}

#[test]
fn hex_obis_test_hex_obis_bad_chars() {
    let actual_error = HexObis::from_str("!!!!!!!!!!!!").unwrap_err();
    let expected_error = ObisError::InvalidDigit { kind: ObisForm::Hex };
    assert_eq!(actual_error, expected_error);
}

#[test]
fn test_hex_obis_display() {
    let obis = HexObis::from_str("0102030405ff").unwrap();
    assert_eq!(obis.display(), "01.02.03.04.05.FF");
}
