use obis_tool::obis::{Obis, ObisError, ObisForm};

#[test]
fn obis_test_hex_obis_from_str() {
    let actual_obis = Obis::from_str("ffffffffffff").unwrap();
    let expected_obis = Obis { code: [255, 255, 255, 255, 255, 255], style: ObisForm::Hex };
    assert_eq!(actual_obis, expected_obis);
}

#[test]
fn obis_test_hex_obis_too_few_chars() {
    let actual_error = Obis::from_str("a").unwrap_err();
    let expected_error = ObisError::InvalidLength { actual: 1, expected: 12, kind: ObisForm::Hex };
    assert_eq!(actual_error, expected_error);
}

#[test]
fn obis_test_hex_obis_too_many_chars() {
    let actual_error = Obis::from_str("aaaaaaaaaaaaa").unwrap_err();
    let expected_error = ObisError::InvalidLength { actual: 13, expected: 12, kind: ObisForm::Hex };
    assert_eq!(actual_error, expected_error);
}

#[test]
fn obis_test_hex_obis_bad_chars() {
    let actual_error = Obis::from_str("!!!!!!!!!!!!").unwrap_err();
    let expected_error = ObisError::InvalidDigit { kind: ObisForm::Hex };
    assert_eq!(actual_error, expected_error);
}

#[test]
fn test_hex_obis_display_format() {
    let obis = Obis::from_str("0102030405FF").unwrap();
    let obis_display = obis.display();
    assert_eq!(obis_display, "01.02.03.04.05.FF");
}

#[test]
fn test_dec_obis_from_str() {
    let actual_obis = Obis::from_str("1-128:7.0.14*255").unwrap();
    let expected_obis = Obis { code: [1, 128, 7, 0, 14, 255], style: ObisForm::Decimal };
    assert_eq!(actual_obis, expected_obis);
}

#[test]
fn test_convert_obis() {
    let mut obis = Obis::from_str("1-128:7.0.14*255").unwrap();
    assert_eq!(obis.style, ObisForm::Decimal);
    obis.convert_to_hex();
    assert_eq!(obis.style, ObisForm::Hex);
    obis.convert_to_dec();
    assert_eq!(obis.style, ObisForm::Decimal);
}
