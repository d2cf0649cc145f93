use obis_tool::args::{Commands, ObisArgs, SearchArgs};
use obis_tool::commands::run;
use obis_tool::obis::{Obis, ObisError, ObisForm};

#[test]
fn test_all_ff_display() {
    let obis = Obis::from_str("ffffffffffff").unwrap();
    assert_eq!(obis.style, ObisForm::Hex);
    assert_eq!(obis.display(), "FF.FF.FF.FF.FF.FF");
}

#[test]
fn test_uppercase_hex_round_trip() {
    let obis = Obis::from_str("ABCDEF098765").unwrap();
    assert_eq!(obis.display(), "AB.CD.EF.09.87.65");
}

#[test]
fn test_mixed_case_hex_is_canonicalized() {
    let obis = Obis::from_str("aAbBcCdDeEfF").unwrap();
    assert_eq!(obis.display(), "AA.BB.CC.DD.EE.FF");
}

#[test]
fn test_dec_display_round_trip() {
    let original = Obis { code: [0, 42, 100, 7, 199, 255], style: ObisForm::Decimal };
    let rendered = original.display();
    assert_eq!(rendered, "0-42:100.7.199.255");
    let reparsed = Obis::from_str(&rendered).unwrap();
    assert_eq!(reparsed, original);
}

#[test]
fn test_convert_to_hex_is_idempotent() {
    let mut once = Obis::from_str("1-128:7.0.14*255").unwrap();
    once.convert_to_hex();
    let mut twice = once;
    twice.convert_to_hex();
    assert_eq!(twice, once);
}

#[test]
fn test_convert_to_dec_is_idempotent() {
    let mut once = Obis::from_str("0102030405FF").unwrap();
    once.convert_to_dec();
    let mut twice = once;
    twice.convert_to_dec();
    assert_eq!(twice, once);
}

#[test]
fn test_hex_dec_hex_keeps_groups() {
    let original = Obis::from_str("1-128:7.0.14*255").unwrap();
    let mut obis = original;
    obis.convert_to_hex();
    obis.convert_to_dec();
    obis.convert_to_hex();
    assert_eq!(obis.code, original.code);
    assert_eq!(obis.style, ObisForm::Hex);
}

#[test]
fn test_dec_token_255_is_accepted() {
    let obis = Obis::from_str("1.1.1.1.1.255").unwrap();
    assert_eq!(obis.code, [1, 1, 1, 1, 1, 255]);
}

#[test]
fn test_dec_token_256_is_rejected() {
    let err = Obis::from_str("1.1.1.1.1.256").unwrap_err();
    assert_eq!(err, ObisError::InvalidDigit { kind: ObisForm::Decimal });
}

#[test]
fn test_dec_five_tokens_is_rejected() {
    let err = Obis::from_str("1.2.3.4.5").unwrap_err();
    let expected = ObisError::InvalidLength { actual: 5, expected: 6, kind: ObisForm::Decimal };
    assert_eq!(err, expected);
}

#[test]
fn test_dec_seven_tokens_is_rejected() {
    let err = Obis::from_str("1.2.3.4.5.6.7").unwrap_err();
    let expected = ObisError::InvalidLength { actual: 7, expected: 6, kind: ObisForm::Decimal };
    assert_eq!(err, expected);
}

#[test]
fn test_dec_empty_token_is_rejected() {
    let err = Obis::from_str("1..2.3.4.5").unwrap_err();
    assert_eq!(err, ObisError::InvalidDigit { kind: ObisForm::Decimal });
}

#[test]
fn test_dec_non_numeric_token_is_rejected() {
    let err = Obis::from_str("a.b.c.d.e.f").unwrap_err();
    assert_eq!(err, ObisError::InvalidDigit { kind: ObisForm::Decimal });
}

#[test]
fn test_dec_leading_zeros_are_accepted() {
    let obis = Obis::from_str("01.002.3.4.5.006").unwrap();
    assert_eq!(obis.code, [1, 2, 3, 4, 5, 6]);
}

#[test]
fn test_surrounding_whitespace_is_trimmed() {
    let obis = Obis::from_str(" 1.2.3.4.5.6 ").unwrap();
    assert_eq!(obis.code, [1, 2, 3, 4, 5, 6]);
    assert_eq!(obis.style, ObisForm::Decimal);
}

#[test]
fn test_run_hex_command() {
    let code = Obis::from_str("1-128:7.0.14*255").unwrap();
    let line = run(Commands::Hex(ObisArgs { code })).unwrap();
    assert_eq!(line, "01.80.07.00.0E.FF");
}

#[test]
fn test_run_dec_command() {
    let code = Obis::from_str("0102030405FF").unwrap();
    let line = run(Commands::Dec(ObisArgs { code })).unwrap();
    assert_eq!(line, "1-2:3.4.5.255");
}

#[test]
fn test_run_search_command_is_unimplemented() {
    let code = Obis::from_str("0102030405FF").unwrap();
    let args = SearchArgs { code, path: String::from("codes.xml") };
    assert!(run(Commands::Search(args)).is_none());
}
