use exercises::parse::parse_money;
use exercises::parse::parse_sym_money;
use exercises::parse::ParseMoneyError;

#[test]
fn given_valid_gbp_string_when_parse_money_then_returns_pound_currency_symbol() {
    let (c, _v) = parse_money("£34.3", 2).unwrap();
    assert_eq!(c, '£');
}

#[test]
fn given_valid_usd_string_when_parse_money_then_returns_dollar_currency_symbol() {
    let (c, _v) = parse_money("$15.50", 2).unwrap();
    assert_eq!(c, '$');
}

#[test]
fn given_valid_euro_string_when_parse_money_then_returns_euro_currency_symbol() {
    let (c, _v) = parse_money("€50", 2).unwrap();
    assert_eq!(c, '€');
}

#[test]
fn given_empty_string_when_parse_money_then_returns_no_string_error() {
    let err = parse_money("", 2).unwrap_err();
    assert_eq!(err, ParseMoneyError::NoStringErr);
}

#[test]
fn given_full_string_when_parse_money_then_returns_expected_currency_value() {
    let (_c, v) = parse_money("£12.34", 2).unwrap();
    assert_eq!(v, 1234);
}

#[test]
fn given_valid_string_when_parse_money_then_returns_expected_currency_value() {
    let (_c, v) = parse_money("£34.3", 2).unwrap();
    assert_eq!(v, 3430);
}

#[test]
fn given_valid_string_when_parse_money_with_3_decimal_places_then_returns_expected_currency_value() {
    let (_c, v) = parse_money("£34.3", 3).unwrap();
    assert_eq!(v, 34300);
}

#[test]
fn given_too_many_decimal_places_when_parse_money_then_returns_err() {
    assert!(parse_money("£34.304", 2).is_err());
}

#[test]
fn given_invalid_format_when_parse_money_then_returns_err() {
    assert!(parse_money("£34..04", 2).is_err());
}

#[test]
fn given_only_pence_when_parse_money_then_returns_expected_result() {
    assert_eq!(parse_money("£.34", 2), Ok(('£', 34)));
}

#[test]
fn given_negative_value_when_parse_money_then_returns_expected_currency_symbol() {
    let (c, _v) = parse_money("-£123.45", 2).unwrap();
    assert_eq!(c, '£');
}

#[test]
fn given_negative_value_when_parse_money_then_returns_expected_result() {
    let (_c, v) = parse_money("-£123.45", 2).unwrap();
    assert_eq!(v, -12345);
}

#[test]
fn given_invalid_character_at_end_of_string_when_parse_money_then_returns_err_containing_invalid_character()
 {
    let err = parse_money("-£123.45p", 2).unwrap_err();
    assert_eq!(err, ParseMoneyError::NonDigitErr('p'));
}

#[test]
fn given_invalid_character_at_start_of_string_when_parse_money_then_returns_err_containing_first_invalid_character()
 {
    let err = parse_money("£GB", 2).unwrap_err();
    assert_eq!(err, ParseMoneyError::NonDigitErr('G'));
}

#[test]
fn given_invalid_character_in_middle_of_number_when_parse_money_then_returns_err_containing_first_invalid_character()
 {
    let err = parse_money("£15point3", 2).unwrap_err();
    assert_eq!(err, ParseMoneyError::NonDigitErr('p'));
}

#[test]
fn parse_sym_money_accepts_matching_symbol() {
    assert_eq!(parse_sym_money("£34.3", '£', 2), Ok(3430));
    assert_eq!(parse_sym_money("-£34", '£', 2), Ok(-3400));
}

#[test]
fn parse_sym_money_rejects_wrong_symbol() {
    assert_eq!(parse_sym_money("£34", '$', 2), Err(ParseMoneyError::SymbolErr));
    assert_eq!(parse_sym_money("-£34", '$', 2), Err(ParseMoneyError::SymbolErr));
}

#[test]
fn two_points_give_two_points_error() {
    assert_eq!(parse_money("£1..2", 2), Err(ParseMoneyError::TwoPointsErr));
}

#[test]
fn too_many_places_give_too_far_error() {
    assert_eq!(parse_money("£34.304", 2), Err(ParseMoneyError::TooFarErr));
}

#[test]
fn bare_symbol_parses_as_zero() {
    assert_eq!(parse_money("£", 2), Ok(('£', 0)));
}

#[test]
fn whole_number_is_scaled_to_decimal_places() {
    assert_eq!(parse_money("€50", 2), Ok(('€', 5000)));
    assert_eq!(parse_money("€50", 0), Ok(('€', 50)));
}
