use ujcon::amount::{parse_amount, AmountInput, ParseError, Role};
use ujcon::decimal::Decimal;

#[test]
fn test_parse_single_value() {
    match parse_amount("100") {
        Ok(AmountInput::Single(val)) => assert_eq!(val, Decimal { mantissa: 100, scale: 0 }),
        _ => panic!("Expected Single value"),
    }
}

#[test]
fn test_parse_single_value_with_decimal() {
    match parse_amount("100.50") {
        Ok(AmountInput::Single(val)) => assert_eq!(val, Decimal { mantissa: 10050, scale: 2 }),
        _ => panic!("Expected Single value"),
    }
}

#[test]
fn test_parse_range() {
    match parse_amount("100-200") {
        Ok(AmountInput::Range(start, end)) => {
            assert_eq!(start, Decimal { mantissa: 100, scale: 0 });
            assert_eq!(end, Decimal { mantissa: 200, scale: 0 });
        }
        _ => panic!("Expected Range value"),
    }
}

#[test]
fn test_parse_range_with_spaces() {
    match parse_amount("100 - 200") {
        Ok(AmountInput::Range(start, end)) => {
            assert_eq!(start, Decimal { mantissa: 100, scale: 0 });
            assert_eq!(end, Decimal { mantissa: 200, scale: 0 });
        }
        _ => panic!("Expected Range value"),
    }
}

#[test]
fn test_parse_range_decimal() {
    match parse_amount("599.5-699.99") {
        Ok(AmountInput::Range(start, end)) => {
            assert_eq!(start, Decimal { mantissa: 5995, scale: 1 });
            assert_eq!(end, Decimal { mantissa: 69999, scale: 2 });
        }
        _ => panic!("Expected Range value"),
    }
}

#[test]
fn test_parse_invalid_range_start_greater() {
    match parse_amount("200-100") {
        Err(msg) => assert!(msg.message().contains("開始値は終了値より小さい")),
        _ => panic!("Expected error for invalid range"),
    }
}

#[test]
fn test_parse_invalid_range_equal() {
    match parse_amount("100-100") {
        Err(msg) => assert!(msg.message().contains("開始値は終了値より小さい")),
        _ => panic!("Expected error for equal values"),
    }
}

#[test]
fn test_parse_invalid_input() {
    match parse_amount("abc") {
        Err(msg) => assert!(msg.message().contains("数値としてパースできません")),
        _ => panic!("Expected error for invalid input"),
    }
}

#[test]
fn test_parse_invalid_range_format() {
    match parse_amount("100-200-300") {
        Err(msg) => assert!(msg.message().contains("レンジ形式が正しくありません")),
        _ => panic!("Expected error for invalid range format"),
    }
}

#[test]
fn single_value_is_trimmed() {
    match parse_amount("  42.5  ") {
        Ok(AmountInput::Single(val)) => assert_eq!(val, Decimal { mantissa: 425, scale: 1 }),
        _ => panic!("Expected Single value"),
    }
}

#[test]
fn leading_plus_and_bare_point_forms() {
    match parse_amount("+3.25") {
        Ok(AmountInput::Single(val)) => assert_eq!(val, Decimal { mantissa: 325, scale: 2 }),
        _ => panic!("Expected Single value"),
    }
    match parse_amount("7.") {
        Ok(AmountInput::Single(val)) => assert_eq!(val, Decimal { mantissa: 7, scale: 0 }),
        _ => panic!("Expected Single value"),
    }
    match parse_amount(".5") {
        Ok(AmountInput::Single(val)) => assert_eq!(val, Decimal { mantissa: 5, scale: 1 }),
        _ => panic!("Expected Single value"),
    }
}

#[test]
fn lone_point_and_empty_are_rejected() {
    assert!(matches!(
        parse_amount("."),
        Err(ParseError::NotNumeric { role: Role::Value, .. })
    ));
    assert!(matches!(
        parse_amount(""),
        Err(ParseError::NotNumeric { role: Role::Value, .. })
    ));
    assert!(matches!(
        parse_amount("1.2.3"),
        Err(ParseError::NotNumeric { role: Role::Value, .. })
    ));
}

#[test]
fn range_error_names_the_bad_side() {
    match parse_amount("abc-200") {
        Err(e) => {
            assert!(matches!(e, ParseError::NotNumeric { role: Role::Start, .. }));
            assert_eq!(e.message(), "開始値 'abc' を数値としてパースできません");
        }
        _ => panic!("Expected error for invalid start"),
    }
    match parse_amount("100-xyz") {
        Err(e) => {
            assert!(matches!(e, ParseError::NotNumeric { role: Role::End, .. }));
            assert_eq!(e.message(), "終了値 'xyz' を数値としてパースできません");
        }
        _ => panic!("Expected error for invalid end"),
    }
}

#[test]
fn single_error_message_names_the_input() {
    match parse_amount("abc") {
        Err(e) => assert_eq!(e.message(), "値 'abc' を数値としてパースできません"),
        _ => panic!("Expected error"),
    }
}

#[test]
fn oversized_values_are_rejected() {
    assert!(matches!(
        parse_amount("12345678901234567890"),
        Err(ParseError::TooLarge { role: Role::Value, .. })
    ));
    assert!(matches!(
        parse_amount("1.1234567890123"),
        Err(ParseError::TooLarge { role: Role::Value, .. })
    ));
    // The largest mantissa that still fits.
    match parse_amount("999999999999999") {
        Ok(AmountInput::Single(val)) => {
            assert_eq!(val, Decimal { mantissa: 999999999999999, scale: 0 })
        }
        _ => panic!("Expected Single value"),
    }
}

#[test]
fn leading_zeros_are_accepted() {
    match parse_amount("007") {
        Ok(AmountInput::Single(val)) => assert_eq!(val, Decimal { mantissa: 7, scale: 0 }),
        _ => panic!("Expected Single value"),
    }
}

#[test]
fn hyphen_with_an_empty_side() {
    assert!(matches!(
        parse_amount("100-"),
        Err(ParseError::NotNumeric { role: Role::End, .. })
    ));
    assert!(matches!(
        parse_amount("-100"),
        Err(ParseError::NotNumeric { role: Role::Start, .. })
    ));
}
