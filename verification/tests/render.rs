use ujcon::cli::{select_input, usage_lines};
use ujcon::convert::{Direction, Rational};
use ujcon::decimal::Decimal;
use ujcon::render::{
    current_timestamp, format_timestamp, push_decimal, rate_line, usd_range_line, usd_single_line,
    yen_single_line, Timestamp,
};

#[test]
fn timestamp_is_padded_japanese_style() {
    let t = Timestamp { year: 2024, month: 1, day: 2, hour: 3, minute: 4, second: 5 };
    assert_eq!(format_timestamp(&t), "2024年01月02日 03:04:05");
    let t2 = Timestamp { year: 999, month: 12, day: 31, hour: 23, minute: 59, second: 59 };
    assert_eq!(format_timestamp(&t2), "0999年12月31日 23:59:59");
}

#[test]
fn clock_reading_is_well_formed() {
    let t = current_timestamp();
    assert!((1..=12).contains(&t.month));
    assert!((1..=31).contains(&t.day));
    assert!(t.hour <= 23 && t.minute <= 59 && t.second <= 59);
}

#[test]
fn rate_line_shows_two_decimals() {
    let rate = Decimal { mantissa: 1505, scale: 1 };
    assert_eq!(rate_line(&rate), "💱 現在のレート: 1 USD = 150.50 JPY");
}

#[test]
fn decimal_display_drops_trailing_zeros() {
    let mut s = String::new();
    push_decimal(&mut s, &Decimal { mantissa: 10050, scale: 2 });
    assert_eq!(s, "100.5");
    let mut s2 = String::new();
    push_decimal(&mut s2, &Decimal { mantissa: 100, scale: 0 });
    assert_eq!(s2, "100");
    let mut s3 = String::new();
    push_decimal(&mut s3, &Decimal { mantissa: 10005, scale: 2 });
    assert_eq!(s3, "100.05");
}

#[test]
fn conversion_lines_match_the_templates() {
    let usd = Decimal { mantissa: 100, scale: 0 };
    let yen_value = Rational { num: 15050, den: 1 };
    assert_eq!(
        usd_single_line(&usd, &yen_value),
        "💵 100 USD → 💴 15050.00 JPY"
    );
    let a = Decimal { mantissa: 100, scale: 0 };
    let b = Decimal { mantissa: 200, scale: 0 };
    let ya = Rational { num: 15000, den: 1 };
    let yb = Rational { num: 30000, den: 1 };
    assert_eq!(
        usd_range_line(&a, &b, &ya, &yb),
        "💵 100 - 200 USD → 💴 15000.00 - 30000.00 JPY"
    );
    let jpy = Decimal { mantissa: 10000, scale: 0 };
    let usd_value = Rational { num: 10000, den: 100 };
    assert_eq!(
        yen_single_line(&jpy, &usd_value),
        "💴 10000 JPY → 💵 100.00 USD"
    );
}

#[test]
fn direction_comes_from_the_given_option() {
    match select_input(Some(String::from("100")), None) {
        Some((dir, amount)) => {
            assert_eq!(dir, Direction::UsdToJpy);
            assert_eq!(amount, "100");
        }
        None => panic!("Expected a direction"),
    }
    match select_input(None, Some(String::from("10000"))) {
        Some((dir, amount)) => {
            assert_eq!(dir, Direction::JpyToUsd);
            assert_eq!(amount, "10000");
        }
        None => panic!("Expected a direction"),
    }
    assert!(select_input(None, None).is_none());
}

#[test]
fn usage_has_the_guidance_lines() {
    let lines = usage_lines();
    assert_eq!(lines.len(), 4);
    assert!(lines[0].contains("-d または -y"));
}
