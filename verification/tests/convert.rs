use ujcon::amount::AmountInput;
use ujcon::convert::{
    cents_of, convert_amount, convert_jpy_to_usd, convert_usd_to_jpy, Converted, Direction,
    Rational,
};
use ujcon::decimal::Decimal;

#[test]
fn usd_to_jpy_is_multiplication() {
    let amount = Decimal { mantissa: 100, scale: 0 };
    let rate = Decimal { mantissa: 1505, scale: 1 }; // 150.5
    let r = convert_usd_to_jpy(&amount, &rate);
    assert_eq!(r, Rational { num: 100 * 1505, den: 10 });
    // 100 * 150.5 == 15050 exactly.
    assert_eq!(r.num % r.den, 0);
    assert_eq!(r.num / r.den, 15050);
}

#[test]
fn jpy_to_usd_is_division() {
    let amount = Decimal { mantissa: 10000, scale: 0 };
    let rate = Decimal { mantissa: 100, scale: 0 };
    let r = convert_jpy_to_usd(&amount, &rate);
    assert_eq!(r, Rational { num: 10000, den: 100 });
    assert_eq!(r.num / r.den, 100);
}

#[test]
fn round_trip_restores_the_amount() {
    // 100 USD at 150.5 JPY/USD is exactly 15050 JPY; dividing back gives 100.
    let rate = Decimal { mantissa: 1505, scale: 1 };
    let usd = Decimal { mantissa: 100, scale: 0 };
    let jpy = convert_usd_to_jpy(&usd, &rate);
    assert_eq!(jpy.num % jpy.den, 0);
    let jpy_whole = Decimal { mantissa: (jpy.num / jpy.den) as u64, scale: 0 };
    let back = convert_jpy_to_usd(&jpy_whole, &rate);
    // back == 100 as a rational: num/den == 100/1.
    assert_eq!(back.num, 100 * back.den);
}

#[test]
fn range_converts_element_wise() {
    let amount = AmountInput::Range(
        Decimal { mantissa: 100, scale: 0 },
        Decimal { mantissa: 200, scale: 0 },
    );
    let rate = Decimal { mantissa: 150, scale: 0 };
    match convert_amount(&amount, &rate, Direction::UsdToJpy) {
        Converted::Range(a, b) => {
            assert_eq!(a.num / a.den, 15000);
            assert_eq!(b.num / b.den, 30000);
        }
        _ => panic!("Expected a range result"),
    }
    match convert_amount(&amount, &rate, Direction::JpyToUsd) {
        Converted::Range(a, b) => {
            assert_eq!(a, Rational { num: 100, den: 150 });
            assert_eq!(b, Rational { num: 200, den: 150 });
        }
        _ => panic!("Expected a range result"),
    }
}

#[test]
fn cents_round_half_away_from_zero() {
    // 2.005 rounds up to 2.01 yen-hundredths.
    assert_eq!(cents_of(&Rational { num: 2005, den: 1000 }), 201);
    // 2.004 rounds down.
    assert_eq!(cents_of(&Rational { num: 2004, den: 1000 }), 200);
    // A whole value is exact.
    assert_eq!(cents_of(&Rational { num: 15050, den: 1 }), 1505000);
}
