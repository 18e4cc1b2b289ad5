use ujcon::decimal::Decimal;
use ujcon::rate::{
    endpoint_urls, fetch_error_message, parse_rate_body, rate_from_override, status_is_success,
    summarize_failures, FetchError,
};

#[test]
fn override_returns_exactly_the_mock_rate() {
    assert_eq!(
        rate_from_override(Some("150.5")),
        Some(Decimal { mantissa: 1505, scale: 1 })
    );
    assert_eq!(
        rate_from_override(Some("110")),
        Some(Decimal { mantissa: 110, scale: 0 })
    );
}

#[test]
fn override_rejects_what_is_not_a_number() {
    assert_eq!(rate_from_override(Some("abc")), None);
    assert_eq!(rate_from_override(Some("")), None);
    assert_eq!(rate_from_override(None), None);
    // The override is not trimmed, as the raw environment value was not.
    assert_eq!(rate_from_override(Some(" 150.5")), None);
}

#[test]
fn body_in_conversion_rates_shape() {
    let body = "{\"result\":\"success\",\"conversion_rates\":{\"AED\":3.6,\"JPY\":149.53,\"EUR\":0.9}}";
    assert_eq!(
        parse_rate_body(body),
        Ok(Decimal { mantissa: 14953, scale: 2 })
    );
}

#[test]
fn body_in_rates_shape() {
    let body = "{\"rates\": {\"JPY\": 110.0}}";
    assert_eq!(parse_rate_body(body), Ok(Decimal { mantissa: 1100, scale: 1 }));
}

#[test]
fn body_without_known_shape_fails_to_decode() {
    assert_eq!(parse_rate_body("{}"), Err(FetchError::Decode));
    assert_eq!(
        parse_rate_body("{\"conversion_rates\":{\"EUR\":0.9}}"),
        Err(FetchError::Decode)
    );
    assert_eq!(
        parse_rate_body("{\"rates\":{\"JPY\":\"oops\"}}"),
        Err(FetchError::Decode)
    );
}

#[test]
fn success_statuses_are_the_2xx_class() {
    assert!(status_is_success(200));
    assert!(status_is_success(299));
    assert!(!status_is_success(300));
    assert!(!status_is_success(404));
    assert!(!status_is_success(199));
}

#[test]
fn endpoints_come_in_fallback_order() {
    let urls = endpoint_urls();
    assert_eq!(urls.len(), 2);
    assert_eq!(urls[0], "https://api.exchangerate-api.com/v4/latest/USD");
    assert_eq!(urls[1], "https://open.er-api.com/v6/latest/USD");
}

#[test]
fn failures_summarize_to_the_last_error() {
    assert_eq!(summarize_failures(&vec![]), FetchError::AllFailed);
    assert_eq!(
        summarize_failures(&vec![FetchError::Network, FetchError::HttpStatus(500)]),
        FetchError::HttpStatus(500)
    );
}

#[test]
fn fetch_errors_have_messages() {
    assert_eq!(
        fetch_error_message(&FetchError::HttpStatus(404)),
        "HTTPエラー: 404"
    );
    assert_eq!(
        fetch_error_message(&FetchError::AllFailed),
        "すべてのAPIエンドポイントが失敗しました"
    );
}

#[test]
fn body_with_blank_space_around_the_rate() {
    let body = "{\"rates\":\n  {\"JPY\" :\t149, \"EUR\": 0.9}}";
    assert_eq!(parse_rate_body(body), Ok(Decimal { mantissa: 149, scale: 0 }));
}
