use wirecodec::coerce::decode_string_or_bool;
use wirecodec::decimal::Decimal;
use wirecodec::error::DecodeError;
use wirecodec::request::SubscriptionRequest;
use wirecodec::response::SubscriptionResponse;
use wirecodec::trade::Trade;

#[test]
fn test_subscription_request_new() {
    let request = SubscriptionRequest::new(123);

    assert_eq!(request.method, "SUBSCRIBE");
    assert_eq!(request.id, 123);
    assert!(request.params.is_empty());
}

#[test]
fn test_subscription_request_add_stream() {
    let mut request = SubscriptionRequest::new(456);

    request.add_stream("btcusdt@ticker");
    request.add_stream("ethusdt@depth");

    assert_eq!(request.params.len(), 2);
    assert_eq!(request.params[0], "btcusdt@ticker");
    assert_eq!(request.params[1], "ethusdt@depth");
}

#[test]
fn test_subscription_request_serialization() {
    let mut request = SubscriptionRequest::new(789);
    request.add_stream("btcusdt@ticker");
    request.add_stream("ethusdt@kline_1m");

    let json = request.to_json().unwrap();
    let expected = r#"{"method":"SUBSCRIBE","params":["btcusdt@ticker","ethusdt@kline_1m"],"id":789}"#;

    assert_eq!(json, expected);
}

#[test]
fn test_subscription_request_deserialization() {
    let json = r#"{"method":"SUBSCRIBE","params":["btcusdt@ticker"],"id":100}"#;
    let request = SubscriptionRequest::from_json(json).unwrap();

    assert_eq!(request.method, "SUBSCRIBE");
    assert_eq!(request.params, vec!["btcusdt@ticker"]);
    assert_eq!(request.id, 100);
}

#[test]
fn test_subscription_response_serialization() {
    let response = SubscriptionResponse {
        result: Some(vec!["btcusdt@ticker".to_string(), "ethusdt@depth".to_string()]),
        id: 200,
    };

    let json = response.to_json().unwrap();
    let expected = r#"{"result":["btcusdt@ticker","ethusdt@depth"],"id":200}"#;

    assert_eq!(json, expected);
}

#[test]
fn test_subscription_response_deserialization() {
    let json = r#"{"result":["btcusdt@ticker","ethusdt@depth"],"id":300}"#;
    let response = SubscriptionResponse::from_json(json).unwrap();

    assert_eq!(
        response.result,
        Some(vec!["btcusdt@ticker".to_string(), "ethusdt@depth".to_string()])
    );
    assert_eq!(response.id, 300);
}

#[test]
fn test_subscription_response_with_null_method() {
    let response = SubscriptionResponse { result: None, id: 400 };

    let json = response.to_json().unwrap();
    let expected = r#"{"result":null,"id":400}"#;

    assert_eq!(json, expected);
}

#[test]
fn test_subscription_response_deserialization_with_null_result() {
    let json = r#"{"result":null,"id":500}"#;
    let response = SubscriptionResponse::from_json(json).unwrap();

    assert_eq!(response.result, None);
    assert_eq!(response.id, 500);
}

#[test]
fn test_serde_aliases() {
    // the recognized alias spelling of every key equals the canonical one
    let json = r#"{"method":"SUBSCRIBE","params":["test@stream"],"id":600}"#;
    let request = SubscriptionRequest::from_json(json).unwrap();
    assert_eq!(request.method, "SUBSCRIBE");

    let json = r#"{"result":["test@stream"],"id":700}"#;
    let response = SubscriptionResponse::from_json(json).unwrap();
    assert_eq!(response.id, 700);
}

#[test]
fn test_trade_serialization() {
    let expected = Trade {
        event_type: "trade".to_string(),
        event_time: 1759680390108723,
        symbol: "ETHUSDT".to_string(),
        trade_id: 2921785139,
        price: Decimal::from_text("4532.56").unwrap(),
        quantity: Decimal::from_text("0.0132").unwrap(),
        trade_time: 1759680390108254,
        is_buyer_market_maker: true,
        ignore: true,
    };
    let json = r#"{"e":"trade","E":1759680390108723,"s":"ETHUSDT","t":2921785139,"p":"4532.56000000","q":"0.01320000","T":1759680390108254,"m":true,"M":true}"#;
    let trade = Trade::from_json(json).unwrap();
    assert_eq!(expected, trade);
}

// ---- round trip ------------------------------------------------------------

#[test]
fn round_trip_request() {
    let mut request = SubscriptionRequest::new(42);
    request.add_stream("btcusdt@ticker");
    request.add_stream("ethusdt@kline_1m");
    let json = request.to_json().unwrap();
    let back = SubscriptionRequest::from_json(&json).unwrap();
    assert_eq!(request, back);
}

#[test]
fn round_trip_request_empty_params() {
    let request = SubscriptionRequest::new(0);
    let json = request.to_json().unwrap();
    assert_eq!(json, r#"{"method":"SUBSCRIBE","params":[],"id":0}"#);
    let back = SubscriptionRequest::from_json(&json).unwrap();
    assert_eq!(request, back);
}

#[test]
fn round_trip_request_escaped_streams() {
    let mut request = SubscriptionRequest::new(7);
    request.add_stream("with\"quote");
    request.add_stream("back\\slash");
    request.add_stream("tab\tand\nnewline");
    request.add_stream("ctl\u{1}char");
    let json = request.to_json().unwrap();
    let back = SubscriptionRequest::from_json(&json).unwrap();
    assert_eq!(request, back);
}

#[test]
fn decode_unicode_escape() {
    let json = "{\"method\":\"\\u0041BC\",\"params\":[],\"id\":1}";
    let request = SubscriptionRequest::from_json(json).unwrap();
    assert_eq!(request.method, "ABC");
}

// ---- tolerances ------------------------------------------------------------

#[test]
fn decode_with_whitespace() {
    let json = " { \"method\" : \"SUBSCRIBE\" , \"params\" : [ \"a\" , \"b\" ] , \"id\" : 9 } ";
    let request = SubscriptionRequest::from_json(json).unwrap();
    assert_eq!(request.params, vec!["a", "b"]);
    assert_eq!(request.id, 9);
}

#[test]
fn decode_any_key_order() {
    let json = r#"{"id":11,"params":["x@y"],"method":"SUBSCRIBE"}"#;
    let request = SubscriptionRequest::from_json(json).unwrap();
    assert_eq!(request.method, "SUBSCRIBE");
    assert_eq!(request.params, vec!["x@y"]);
    assert_eq!(request.id, 11);
}

#[test]
fn decode_id_at_u64_max() {
    let json = r#"{"method":"SUBSCRIBE","params":[],"id":18446744073709551615}"#;
    let request = SubscriptionRequest::from_json(json).unwrap();
    assert_eq!(request.id, u64::MAX);
}

// ---- null vs empty ---------------------------------------------------------

#[test]
fn null_and_empty_result_differ() {
    let absent = SubscriptionResponse::from_json(r#"{"result":null,"id":500}"#).unwrap();
    let empty = SubscriptionResponse::from_json(r#"{"result":[],"id":500}"#).unwrap();
    assert_eq!(absent.result, None);
    assert_eq!(empty.result, Some(Vec::new()));
    assert_ne!(absent, empty);
}

#[test]
fn missing_result_is_absent() {
    let response = SubscriptionResponse::from_json(r#"{"id":12}"#).unwrap();
    assert_eq!(response.result, None);
    assert_eq!(response.id, 12);
}

// ---- numeric coercion ------------------------------------------------------

#[test]
fn trailing_zeros_do_not_change_value() {
    let long = Decimal::from_text("4532.56000000").unwrap();
    let short = Decimal::from_text("4532.56").unwrap();
    assert_eq!(long, short);
    let value: f64 = long.text().parse().unwrap();
    assert_eq!(value, 4532.56);
}

#[test]
fn trade_literal_scenario() {
    let json = r#"{"e":"trade","E":1759680390108723,"s":"ETHUSDT","t":2921785139,"p":"4532.56000000","q":"0.01320000","T":1759680390108254,"m":true,"M":true}"#;
    let trade = Trade::from_json(json).unwrap();
    let price: f64 = trade.price.text().parse().unwrap();
    let quantity: f64 = trade.quantity.text().parse().unwrap();
    assert_eq!(price, 4532.56);
    assert_eq!(quantity, 0.0132);
    assert!(trade.is_buyer_market_maker);
    assert!(trade.ignore);
    assert_eq!(trade.event_type, "trade");
    assert_eq!(trade.symbol, "ETHUSDT");
    assert_eq!(trade.trade_id, 2921785139);
}

#[test]
fn decimal_normalization() {
    assert_eq!(Decimal::from_text("007").unwrap(), Decimal::from_text("7").unwrap());
    assert_eq!(Decimal::from_text("-0").unwrap(), Decimal::from_text("0").unwrap());
    assert_eq!(Decimal::from_text("0.500").unwrap(), Decimal::from_text(".5").unwrap());
    assert_eq!(Decimal::from_text("3.").unwrap(), Decimal::from_text("3").unwrap());
    assert_eq!(Decimal::from_text("-1.25").unwrap().text(), "-1.25");
    assert!(Decimal::from_text("1e5").is_err());
    assert!(Decimal::from_text("").is_err());
    assert!(Decimal::from_text(".").is_err());
    assert!(Decimal::from_text("1.2.3").is_err());
}

// ---- failures --------------------------------------------------------------

#[test]
fn trade_number_format_failure() {
    let json = r#"{"e":"trade","E":1,"s":"ETHUSDT","t":2,"p":"not-a-number","q":"0.01","T":3,"m":true,"M":true}"#;
    let err = Trade::from_json(json).unwrap_err();
    assert_eq!(err, DecodeError::NumberFormat);
}

#[test]
fn request_error_variants() {
    assert_eq!(
        SubscriptionRequest::from_json(r#"{"method":"SUBSCRIBE","params":[]}"#).unwrap_err(),
        DecodeError::MissingField
    );
    assert_eq!(
        SubscriptionRequest::from_json(r#"{"method":5,"params":[],"id":1}"#).unwrap_err(),
        DecodeError::TypeMismatch
    );
    assert_eq!(
        SubscriptionRequest::from_json(r#"{"method":"a","params":[],"id":1,"id":2}"#).unwrap_err(),
        DecodeError::DuplicateField
    );
    assert_eq!(
        SubscriptionRequest::from_json(r#"{"method":"a","params":[],"id":1,"extra":0}"#)
            .unwrap_err(),
        DecodeError::UnknownField
    );
    assert_eq!(SubscriptionRequest::from_json("{").unwrap_err(), DecodeError::Syntax);
    assert_eq!(SubscriptionRequest::from_json("").unwrap_err(), DecodeError::Syntax);
    assert_eq!(
        SubscriptionRequest::from_json(r#"{"method":"a","params":[],"id":-1}"#).unwrap_err(),
        DecodeError::TypeMismatch
    );
    assert_eq!(
        SubscriptionRequest::from_json(r#"{"method":"a","params":[],"id":18446744073709551616}"#)
            .unwrap_err(),
        DecodeError::TypeMismatch
    );
    assert_eq!(
        SubscriptionRequest::from_json(r#"{"method":"a","params":["x",5],"id":1}"#).unwrap_err(),
        DecodeError::TypeMismatch
    );
}

#[test]
fn response_error_variants() {
    assert_eq!(
        SubscriptionResponse::from_json(r#"{"result":[]}"#).unwrap_err(),
        DecodeError::MissingField
    );
    assert_eq!(
        SubscriptionResponse::from_json(r#"{"result":7,"id":1}"#).unwrap_err(),
        DecodeError::TypeMismatch
    );
    assert_eq!(
        SubscriptionResponse::from_json(r#"{"result":null,"id":1}junk"#).unwrap_err(),
        DecodeError::Syntax
    );
}

// ---- the string-or-bool coercion -------------------------------------------

#[test]
fn string_or_bool_accepts_strings_and_booleans() {
    assert_eq!(decode_string_or_bool(r#""hello""#).unwrap(), "hello");
    assert_eq!(decode_string_or_bool("true").unwrap(), "true");
    assert_eq!(decode_string_or_bool("false").unwrap(), "false");
}

#[test]
fn string_or_bool_rejects_other_types() {
    assert_eq!(decode_string_or_bool("null").unwrap_err(), DecodeError::StringOrBool);
    assert_eq!(decode_string_or_bool("123").unwrap_err(), DecodeError::StringOrBool);
    assert_eq!(decode_string_or_bool("[]").unwrap_err(), DecodeError::StringOrBool);
    assert_eq!(decode_string_or_bool("{}").unwrap_err(), DecodeError::StringOrBool);
    assert_eq!(decode_string_or_bool("").unwrap_err(), DecodeError::Syntax);
}

#[test]
fn trade_any_key_order() {
    let json = r#"{"M":false,"m":false,"T":3,"q":"1","p":"2.5","t":4,"s":"BTCUSDT","E":5,"e":"trade"}"#;
    let trade = Trade::from_json(json).unwrap();
    assert_eq!(trade.symbol, "BTCUSDT");
    assert_eq!(trade.trade_id, 4);
    assert_eq!(trade.price, Decimal::from_text("2.5").unwrap());
    assert!(!trade.ignore);
}

#[test]
fn trade_missing_member_fails() {
    let json = r#"{"e":"trade","E":1,"s":"X","t":2,"p":"1","q":"2","T":3,"m":true}"#;
    assert_eq!(Trade::from_json(json).unwrap_err(), DecodeError::MissingField);
}
