use currency_converter::api::{classify_response, ApiError, ApiErrorType, FetchEvent};
use currency_converter::config::{Config, ConfigApi};
use currency_converter::currency_converter::{
    build_request_url, dispatch_menu, menu_lines, parse_one_token_input, parse_three_token_input,
    rates_of_fetch, render_result, ConversionRequest, InputError, MenuAction,
};
use currency_converter::decimal::Decimal;
use currency_converter::parser::{encode_document, parse_json, RateMapping};

fn dec(neg: bool, mantissa: u64, scale: u32) -> Decimal {
    Decimal { neg, mantissa, scale }
}

fn mapping(entries: &[(&str, Decimal)]) -> RateMapping {
    let mut m = RateMapping::new();
    for (k, v) in entries {
        m.insert(k.to_string(), *v);
    }
    m
}

#[test]
fn test_parse_json_with_invalid_json_error() {
    let body = r#"{invalid_json}"#;
    let result = parse_json(body.to_string());

    assert!(result.is_err());
}

#[test]
fn test_parse_json_with_valid_json_success() {
    let body = r#"{
            "data": {
                "AED": 3.67306,
                "AFN": 91.80254,
                "ALL": 108.22904,
                "AMD": 480.41659
            }
        }"#;

    let result = parse_json(body.to_string());

    assert!(result.is_ok());
}

#[test]
fn connect_failure_is_transport_failure() {
    let r = classify_response(FetchEvent::ConnectFailed);
    let e = r.unwrap_err();
    assert_eq!(e.code, ApiErrorType::TransportFailure);
    assert_eq!(e.message, "Failed to perform HTTP request");
}

#[test]
fn status_422_is_invalid_currency_regardless_of_body() {
    let r = classify_response(FetchEvent::Response {
        status: 422,
        body: Some("anything at all".to_string()),
    });
    let e = r.unwrap_err();
    assert_eq!(e.code, ApiErrorType::TransportFailure);
    assert_eq!(e.message, "Invalid base or target currency");
}

#[test]
fn other_error_status_carries_body_text() {
    let r = classify_response(FetchEvent::Response {
        status: 500,
        body: Some("server on fire".to_string()),
    });
    let e = r.unwrap_err();
    assert_eq!(e.code, ApiErrorType::TransportFailure);
    assert_eq!(e.message, "server on fire");
}

#[test]
fn unreadable_body_is_transport_failure() {
    let r = classify_response(FetchEvent::Response { status: 200, body: None });
    let e = r.unwrap_err();
    assert_eq!(e.code, ApiErrorType::TransportFailure);
    assert_eq!(e.message, "Failed to read response text");
}

#[test]
fn success_returns_body() {
    let r = classify_response(FetchEvent::Response {
        status: 200,
        body: Some("{\"data\":{}}".to_string()),
    });
    assert_eq!(r.unwrap(), "{\"data\":{}}");
}

#[test]
fn encode_then_parse_round_trips() {
    let m = mapping(&[("EUR", dec(false, 92, 2)), ("GBP", dec(false, 79, 2))]);
    let doc = encode_document(&m);
    assert_eq!(doc, "{\"data\":{\"EUR\":0.92,\"GBP\":0.79}}");
    let back = parse_json(doc).unwrap().data.rate;
    assert_eq!(back.len(), 2);
    assert_eq!(back.key_at(0), "EUR");
    assert_eq!(back.rate_at(0), dec(false, 92, 2));
    assert_eq!(back.key_at(1), "GBP");
    assert_eq!(back.rate_at(1), dec(false, 79, 2));
}

#[test]
fn parse_ignores_extra_top_level_fields() {
    let body = r#"{"meta":{"note":["x",1,true]},"data":{"EUR":0.92}}"#;
    let m = parse_json(body.to_string()).unwrap().data.rate;
    assert_eq!(m.len(), 1);
    assert_eq!(m.key_at(0), "EUR");
    assert_eq!(m.rate_at(0), dec(false, 92, 2));
}

#[test]
fn parse_without_data_member_fails() {
    let r = parse_json(r#"{"meta":1}"#.to_string());
    let e = r.unwrap_err();
    assert_eq!(e.code, ApiErrorType::DecodeFailure);
    assert!(e.message.starts_with("Failed to parse JSON: "));
}

#[test]
fn parse_duplicate_keys_keeps_last_value() {
    let m = parse_json(r#"{"data":{"EUR":1.5,"EUR":2.5}}"#.to_string()).unwrap().data.rate;
    assert_eq!(m.len(), 1);
    assert_eq!(m.rate_at(0), dec(false, 25, 1));
}

#[test]
fn parse_oversized_number_fails() {
    let r = parse_json(r#"{"data":{"EUR":12345678901234567}}"#.to_string());
    assert!(r.is_err());
}

#[test]
fn conversion_output_is_rounded_to_two_decimals() {
    let cur = ConversionRequest {
        base: "USD".to_string(),
        target: "EUR".to_string(),
        amount: dec(false, 7234, 2),
    };
    let rates = mapping(&[("EUR", dec(false, 92, 2))]);
    let lines = render_result(&cur, &rates);
    assert_eq!(lines.len(), 2);
    assert_eq!(lines[0], "72.34 USD = 66.55 EUR");
    assert_eq!(lines[1], "Rate: 0.92");
}

#[test]
fn conversion_rounds_half_up() {
    let cur = ConversionRequest {
        base: "AAA".to_string(),
        target: "BBB".to_string(),
        amount: dec(false, 125, 2),
    };
    let rates = mapping(&[("BBB", dec(false, 1, 1))]);
    let lines = render_result(&cur, &rates);
    assert_eq!(lines[0], "1.25 AAA = 0.13 BBB");
    assert_eq!(lines[1], "Rate: 0.10");
}

#[test]
fn listing_mode_prints_one_line_per_entry_and_no_conversion() {
    let cur = ConversionRequest {
        base: "USD".to_string(),
        target: String::new(),
        amount: dec(false, 1, 0),
    };
    let rates = mapping(&[("EUR", dec(false, 92, 2)), ("GBP", dec(false, 79, 2))]);
    let lines = render_result(&cur, &rates);
    assert_eq!(lines, vec!["EUR: 0.92".to_string(), "GBP: 0.79".to_string()]);
}

#[test]
fn single_token_input_is_uppercased_with_empty_target() {
    let cur = parse_one_token_input("usd\n").unwrap();
    assert_eq!(cur.base, "USD");
    assert_eq!(cur.target, "");
    assert_eq!(cur.amount, dec(false, 1, 0));

    let cfg = Config::new("KEY".to_string(), "https://api.example.com/v1/".to_string());
    let url = build_request_url(&cfg, &cur);
    assert_eq!(
        url,
        "https://api.example.com/v1/latest?base_currency=USD&currencies=&apikey=KEY"
    );
}

#[test]
fn three_token_input_builds_request() {
    let cur = parse_three_token_input("usd eur 72.34\n").unwrap();
    assert_eq!(cur.base, "USD");
    assert_eq!(cur.target, "EUR");
    assert_eq!(cur.amount, dec(false, 7234, 2));

    let cfg = Config::new("k".to_string(), "https://h/".to_string());
    let url = build_request_url(&cfg, &cur);
    assert_eq!(url, "https://h/latest?base_currency=USD&currencies=EUR&apikey=k");
}

#[test]
fn wrong_token_count_is_reported_without_any_request() {
    let r = parse_three_token_input("USD EUR\n");
    assert_eq!(r.unwrap_err(), InputError::WrongTokenCount);
    assert_eq!(InputError::WrongTokenCount.message(), "Insufficient input");

    let r1 = parse_one_token_input("USD EUR\n");
    assert_eq!(r1.unwrap_err(), InputError::WrongTokenCount);
}

#[test]
fn empty_input_is_reported() {
    assert_eq!(parse_one_token_input("  \n").unwrap_err(), InputError::EmptyInput);
    assert_eq!(parse_three_token_input("\n").unwrap_err(), InputError::EmptyInput);
    assert_eq!(InputError::EmptyInput.message(), "Empty input");
}

#[test]
fn bad_amount_is_reported() {
    let r = parse_three_token_input("USD EUR abc\n");
    assert_eq!(r.unwrap_err(), InputError::InvalidAmount);
    assert_eq!(InputError::InvalidAmount.message(), "Invalid amount");
}

#[test]
fn amount_display_strips_trailing_zeros() {
    let cur = parse_three_token_input("USD EUR 1.0\n").unwrap();
    assert_eq!(cur.amount, dec(false, 1, 0));
    let cur2 = parse_three_token_input("USD EUR 72.340\n").unwrap();
    assert_eq!(cur2.amount, dec(false, 7234, 2));
    assert_eq!(cur2.amount.to_display(), "72.34");
}

#[test]
fn menu_dispatch() {
    assert_eq!(dispatch_menu("1\n"), MenuAction::ListAll);
    assert_eq!(dispatch_menu("2\n"), MenuAction::ConvertSpecific);
    assert_eq!(dispatch_menu(" 3 \n"), MenuAction::Exit);
    assert_eq!(dispatch_menu("9\n"), MenuAction::Invalid);
    assert_eq!(dispatch_menu("\n"), MenuAction::Invalid);
    assert_eq!(dispatch_menu("3 3\n"), MenuAction::Invalid);
}

#[test]
fn menu_text_matches_client() {
    let lines = menu_lines();
    assert_eq!(
        lines,
        vec![
            "\n1) All currencies rates".to_string(),
            "2) Convert currency".to_string(),
            "3) Exit\n".to_string(),
        ]
    );
}

#[test]
fn fetch_errors_pass_through_unchanged() {
    let e = ApiError {
        code: ApiErrorType::TransportFailure,
        message: "Failed to perform HTTP request".to_string(),
    };
    let r = rates_of_fetch(Err(e));
    let out = r.unwrap_err();
    assert_eq!(out.code, ApiErrorType::TransportFailure);
    assert_eq!(out.message, "Failed to perform HTTP request");
    assert_eq!(
        out.render(),
        "ApiError( code: TransportFailure, message: Failed to perform HTTP request)"
    );
}

#[test]
fn fetched_body_is_decoded() {
    let r = rates_of_fetch(Ok("{\"data\":{\"EUR\":0.92}}".to_string()));
    let m = r.unwrap();
    assert_eq!(m.len(), 1);
    assert_eq!(m.key_at(0), "EUR");
}

#[test]
fn config_hands_back_its_values() {
    let cfg = Config::new("secret".to_string(), "https://h/".to_string());
    assert_eq!(cfg.get_key(), "secret");
    assert_eq!(cfg.get_url(), "https://h/");
}
