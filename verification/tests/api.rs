use chortke::api::error::Error;
use chortke::api::orders::PlaceOrderRequest;
use chortke::api::utils::{remote_ip, x_forwarded_for};
use chortke::config::{ApiConfig, AppConfig, LogConfig, LogFormat, LogLevel};
use chortke::order;
use chortke::order::{Order, Side, Status};
use http::{HeaderMap, HeaderValue, Request};

fn forwarded(headers: &HeaderMap) -> Option<&str> {
    headers.get("x-forwarded-for").and_then(|v| v.to_str().ok())
}

#[test]
fn maps_order_errors() {
    let e1: Error = order::book::Error::OrderClientIdNotFound("abc".into()).into();
    match e1 {
        Error::NotFound(code, msg) => {
            assert_eq!(code, "ORDER_NOT_FOUND");
            assert!(msg.contains("abc"));
        }
        _ => panic!("expected NotFound"),
    }

    let e2: Error = order::book::Error::OrderClientIdExists("xyz".into()).into();
    match e2 {
        Error::BadRequest(code, msg) => {
            assert_eq!(code, "ORDER_ALREADY_EXISTS");
            assert!(msg.contains("xyz"));
        }
        _ => panic!("expected BadRequest"),
    }
}

#[test]
fn into_response_basic_shapes() {
    // NotFound
    let res = Error::NotFound("NOT".into(), "missing".into()).response(true);
    assert_eq!(res.status, http::StatusCode::NOT_FOUND.as_u16());
    assert_eq!(res.code, "NOT");
    assert_eq!(res.message.as_deref(), Some("missing"));

    // BadRequest
    let res = Error::BadRequest("BAD".into(), "oops".into()).response(false);
    assert_eq!(res.status, http::StatusCode::BAD_REQUEST.as_u16());
    assert_eq!(res.code, "BAD");
    assert_eq!(res.message.as_deref(), Some("oops"));

    // Internal (message content may vary with log level)
    let err = std::io::Error::new(std::io::ErrorKind::Other, "boom");
    let res = Error::Internal(err.to_string()).response(false);
    assert_eq!(
        res.status,
        http::StatusCode::INTERNAL_SERVER_ERROR.as_u16()
    );
    assert_eq!(res.code, "INTERNAL_ERROR");
    assert!(res.message.is_some());
}

#[test]
fn into_response_validation() {
    let res = Error::Validation.response(false);
    assert_eq!(res.status, http::StatusCode::BAD_REQUEST.as_u16());
    assert_eq!(res.code, "VALIDATION_ERROR");
    assert!(res.message.is_none());
}

#[test]
fn internal_text_is_shown_only_when_debugging() {
    let res = Error::Internal("boom".into()).response(true);
    assert_eq!(res.message.as_deref(), Some("boom"));
    let res = Error::Internal("boom".into()).response(false);
    assert_eq!(
        res.message.as_deref(),
        Some("an internal error happened during processing your request")
    );
}

#[test]
fn order_errors_say_the_id() {
    let cases: Vec<(order::book::Error, &str, &str)> = vec![
        (
            order::book::Error::OrderIdNotFound(0),
            "ORDER_NOT_FOUND",
            "order with id 0 not found",
        ),
        (
            order::book::Error::OrderIdExists(18446744073709551615),
            "ORDER_ALREADY_EXISTS",
            "order with id 18446744073709551615 already exists",
        ),
        (
            order::book::Error::OrderClientIdNotFound("c 1".into()),
            "ORDER_NOT_FOUND",
            "order with client id c 1 not found",
        ),
        (
            order::book::Error::OrderClientIdExists("c2".into()),
            "ORDER_ALREADY_EXISTS",
            "order with client id c2 already exists",
        ),
    ];
    for (e, code, message) in cases {
        let body = Error::from(e).response(false);
        assert_eq!(body.code, code);
        assert_eq!(body.message.as_deref(), Some(message));
    }
}

#[test]
fn other_book_errors_are_internal() {
    for (e, text) in [
        (
            order::book::Error::AnotherSnapshotAlreadyTaken,
            "another snapshot is already in progress",
        ),
        (
            order::book::Error::NoSnapshotTaken,
            "no snapshot is currently in progress",
        ),
        (
            order::book::Error::NotReady,
            "matcher/book is not ready to process operations yet",
        ),
    ] {
        assert_eq!(e.message(), text);
        match Error::from(e) {
            Error::Internal(message) => assert_eq!(message, text),
            other => panic!("expected Internal, got: {other:?}"),
        }
    }
}

#[test]
fn book_errors_have_texts() {
    assert_eq!(
        order::book::Error::OrderIdNotFound(1234567890).message(),
        "could not find order with id #1234567890"
    );
    assert_eq!(
        order::book::Error::OrderIdExists(10).message(),
        "another order with the same id #10 already exists"
    );
    assert_eq!(
        order::book::Error::OrderClientIdNotFound("x".into()).message(),
        "could not find order with client id #x"
    );
    assert_eq!(
        order::book::Error::OrderClientIdExists("y".into()).message(),
        "another order with the same client id #y already exists"
    );
}

#[test]
fn parses_x_forwarded_for_first_ip() {
    let mut headers = HeaderMap::new();
    headers.insert(
        "x-forwarded-for",
        HeaderValue::from_static("1.2.3.4, 5.6.7.8"),
    );
    let ip = x_forwarded_for(forwarded(&headers));
    assert_eq!(ip.as_deref(), Some("1.2.3.4"));
}

#[test]
fn x_forwarded_for_empty_value_is_none() {
    let mut headers = HeaderMap::new();
    headers.insert("x-forwarded-for", HeaderValue::from_static("   "));
    assert!(x_forwarded_for(forwarded(&headers)).is_none());

    let headers = HeaderMap::new();
    assert!(x_forwarded_for(forwarded(&headers)).is_none());
}

#[test]
fn remote_ip_prefers_header_over_connect_info() {
    let req = Request::builder()
        .header("x-forwarded-for", "9.9.9.9, 8.8.8.8")
        .body(())
        .unwrap();
    let ip = remote_ip(forwarded(req.headers()), Some("10.0.0.1".to_string()));
    assert_eq!(ip, "9.9.9.9");
}

#[test]
fn remote_ip_from_connect_info_when_no_header() {
    let req = Request::builder().body(()).unwrap();
    let ip = remote_ip(forwarded(req.headers()), Some("10.0.0.2".to_string()));
    assert_eq!(ip, "10.0.0.2");
}

#[test]
fn remote_ip_unknown_when_no_info() {
    let req = Request::builder().body(()).unwrap();
    let ip = remote_ip(forwarded(req.headers()), None);
    assert_eq!(ip, "unknown");
}

#[test]
fn forwarded_ip_is_cut_at_the_first_comma_and_trimmed() {
    for (header, expected) in [
        ("1.2.3.4", Some("1.2.3.4")),
        ("\t 1.2.3.4 \u{a0}", Some("1.2.3.4")),
        (" 2001:db8::1 ,5.6.7.8", Some("2001:db8::1")),
        ("a b,c", Some("a b")),
        (",5.6.7.8", None),
        (" \t,5.6.7.8", None),
        ("", None),
    ] {
        let ip = x_forwarded_for(Some(header));
        assert_eq!(ip.as_deref(), expected, "header {header:?}");
    }
}

#[test]
fn blank_header_falls_back_to_the_socket() {
    assert_eq!(remote_ip(Some(" , "), Some("10.0.0.3".into())), "10.0.0.3");
    assert_eq!(remote_ip(Some(" , "), None), "unknown");
}

#[test]
fn request_becomes_a_new_order() {
    let order = Order::from(PlaceOrderRequest {
        client_id: "c1".into(),
        side: Side::Ask,
        price: 7,
        volume: 9,
    });
    assert_eq!(order.id, 0);
    assert_eq!(order.user_id, "");
    assert_eq!(order.client_id, "c1");
    assert_eq!(order.side, Side::Ask);
    assert_eq!(order.price, 7);
    assert_eq!(order.executed_price, None);
    assert_eq!(order.volume, 9);
    assert_eq!(order.executed_volume, 0);
    assert_eq!(order.status, Status::Open);
    assert_eq!(order.closed_by, None);
}

#[test]
fn defaults_of_the_configuration() {
    let api = ApiConfig::default();
    assert_eq!(api.host, "127.0.0.1");
    assert_eq!(api.port, 8080);
    let logger = LogConfig::default();
    assert_eq!(logger.level, LogLevel::TRACE);
    assert_eq!(logger.format, LogFormat::COMPACT);
    let app = AppConfig::default();
    let copy = app.clone();
    assert_eq!(copy.api.host, api.host);
    assert_eq!(copy.api.port, api.port);
    assert_eq!(copy.logger, logger);
}
