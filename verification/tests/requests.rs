use bybit::client::{MAINNET_URL, RECV_WINDOW, TESTNET_URL};
use bybit::{generate_signature, Method, Params, Request, RequestError, RustClient, SignedRequest};

fn params(pairs: &[(&str, &str)]) -> Params {
    let mut p = Params::new();
    for (k, v) in pairs {
        p.insert(k.to_string(), v.to_string());
    }
    p
}

fn header<'a>(request: &'a SignedRequest, name: &str) -> &'a str {
    let found: Vec<&(String, String)> = request.headers.iter().filter(|h| h.0 == name).collect();
    assert_eq!(found.len(), 1);
    found[0].1.as_str()
}

fn request(method: Method, path: &str, pairs: &[(&str, &str)]) -> Request {
    Request { method, path: path.to_string(), params: params(pairs) }
}

#[test]
fn get_request_carries_parameters_in_query_string() {
    let client = RustClient::new("k", "s", false);
    let signed = client.get("v5/market/tickers", params(&[("x", "1")])).unwrap();
    assert_eq!(signed.method, Method::GET);
    assert_eq!(signed.url, "https://api.bybit.com/v5/market/tickers?x=1");
    let query = signed.url.split('?').nth(1).unwrap();
    assert!(query.contains("x=1"));
    assert_eq!(signed.body, None);
}

#[test]
fn post_request_carries_parameters_as_json_body() {
    let client = RustClient::new("k", "s", false);
    let signed = client.post("v5/order/create", params(&[("side", "Buy")])).unwrap();
    assert_eq!(signed.method, Method::POST);
    assert_eq!(signed.url, "https://api.bybit.com/v5/order/create");
    assert_eq!(signed.body, Some("{\"side\":\"Buy\"}".to_string()));
    let parsed: serde_json::Value = serde_json::from_str(signed.body.as_ref().unwrap()).unwrap();
    let mut expected = serde_json::Map::new();
    expected.insert("side".to_string(), serde_json::Value::String("Buy".to_string()));
    assert_eq!(parsed, serde_json::Value::Object(expected));
}

#[test]
fn test_net_flag_selects_base_url() {
    assert_eq!(MAINNET_URL, "https://api.bybit.com");
    assert_eq!(TESTNET_URL, "https://api-testnet.bybit.com");
    let production = RustClient::new("k", "s", false);
    let test = RustClient::new("k", "s", true);
    assert_eq!(production.base_url(), MAINNET_URL);
    assert_eq!(test.base_url(), TESTNET_URL);
    assert!(!production.is_test_net());
    assert!(test.is_test_net());
    assert_eq!(production.key(), "k");
}

#[test]
fn test_net_flag_changes_nothing_but_the_base_url() {
    let production = RustClient::new("k", "s", false);
    let test = RustClient::new("k", "s", true);
    for method in [Method::GET, Method::POST] {
        let descriptor = request(method, "v5/order/create", &[("side", "Buy"), ("qty", "1")]);
        let a = production.sign(&descriptor, "1000");
        let b = test.sign(&descriptor, "1000");
        assert_eq!(a.method, b.method);
        assert_eq!(a.body, b.body);
        assert_eq!(a.headers, b.headers);
        assert_eq!(a.timestamp, b.timestamp);
        assert_eq!(a.url.strip_prefix(MAINNET_URL), b.url.strip_prefix(TESTNET_URL));
        assert!(a.url.strip_prefix(MAINNET_URL).is_some());
        assert_ne!(a.url, b.url);
    }
}

#[test]
fn sign_attaches_the_six_headers_in_order() {
    let client = RustClient::new("k", "s", false);
    let signed = client.sign(&request(Method::GET, "p", &[("a", "1"), ("b", "2")]), "1000");
    let expected: Vec<(String, String)> = [
        ("X-BAPI-SIGN-TYPE", "2"),
        ("X-BAPI-SIGN", "84f72294f56952ba479c35d7a8be0089af31495159ff1766c95e2d5dbd569a18"),
        ("X-BAPI-API-KEY", "k"),
        ("X-BAPI-TIMESTAMP", "1000"),
        ("X-BAPI-RECV-WINDOW", "50000"),
        ("Content-Type", "application/json"),
    ]
    .iter()
    .map(|(n, v)| (n.to_string(), v.to_string()))
    .collect();
    assert_eq!(signed.headers, expected);
    assert_eq!(signed.timestamp, "1000");
    assert_eq!(RECV_WINDOW, "50000");
}

#[test]
fn set_common_headers_signs_with_the_given_timestamp() {
    let client = RustClient::new("key", "secret", true);
    let p = params(&[("symbol", "BTCUSDT"), ("category", "linear")]);
    let headers = client.set_common_headers(&p, "1700000000000");
    assert_eq!(headers.len(), 6);
    assert_eq!(headers[1].0, "X-BAPI-SIGN");
    assert_eq!(
        headers[1].1,
        "10e754e16263a001e11ee66fa3df8e82b935666a98db7fd7fab751cca0cceb4b"
    );
    assert_eq!(headers[3], ("X-BAPI-TIMESTAMP".to_string(), "1700000000000".to_string()));
}

#[test]
fn secret_key_is_not_part_of_the_request() {
    let client = RustClient::new("public-key", "very-secret-value", false);
    let signed = client.sign(&request(Method::POST, "p", &[("a", "1")]), "1000");
    assert!(!signed.url.contains("very-secret-value"));
    assert!(!signed.body.as_ref().unwrap().contains("very-secret-value"));
    assert!(signed.headers.iter().all(|h| !h.1.contains("very-secret-value")));
}

#[test]
fn get_with_clock_signs_the_timestamp_it_sends() {
    let client = RustClient::new("k", "s", true);
    let p = params(&[("category", "spot")]);
    let signed = client.get("v5/market/tickers", params(&[("category", "spot")])).unwrap();
    assert_eq!(signed.url, "https://api-testnet.bybit.com/v5/market/tickers?category=spot");
    let timestamp = header(&signed, "X-BAPI-TIMESTAMP").to_string();
    assert_eq!(timestamp, signed.timestamp);
    assert!(!timestamp.is_empty());
    assert!(timestamp.chars().all(|c| c.is_ascii_digit()));
    assert!(timestamp.parse::<u128>().unwrap() > 1_600_000_000_000);
    assert_eq!(
        header(&signed, "X-BAPI-SIGN"),
        generate_signature("s", "k", "50000", &p, &timestamp)
    );
    assert_eq!(header(&signed, "X-BAPI-API-KEY"), "k");
    assert_eq!(header(&signed, "X-BAPI-SIGN-TYPE"), "2");
    assert_eq!(header(&signed, "X-BAPI-RECV-WINDOW"), "50000");
    assert_eq!(header(&signed, "Content-Type"), "application/json");
}

#[test]
fn do_request_dispatches_on_method() {
    let client = RustClient::new("k", "s", false);
    let read = client.do_request(Method::GET, "a/b", params(&[("x", "1")])).unwrap();
    assert_eq!(read.method, Method::GET);
    assert_eq!(read.url, "https://api.bybit.com/a/b?x=1");
    assert_eq!(read.body, None);
    let write = client.do_request(Method::POST, "a/b", params(&[("x", "1")])).unwrap();
    assert_eq!(write.method, Method::POST);
    assert_eq!(write.url, "https://api.bybit.com/a/b");
    assert_eq!(write.body, Some("{\"x\":\"1\"}".to_string()));
    let again = client.sign(&request(Method::POST, "a/b", &[("x", "1")]), &write.timestamp);
    assert_eq!(again.headers, write.headers);
    assert_eq!(again.url, write.url);
    assert_eq!(again.body, write.body);
}

#[test]
fn get_without_parameters_has_empty_query() {
    let client = RustClient::new("k", "s", false);
    let signed = client.sign(&request(Method::GET, "v5/market/time", &[]), "1000");
    assert_eq!(signed.url, "https://api.bybit.com/v5/market/time?");
    assert_eq!(
        header(&signed, "X-BAPI-SIGN"),
        "8a7651afd65d5bedb66cec76636aac8f6b5fe05f51c0be76b47c058229b55071"
    );
}

#[test]
fn post_without_parameters_has_empty_object() {
    let client = RustClient::new("k", "s", false);
    let signed = client.sign(&request(Method::POST, "p", &[]), "1000");
    assert_eq!(signed.body, Some("{}".to_string()));
}

#[test]
fn query_string_is_form_urlencoded_by_ascending_key() {
    let client = RustClient::new("k", "s", false);
    let descriptor = request(
        Method::GET,
        "p",
        &[("b", "c&d"), ("a b", "1=2"), ("\u{e9}", "~x*y-._"), ("z", "")],
    );
    let signed = client.sign(&descriptor, "1000");
    assert_eq!(
        signed.url,
        "https://api.bybit.com/p?a+b=1%3D2&b=c%26d&z=&%C3%A9=%7Ex*y-._"
    );
}

#[test]
fn json_body_escapes_and_ascends_by_key() {
    let client = RustClient::new("k", "s", false);
    let descriptor = request(
        Method::POST,
        "p",
        &[("side", "Buy"), ("a\"b", "c\\d\n"), ("\u{e9}", "\u{fc}")],
    );
    let signed = client.sign(&descriptor, "1000");
    assert_eq!(
        signed.body,
        Some("{\"a\\\"b\":\"c\\\\d\\n\",\"side\":\"Buy\",\"\u{e9}\":\"\u{fc}\"}".to_string())
    );
}

#[test]
fn frame_places_the_payload_by_method() {
    let client = RustClient::new("k", "s", true);
    let read = client.frame(&request(Method::GET, "p", &[("a", "1")]), "7", "payload".to_string());
    assert_eq!(read.url, "https://api-testnet.bybit.com/p?payload");
    assert_eq!(read.body, None);
    let write = client.frame(&request(Method::POST, "p", &[("a", "1")]), "7", "payload".to_string());
    assert_eq!(write.url, "https://api-testnet.bybit.com/p");
    assert_eq!(write.body, Some("payload".to_string()));
    assert_eq!(read.headers, write.headers);
    assert_eq!(read.timestamp, "7");
}

#[test]
fn post_request_is_made_for_any_parameters() {
    let client = RustClient::new("k", "s", false);
    let descriptor = request(
        Method::POST,
        "p",
        &[("", ""), ("\u{0}", "\u{1f}"), ("\u{1f600}", "\u{10ffff}"), ("q\"", "\\")],
    );
    let signed = client.sign(&descriptor, "1000");
    let parsed: serde_json::Value = serde_json::from_str(signed.body.as_ref().unwrap()).unwrap();
    let object = parsed.as_object().unwrap();
    assert_eq!(object.len(), 4);
    assert_eq!(object.get("").and_then(|v| v.as_str()), Some(""));
    assert_eq!(object.get("\u{0}").and_then(|v| v.as_str()), Some("\u{1f}"));
    assert_eq!(object.get("\u{1f600}").and_then(|v| v.as_str()), Some("\u{10ffff}"));
    assert_eq!(object.get("q\"").and_then(|v| v.as_str()), Some("\\"));
    let made = client.request_at(Method::POST, "p", descriptor.params.clone(), Some(1000));
    assert_eq!(made.unwrap().body, signed.body);
}

#[test]
fn request_errors_describe_themselves() {
    assert_eq!(RequestError::Clock.message(), "system clock is before the Unix epoch");
}

#[test]
fn request_at_fails_without_a_clock_reading() {
    let client = RustClient::new("k", "s", false);
    for method in [Method::GET, Method::POST] {
        let outcome = client.request_at(method, "p", params(&[("a", "1")]), None);
        assert_eq!(outcome.err(), Some(RequestError::Clock));
    }
}

#[test]
fn request_at_signs_at_the_reading_in_decimal() {
    let client = RustClient::new("k", "s", false);
    let read = client
        .request_at(Method::GET, "p", params(&[("a", "1"), ("b", "2")]), Some(1000))
        .unwrap();
    assert_eq!(read.timestamp, "1000");
    assert_eq!(read.url, "https://api.bybit.com/p?a=1&b=2");
    assert_eq!(
        header(&read, "X-BAPI-SIGN"),
        "84f72294f56952ba479c35d7a8be0089af31495159ff1766c95e2d5dbd569a18"
    );
    assert_eq!(header(&read, "X-BAPI-TIMESTAMP"), "1000");
    let write = client
        .request_at(Method::POST, "p", params(&[("a", "1"), ("b", "2")]), Some(1000))
        .unwrap();
    let signed = client.sign(&request(Method::POST, "p", &[("a", "1"), ("b", "2")]), "1000");
    assert_eq!(write.url, signed.url);
    assert_eq!(write.body, signed.body);
    assert_eq!(write.body, Some("{\"a\":\"1\",\"b\":\"2\"}".to_string()));
    assert_eq!(write.headers, signed.headers);
    let first = client.request_at(Method::GET, "p", Params::new(), Some(0)).unwrap();
    assert_eq!(first.timestamp, "0");
}
