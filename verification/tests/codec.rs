//! The wire codecs, exercised on concrete values, including against a
//! real JSON parser.

use quote_stream::addr::{format_addr, parse_addr, port_validation, server_address_validation, Addr};
use quote_stream::json::{
    parse_quotes, parse_request, parse_response, serialize_quotes, serialize_request,
    serialize_response,
};
use quote_stream::stock::{StockQuote, StockRequest, StockResponse, StockResponseStatus};

fn addr(o1: u8, o2: u8, o3: u8, o4: u8, port: u16) -> Addr {
    Addr { o1, o2, o3, o4, port }
}

#[test]
fn request_serializes_canonically() {
    let req = StockRequest {
        kind: "STREAM".to_string(),
        addr: addr(127, 0, 0, 1, 8080),
        tickers: vec!["AAPL".to_string(), "NVDA".to_string()],
    };
    let s = serialize_request(&req);
    assert_eq!(
        s,
        "{\"addr\":\"127.0.0.1:8080\",\"kind\":\"STREAM\",\"tickers\":[\"AAPL\",\"NVDA\"]}"
    );
}

#[test]
fn request_round_trips() {
    let req = StockRequest {
        kind: "STREAM".to_string(),
        addr: addr(10, 1, 2, 3, 65535),
        tickers: vec!["AAPL".to_string()],
    };
    let s = serialize_request(&req);
    let back = parse_request(&s).expect("canonical text must parse");
    assert_eq!(back.kind, "STREAM");
    assert_eq!(back.addr, addr(10, 1, 2, 3, 65535));
    assert_eq!(back.tickers, vec!["AAPL".to_string()]);
}

#[test]
fn request_round_trips_empty_tickers() {
    let req = StockRequest {
        kind: "STREAM".to_string(),
        addr: addr(127, 0, 0, 1, 9000),
        tickers: vec![],
    };
    let s = serialize_request(&req);
    assert_eq!(s, "{\"addr\":\"127.0.0.1:9000\",\"kind\":\"STREAM\",\"tickers\":[]}");
    let back = parse_request(&s).expect("canonical text must parse");
    assert!(back.tickers.is_empty());
}

#[test]
fn request_output_is_real_json() {
    let req = StockRequest {
        kind: "STREAM".to_string(),
        addr: addr(192, 168, 0, 7, 4242),
        tickers: vec!["AAPL".to_string(), "TSLA".to_string()],
    };
    let s = serialize_request(&req);
    let v: serde_json::Value = serde_json::from_str(&s).expect("must be valid JSON");
    assert_eq!(v["kind"], "STREAM");
    assert_eq!(v["addr"], "192.168.0.7:4242");
    assert_eq!(v["tickers"][0], "AAPL");
    assert_eq!(v["tickers"][1], "TSLA");
}

#[test]
fn malformed_requests_are_rejected() {
    assert!(parse_request("").is_none());
    assert!(parse_request("garbage").is_none());
    assert!(parse_request("{\"addr\":\"127.0.0.1:8080\"}").is_none());
    // Wrong key order is not the canonical form.
    assert!(
        parse_request("{\"kind\":\"STREAM\",\"addr\":\"127.0.0.1:8080\",\"tickers\":[]}").is_none()
    );
    // An address outside the IPv4 textual form.
    assert!(
        parse_request("{\"addr\":\"localhost:8080\",\"kind\":\"STREAM\",\"tickers\":[]}").is_none()
    );
}

#[test]
fn response_serializes_and_round_trips() {
    let ok = StockResponse { status: StockResponseStatus::Okay, message: "ok".to_string() };
    let s = serialize_response(&ok);
    assert_eq!(s, "{\"message\":\"ok\",\"status\":\"Ok\"}");
    let back = parse_response(&s).expect("canonical text must parse");
    assert_eq!(back.status, StockResponseStatus::Okay);
    assert_eq!(back.message, "ok");

    let err = StockResponse {
        status: StockResponseStatus::Error,
        message: "Unsupported command".to_string(),
    };
    let s2 = serialize_response(&err);
    assert_eq!(s2, "{\"message\":\"Unsupported command\",\"status\":\"Error\"}");
    let back2 = parse_response(&s2).expect("canonical text must parse");
    assert_eq!(back2.status, StockResponseStatus::Error);
    assert_eq!(back2.message, "Unsupported command");

    assert!(parse_response("{\"message\":\"ok\",\"status\":\"Maybe\"}").is_none());
}

#[test]
fn response_output_is_real_json() {
    let resp = StockResponse {
        status: StockResponseStatus::Error,
        message: "Malformed request".to_string(),
    };
    let s = serialize_response(&resp);
    let v: serde_json::Value = serde_json::from_str(&s).expect("must be valid JSON");
    assert_eq!(v["status"], "Error");
    assert_eq!(v["message"], "Malformed request");
}

#[test]
fn quotes_serialize_as_json_array() {
    let qs = vec![
        StockQuote {
            ticker: "AAPL".to_string(),
            price: 1_000_000,
            volume: 1500,
            timestamp: 1_700_000_000_000,
        },
    ];
    let s = serialize_quotes(&qs);
    assert_eq!(
        s,
        "[{\"price\":100.0,\"ticker\":\"AAPL\",\"timestamp\":1700000000000,\"volume\":1500}]"
    );
    let v: serde_json::Value = serde_json::from_str(&s).expect("must be valid JSON");
    assert_eq!(v[0]["price"], 100.0);
    assert_eq!(v[0]["ticker"], "AAPL");
}

#[test]
fn empty_quote_list_is_sent_as_brackets() {
    let qs: Vec<StockQuote> = vec![];
    assert_eq!(serialize_quotes(&qs), "[]");
}

#[test]
fn quotes_round_trip() {
    let qs = vec![
        StockQuote {
            ticker: "AAPL".to_string(),
            price: 1_000_000,
            volume: 1500,
            timestamp: 1_700_000_000_000,
        },
        StockQuote { ticker: "NVDA".to_string(), price: 500_000, volume: 321, timestamp: 7 },
    ];
    let s = serialize_quotes(&qs);
    let back = parse_quotes(&s).expect("canonical text must parse");
    assert_eq!(back.len(), 2);
    assert_eq!(back[0].ticker, "AAPL");
    assert_eq!(back[0].price, 1_000_000);
    assert_eq!(back[0].volume, 1500);
    assert_eq!(back[0].timestamp, 1_700_000_000_000);
    assert_eq!(back[1].ticker, "NVDA");
    assert_eq!(back[1].price, 500_000);

    let empty = parse_quotes("[]").expect("the empty array is valid");
    assert!(empty.is_empty());
    assert!(parse_quotes("").is_none());
    assert!(parse_quotes("[").is_none());
    assert!(parse_quotes("[{}]").is_none());

    // An integer price is a valid JSON number and a whole price.
    let whole = parse_quotes("[{\"price\":100,\"ticker\":\"AAPL\",\"timestamp\":42,\"volume\":5}]")
        .expect("an integer price names a whole price");
    assert_eq!(whole[0].price, 1_000_000);
}

#[test]
fn quote_line_round_trips() {
    let q = StockQuote {
        ticker: "NVDA".to_string(),
        price: 995_250,
        volume: 321,
        timestamp: 42,
    };
    let line = q.to_string();
    assert_eq!(line, "NVDA|99.525|321|42");
    assert_eq!(q.to_bytes(), line.as_bytes().to_vec());
    let back = StockQuote::from_string(&line).expect("canonical line must parse");
    assert_eq!(back.ticker, "NVDA");
    assert_eq!(back.price, 995_250);
    assert_eq!(back.volume, 321);
    assert_eq!(back.timestamp, 42);
}

#[test]
fn quote_line_accepts_whole_prices_and_signed_counts() {
    // A whole-number price, as the original's float formatter printed it.
    let q = StockQuote::from_string("AAPL|100|1500|42").expect("a bare numeral is a whole price");
    assert_eq!(q.ticker, "AAPL");
    assert_eq!(q.price, 1_000_000);
    assert_eq!(q.volume, 1500);
    assert_eq!(q.timestamp, 42);
    // The standard integer parsers take a leading plus on volume and
    // timestamp; so does this line.
    let q2 = StockQuote::from_string("NVDA|50.5|+7|+9").expect("plus-signed counts parse");
    assert_eq!(q2.price, 505_000);
    assert_eq!(q2.volume, 7);
    assert_eq!(q2.timestamp, 9);
}

#[test]
fn quote_line_rejects_wrong_shapes() {
    assert!(StockQuote::from_string("AAPL|100.0|1500").is_none());
    assert!(StockQuote::from_string("AAPL|100.0|x|42").is_none());
    assert!(StockQuote::from_string("AAPL|100.|1500|42").is_none());
    assert!(StockQuote::from_string("").is_none());
}

#[test]
fn price_text_trims_trailing_zeros() {
    let cases: Vec<(u64, &str)> = vec![
        (10_000, "1.0"),
        (1_000_000, "100.0"),
        (1_005_000, "100.5"),
        (5, "0.0005"),
        (99_999, "9.9999"),
        (10_100, "1.01"),
    ];
    for (p, expect) in cases {
        let q = StockQuote { ticker: "T".to_string(), price: p, volume: 1, timestamp: 0 };
        let line = q.to_string();
        let shown = line.split('|').nth(1).unwrap().to_string();
        assert_eq!(shown, expect);
    }
}

#[test]
fn port_validation_matches_the_number_grammar() {
    assert_eq!(port_validation("8080"), Ok(8080));
    assert_eq!(port_validation("+123"), Ok(123));
    assert_eq!(port_validation("65535"), Ok(65535));
    assert!(port_validation("65536").is_err());
    assert!(port_validation("").is_err());
    assert!(port_validation("+").is_err());
    assert!(port_validation("12a").is_err());
    assert!(port_validation(" 80").is_err());
}

#[test]
fn address_text_round_trips() {
    let a = addr(127, 0, 0, 1, 8080);
    let s = format_addr(&a);
    assert_eq!(s, "127.0.0.1:8080");
    assert_eq!(parse_addr(&s), Some(a));
    assert_eq!(server_address_validation("10.0.0.2:53"), Ok(addr(10, 0, 0, 2, 53)));
    // Single zeros are octets; zero-prefixed runs are not, as std has it.
    assert_eq!(server_address_validation("0.0.0.0:0"), Ok(addr(0, 0, 0, 0, 0)));
    assert!(server_address_validation("127.00.0.1:80").is_err());
    assert!(server_address_validation("012.0.0.1:80").is_err());
    assert!(server_address_validation("256.0.0.1:80").is_err());
    assert!(server_address_validation("1.2.3:80").is_err());
    assert!(server_address_validation("1.2.3.4").is_err());
    assert!(server_address_validation("[::1]:80").is_err());
    assert!(server_address_validation("1.2.3.4:99999").is_err());
}
