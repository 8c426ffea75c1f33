//! The subscriber registry: registration, fan-out, liveness and
//! eviction, exercised on concrete timelines.

use quote_stream::addr::Addr;
use quote_stream::registry::SubscriberRegistry;
use quote_stream::stock::{filter_quotes, StockQuote, StockRequest, StockResponseStatus};

fn addr(o4: u8, port: u16) -> Addr {
    Addr { o1: 127, o2: 0, o3: 0, o4, port }
}

fn quote(ticker: &str, price: u64) -> StockQuote {
    StockQuote { ticker: ticker.to_string(), price, volume: 10, timestamp: 7 }
}

#[test]
fn registered_subscriber_receives_filtered_snapshot() {
    // Catalog ["AAPL", "NVDA"]; the subscriber asks for AAPL only and
    // must receive exactly the AAPL quote of the cycle.
    let mut reg = SubscriberRegistry::new();
    let a = addr(1, 9001);
    assert!(reg.register(a, vec!["AAPL".to_string()], 0).is_none());

    let snapshot = vec![quote("AAPL", 1_000_000), quote("NVDA", 500_000)];
    reg.fan_out(&snapshot);

    let got = reg.recv_from(&a).expect("the channel had room, so the snapshot arrived");
    assert_eq!(got.len(), 2);
    assert_eq!(got[0].ticker, "AAPL");
    assert_eq!(got[0].price, 1_000_000);

    let delivered = filter_quotes(&got, &vec!["AAPL".to_string()]);
    assert_eq!(delivered.len(), 1);
    assert_eq!(delivered[0].ticker, "AAPL");
    assert_eq!(delivered[0].price, 1_000_000);
    assert_eq!(delivered[0].volume, 10);
    assert_eq!(delivered[0].timestamp, 7);
}

#[test]
fn full_channel_is_skipped_not_evicted() {
    let mut reg = SubscriberRegistry::new();
    let a = addr(2, 9002);
    reg.register(a, vec!["AAPL".to_string()], 0);

    let first = vec![quote("AAPL", 1_000_000)];
    let second = vec![quote("AAPL", 2_000_000)];
    reg.fan_out(&first);
    // Capacity is one: the second offer of the cycle is dropped for this
    // subscriber, and the subscriber stays registered.
    reg.fan_out(&second);

    let got = reg.recv_from(&a).expect("first snapshot queued");
    assert_eq!(got[0].price, 1_000_000);
    assert!(reg.recv_from(&a).is_none());
    assert!(reg.is_registered(&a));
}

#[test]
fn silent_subscriber_is_evicted_after_timeout() {
    // Registered at t=0 with a 5 s timeout and never pinging: at
    // t=5100 ms the scan must remove it and close its channel.
    let mut reg = SubscriberRegistry::new();
    let a = addr(3, 9003);
    reg.register(a, vec!["AAPL".to_string()], 0);
    reg.fan_out(&vec![quote("AAPL", 1_000_000)]);

    let evicted = reg.evict_expired(5_100, 5_000);
    assert_eq!(evicted.len(), 1);
    assert_eq!(evicted[0].0, a);
    assert!(evicted[0].1.is_closed());
    assert!(!reg.is_registered(&a));
    assert!(reg.list_live().is_empty());

    // The closed channel still drains what was queued, then ends.
    let mut chan = evicted.into_iter().next().unwrap().1;
    let queued = chan.recv().expect("the queued snapshot survives eviction");
    assert_eq!(queued[0].ticker, "AAPL");
    assert!(chan.recv().is_none());
}

#[test]
fn subscriber_within_window_survives_scan() {
    let mut reg = SubscriberRegistry::new();
    let a = addr(4, 9004);
    reg.register(a, vec![], 0);
    let evicted = reg.evict_expired(5_000, 5_000);
    assert!(evicted.is_empty());
    assert!(reg.is_registered(&a));
}

#[test]
fn steady_pinging_defeats_eviction() {
    // Pings every 4 s against a 5 s timeout, over many cycles.
    let mut reg = SubscriberRegistry::new();
    let a = addr(5, 9005);
    reg.register(a, vec![], 0);
    let mut t: u64 = 0;
    for _ in 0..100 {
        t += 4_000;
        reg.touch(&a, t);
        let evicted = reg.evict_expired(t + 900, 5_000);
        assert!(evicted.is_empty());
        assert!(reg.is_registered(&a));
    }
}

#[test]
fn ping_from_unknown_address_is_ignored() {
    let mut reg = SubscriberRegistry::new();
    let a = addr(6, 9006);
    let stranger = addr(7, 9007);
    reg.register(a, vec![], 0);
    reg.touch(&stranger, 1_000);
    assert_eq!(reg.count(), 1);
    assert!(!reg.is_registered(&stranger));
    // The stranger's ping did not refresh the real subscriber either.
    let evicted = reg.evict_expired(6_000, 5_000);
    assert_eq!(evicted.len(), 1);
}

#[test]
fn direct_evict_removes_one_subscriber() {
    let mut reg = SubscriberRegistry::new();
    let a = addr(11, 9012);
    let b = addr(12, 9013);
    reg.register(a, vec![], 0);
    reg.register(b, vec![], 0);
    assert!(reg.evict(&addr(13, 9014)).is_none());
    let chan = reg.evict(&a).expect("a was registered");
    assert!(chan.is_closed());
    assert!(!reg.is_registered(&a));
    assert!(reg.is_registered(&b));
    assert_eq!(reg.count(), 1);
}

#[test]
fn reregistration_replaces_and_closes_old_channel() {
    let mut reg = SubscriberRegistry::new();
    let a = addr(8, 9008);
    assert!(reg.register(a, vec!["AAPL".to_string()], 0).is_none());
    reg.fan_out(&vec![quote("AAPL", 1_000_000)]);

    let old = reg.register(a, vec!["NVDA".to_string()], 1_000);
    let mut old_chan = old.expect("the address was known, so its channel comes back");
    assert!(old_chan.is_closed());
    // The old channel still holds what was queued before the replacement.
    assert_eq!(old_chan.queued(), 1);
    assert_eq!(old_chan.recv().unwrap()[0].ticker, "AAPL");

    // One entry only, and the new filter is in force.
    assert_eq!(reg.count(), 1);
    reg.fan_out(&vec![quote("AAPL", 1_000_000), quote("NVDA", 500_000)]);
    let got = reg.recv_from(&a).unwrap();
    let delivered = filter_quotes(&got, &vec!["NVDA".to_string()]);
    assert_eq!(delivered.len(), 1);
    assert_eq!(delivered[0].ticker, "NVDA");
}

#[test]
fn unsupported_kind_is_rejected_in_band() {
    let mut reg = SubscriberRegistry::new();
    let a = addr(9, 9009);
    let req = StockRequest {
        kind: "QUOTE".to_string(),
        addr: a,
        tickers: vec!["AAPL".to_string()],
    };
    let (resp, replaced) = reg.handle_request(&req, 0);
    assert_eq!(resp.status, StockResponseStatus::Error);
    assert_eq!(resp.message, "Unsupported command");
    assert!(replaced.is_none());
    assert_eq!(reg.count(), 0);
    assert!(!reg.is_registered(&a));
}

#[test]
fn stream_request_is_accepted() {
    let mut reg = SubscriberRegistry::new();
    let a = addr(10, 9010);
    let req = StockRequest {
        kind: "STREAM".to_string(),
        addr: a,
        tickers: vec!["AAPL".to_string()],
    };
    let (resp, replaced) = reg.handle_request(&req, 0);
    assert_eq!(resp.status, StockResponseStatus::Okay);
    assert_eq!(resp.message, "ok");
    assert!(replaced.is_none());
    assert!(reg.is_registered(&a));
}

#[test]
fn control_message_exchange_end_to_end() {
    let mut reg = SubscriberRegistry::new();
    let msg = "{\"addr\":\"127.0.0.1:9011\",\"kind\":\"STREAM\",\"tickers\":[\"AAPL\"]}";
    let (reply, replaced) = reg.handle_control_message(msg, 0);
    assert_eq!(reply, "{\"message\":\"ok\",\"status\":\"Ok\"}");
    assert!(replaced.is_none());
    assert!(reg.is_registered(&Addr { o1: 127, o2: 0, o3: 0, o4: 1, port: 9011 }));

    let bad = "{\"addr\":\"127.0.0.1:9011\",\"kind\":\"HALT\",\"tickers\":[]}";
    let (reply2, _) = reg.handle_control_message(bad, 1);
    assert_eq!(reply2, "{\"message\":\"Unsupported command\",\"status\":\"Error\"}");
    assert_eq!(reg.count(), 1);
}

#[test]
fn malformed_and_oversized_frames_are_answered_in_band() {
    let mut reg = SubscriberRegistry::new();
    let (reply, _) = reg.handle_control_message("not json at all", 0);
    assert_eq!(reply, "{\"message\":\"Malformed request\",\"status\":\"Error\"}");
    assert_eq!(reg.count(), 0);

    let oversized = "x".repeat(2048);
    let (reply2, _) = reg.handle_control_message(&oversized, 0);
    assert_eq!(reply2, "{\"message\":\"Malformed request\",\"status\":\"Error\"}");
    assert_eq!(reg.count(), 0);
}

#[test]
fn filter_drops_unknown_tickers_and_keeps_order() {
    let snapshot = vec![
        quote("AAPL", 1),
        quote("NVDA", 2),
        quote("AAPL", 3),
        quote("MSFT", 4),
    ];
    let wanted = vec!["MSFT".to_string(), "AAPL".to_string(), "GHOST".to_string()];
    let out = filter_quotes(&snapshot, &wanted);
    let tickers: Vec<&str> = out.iter().map(|q| q.ticker.as_str()).collect();
    assert_eq!(tickers, vec!["AAPL", "AAPL", "MSFT"]);
    let empty = filter_quotes(&snapshot, &vec![]);
    assert!(empty.is_empty());
}
