//! The quote generator and the ticker catalog, exercised on concrete
//! values; the random draws are checked against their stated ranges.

use quote_stream::catalog::parse_ticker_lines;
use quote_stream::generator::QuoteGenerator;

fn catalog() -> Vec<String> {
    vec!["AAPL".to_string(), "NVDA".to_string(), "ACME".to_string()]
}

#[test]
fn snapshot_covers_the_catalog_in_order() {
    let gen = QuoteGenerator::new(&catalog());
    assert_eq!(gen.ticker_count(), 3);
    let snap = gen.generate_quote_list(1_700_000_000_000);
    assert_eq!(snap.len(), 3);
    assert_eq!(snap[0].ticker, "AAPL");
    assert_eq!(snap[1].ticker, "NVDA");
    assert_eq!(snap[2].ticker, "ACME");
    for q in &snap {
        // Seed price: one currency unit, in fixed point.
        assert_eq!(q.price, 10_000);
        assert_eq!(q.timestamp, 1_700_000_000_000);
    }
}

#[test]
fn volumes_come_from_the_liquidity_class_range() {
    let gen = QuoteGenerator::new(&catalog());
    for _ in 0..50 {
        let snap = gen.generate_quote_list(0);
        // AAPL is high-liquidity; the others draw the narrow range.
        assert!((1000..6000).contains(&snap[0].volume));
        assert!((100..1100).contains(&snap[1].volume));
        assert!((100..1100).contains(&snap[2].volume));
    }
}

#[test]
fn one_shared_shock_moves_all_prices_alike() {
    let mut gen = QuoteGenerator::new(&catalog());
    gen.shuffle_prices();
    let snap = gen.generate_quote_list(0);
    // All prices started equal, so one shared ratio keeps them equal,
    // inside [0.5, 1.5) of the seed.
    assert_eq!(snap[0].price, snap[1].price);
    assert_eq!(snap[1].price, snap[2].price);
    assert!((5_000..15_000).contains(&snap[0].price));
}

#[test]
fn single_quote_reports_tracked_tickers_only() {
    let gen = QuoteGenerator::new(&catalog());
    let q = gen.generate_quote("NVDA", 99).expect("NVDA is tracked");
    assert_eq!(q.ticker, "NVDA");
    assert_eq!(q.price, 10_000);
    assert_eq!(q.timestamp, 99);
    assert!((100..1100).contains(&q.volume));
    assert!(gen.generate_quote("GHOST", 99).is_none());
}

#[test]
fn ticker_file_lines_are_trimmed_and_kept_in_order() {
    let text = " AAPL \r\nNVDA\n\n\tACME\nAAPL";
    let parsed = parse_ticker_lines(text);
    assert_eq!(parsed, vec!["AAPL", "NVDA", "", "ACME", "AAPL"]);
    assert!(parse_ticker_lines("").is_empty());
    assert_eq!(parse_ticker_lines("AAPL\n"), vec!["AAPL"]);
    // The whole Unicode whitespace set is trimmed, as `str::trim` does.
    assert_eq!(parse_ticker_lines("\u{a0}AAPL\u{2003}\nNVDA\u{c}"), vec!["AAPL", "NVDA"]);
}
