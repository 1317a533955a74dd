use stock_ticker::codec::encode_tick;
use stock_ticker::ingest::process_message;
use stock_ticker::store::AggregatedState;
use stock_ticker::types::StockPrice;

fn tick(symbol: &str, price: u64, timestamp: &str) -> StockPrice {
    StockPrice { symbol: symbol.to_string(), price, timestamp: timestamp.to_string() }
}

#[test]
fn two_symbols_concrete_scenario() {
    let mut state = AggregatedState::new();
    state.record(tick("AAPL", 100_000, "t1"));
    state.record(tick("AAPL", 200_000, "t2"));
    state.record(tick("GOOGL", 50_000, "t3"));

    let aapl = state.snapshot_aggregate(&"AAPL".to_string()).unwrap();
    assert_eq!(aapl.total, 300_000);
    assert_eq!(aapl.count, 2);
    assert_eq!(aapl.average, 150_000);
    assert_eq!(aapl.latest, 200_000);

    let googl = state.snapshot_aggregate(&"GOOGL".to_string()).unwrap();
    assert_eq!(googl.total, 50_000);
    assert_eq!(googl.count, 1);
    assert_eq!(googl.average, 50_000);
    assert_eq!(googl.latest, 50_000);

    assert!(state.snapshot_aggregate(&"MSFT".to_string()).is_none());
}

#[test]
fn incremental_stats_over_one_symbol() {
    let mut state = AggregatedState::new();
    let prices = [10_000u64, 20_000, 25_000, 5_000];
    for (i, p) in prices.iter().enumerate() {
        state.record(tick("TSLA", *p, &format!("t{i}")));
    }
    let st = state.snapshot_aggregate(&"TSLA".to_string()).unwrap();
    assert_eq!(st.count, 4);
    assert_eq!(st.total, 60_000);
    assert_eq!(st.average, 15_000);
    assert_eq!(st.latest, 5_000);
}

#[test]
fn average_uses_integer_division_of_thousandths() {
    let mut state = AggregatedState::new();
    state.record(tick("A", 1, "t1"));
    state.record(tick("A", 2, "t2"));
    state.record(tick("A", 4, "t3"));
    let st = state.snapshot_aggregate(&"A".to_string()).unwrap();
    assert_eq!(st.total, 7);
    assert_eq!(st.count, 3);
    assert_eq!(st.average, 2);
    assert_eq!(st.latest, 4);
}

#[test]
fn symbols_are_isolated() {
    let mut state = AggregatedState::new();
    state.record(tick("AAPL", 100_000, "t1"));
    state.record(tick("GOOGL", 50_000, "t2"));
    let before = state.snapshot_aggregate(&"GOOGL".to_string()).unwrap();
    let raw_before = state.snapshot_raw(&"GOOGL".to_string()).unwrap();
    state.record(tick("AAPL", 999_000, "t3"));
    state.record(tick("AAPL", 1_000, "t4"));
    let after = state.snapshot_aggregate(&"GOOGL".to_string()).unwrap();
    let raw_after = state.snapshot_raw(&"GOOGL".to_string()).unwrap();
    assert_eq!(before, after);
    assert_eq!(raw_before, raw_after);
}

#[test]
fn raw_history_keeps_arrival_order() {
    let mut state = AggregatedState::new();
    let t1 = tick("AAPL", 100_000, "t1");
    let t2 = tick("AAPL", 90_000, "t2");
    state.record(t1.clone());
    state.record(t2.clone());
    let hist = state.snapshot_raw(&"AAPL".to_string()).unwrap();
    assert_eq!(hist, vec![t1, t2]);
}

#[test]
fn unknown_symbol_is_not_found() {
    let mut state = AggregatedState::new();
    assert!(state.snapshot_aggregate(&"AAPL".to_string()).is_none());
    assert!(state.snapshot_raw(&"AAPL".to_string()).is_none());
    state.record(tick("AAPL", 100_000, "t1"));
    assert!(state.snapshot_aggregate(&"MSFT".to_string()).is_none());
    assert!(state.snapshot_raw(&"MSFT".to_string()).is_none());
}

#[test]
fn empty_store_snapshots_are_empty() {
    let state = AggregatedState::default();
    assert!(state.snapshot_all_aggregates().is_empty());
    assert!(state.snapshot_all_raw().is_empty());
}

#[test]
fn snapshot_all_covers_every_symbol_once() {
    let mut state = AggregatedState::new();
    state.record(tick("AAPL", 100_000, "t1"));
    state.record(tick("GOOGL", 50_000, "t2"));
    state.record(tick("AAPL", 200_000, "t3"));

    let all = state.snapshot_all_aggregates();
    assert_eq!(all.len(), 2);
    let mut symbols: Vec<String> = all.iter().map(|(s, _)| s.clone()).collect();
    symbols.sort();
    assert_eq!(symbols, vec!["AAPL".to_string(), "GOOGL".to_string()]);
    for (symbol, stats) in &all {
        assert_eq!(*stats, state.snapshot_aggregate(symbol).unwrap());
    }

    let raw = state.snapshot_all_raw();
    assert_eq!(raw.len(), 2);
    for (symbol, hist) in &raw {
        assert_eq!(*hist, state.snapshot_raw(symbol).unwrap());
        for t in hist {
            assert_eq!(t.symbol, *symbol);
        }
    }
}

#[test]
fn malformed_payload_between_two_valid_ticks() {
    let mut clean = AggregatedState::new();
    assert!(process_message(&mut clean, &encode_tick(&tick("AAPL", 100_000, "t1"))));
    assert!(process_message(&mut clean, &encode_tick(&tick("AAPL", 200_000, "t2"))));

    let mut noisy = AggregatedState::new();
    assert!(process_message(&mut noisy, &encode_tick(&tick("AAPL", 100_000, "t1"))));
    assert!(!process_message(&mut noisy, "this is not a tick"));
    assert!(process_message(&mut noisy, &encode_tick(&tick("AAPL", 200_000, "t2"))));

    let symbol = "AAPL".to_string();
    assert_eq!(clean.snapshot_aggregate(&symbol), noisy.snapshot_aggregate(&symbol));
    assert_eq!(clean.snapshot_raw(&symbol), noisy.snapshot_raw(&symbol));
}

#[test]
fn thousand_ticks_with_fifty_malformed_payloads() {
    let mut state = AggregatedState::new();
    let mut sent: usize = 0;
    for i in 0..1000u64 {
        if i % 20 == 0 {
            assert!(!process_message(&mut state, &format!("junk #{i}")));
            sent += 1;
        }
        let payload = encode_tick(&tick("AAPL", 1_000 + i, &format!("t{i}")));
        assert!(process_message(&mut state, &payload));
    }
    assert_eq!(sent, 50);
    let st = state.snapshot_aggregate(&"AAPL".to_string()).unwrap();
    assert_eq!(st.count, 1000);
    assert_eq!(st.latest, 1_999);
    let expected_total: u128 = (0..1000u128).map(|i| 1_000 + i).sum();
    assert_eq!(st.total, expected_total);
    assert_eq!(st.average, expected_total / 1000);
    assert_eq!(state.snapshot_raw(&"AAPL".to_string()).unwrap().len(), 1000);
}
