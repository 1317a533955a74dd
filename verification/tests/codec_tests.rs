use stock_ticker::codec::{decode_tick, encode_tick};
use stock_ticker::types::{StockPrice, MAX_PRICE_MILLI};

fn tick(symbol: &str, price: u64, timestamp: &str) -> StockPrice {
    StockPrice { symbol: symbol.to_string(), price, timestamp: timestamp.to_string() }
}

#[test]
fn decode_canonical_payload() {
    let t = decode_tick("{\"symbol\":\"AAPL\",\"price\":234.560,\"timestamp\":\"2024-01-02T03:04:05Z\"}")
        .expect("canonical payload must decode");
    assert_eq!(t.symbol, "AAPL");
    assert_eq!(t.price, 234_560);
    assert_eq!(t.timestamp, "2024-01-02T03:04:05Z");
}

#[test]
fn decode_integer_price() {
    let t = decode_tick("{\"symbol\":\"MSFT\",\"price\":7,\"timestamp\":\"t\"}").unwrap();
    assert_eq!(t.price, 7_000);
}

#[test]
fn decode_short_fractions() {
    let one = decode_tick("{\"symbol\":\"A\",\"price\":12.5,\"timestamp\":\"t\"}").unwrap();
    assert_eq!(one.price, 12_500);
    let two = decode_tick("{\"symbol\":\"A\",\"price\":12.34,\"timestamp\":\"t\"}").unwrap();
    assert_eq!(two.price, 12_340);
}

#[test]
fn decode_leading_zeros() {
    let t = decode_tick("{\"symbol\":\"A\",\"price\":007.05,\"timestamp\":\"t\"}").unwrap();
    assert_eq!(t.price, 7_050);
}

#[test]
fn decode_zero_price() {
    let t = decode_tick("{\"symbol\":\"A\",\"price\":0.0,\"timestamp\":\"t\"}").unwrap();
    assert_eq!(t.price, 0);
}

#[test]
fn decode_rejects_malformed() {
    let bad = [
        "",
        "hello",
        "{}",
        "{\"symbol\":\"AAPL\"}",
        "{\"price\":1.0,\"symbol\":\"AAPL\",\"timestamp\":\"t\"}",
        "{\"symbol\":\"\",\"price\":1.0,\"timestamp\":\"t\"}",
        "{\"symbol\":\"AAPL\",\"price\":,\"timestamp\":\"t\"}",
        "{\"symbol\":\"AAPL\",\"price\":1.,\"timestamp\":\"t\"}",
        "{\"symbol\":\"AAPL\",\"price\":1.2345,\"timestamp\":\"t\"}",
        "{\"symbol\":\"AAPL\",\"price\":-1.0,\"timestamp\":\"t\"}",
        "{\"symbol\":\"AAPL\",\"price\":1e3,\"timestamp\":\"t\"}",
        "{\"symbol\":\"AAPL\",\"price\":10000000000000000000.0,\"timestamp\":\"t\"}",
        "{\"symbol\":\"AAPL\",\"price\":1.0,\"timestamp\":\"t\"} ",
        "{\"symbol\":\"AAPL\",\"price\":1.0,\"timestamp\":\"t\"",
        "{\"symbol\":\"AA\\\"PL\",\"price\":1.0,\"timestamp\":\"t\"}",
        "{\"symbol\": \"AAPL\",\"price\":1.0,\"timestamp\":\"t\"}",
    ];
    for payload in bad {
        assert!(decode_tick(payload).is_err(), "must reject: {payload:?}");
    }
}

#[test]
fn decode_accepts_sixteen_digit_integer_part() {
    let t = decode_tick("{\"symbol\":\"A\",\"price\":9999999999999999.999,\"timestamp\":\"t\"}")
        .unwrap();
    assert_eq!(t.price, MAX_PRICE_MILLI);
}

#[test]
fn encode_canonical_text() {
    let t = tick("AAPL", 100_500, "2024-01-02T03:04:05Z");
    assert_eq!(
        encode_tick(&t),
        "{\"symbol\":\"AAPL\",\"price\":100.500,\"timestamp\":\"2024-01-02T03:04:05Z\"}"
    );
}

#[test]
fn encode_zero_and_small_prices() {
    assert_eq!(encode_tick(&tick("A", 0, "t")), "{\"symbol\":\"A\",\"price\":0.000,\"timestamp\":\"t\"}");
    assert_eq!(encode_tick(&tick("A", 42, "t")), "{\"symbol\":\"A\",\"price\":0.042,\"timestamp\":\"t\"}");
}

#[test]
fn round_trip_preserves_tick() {
    let ticks = [
        tick("AAPL", 100_000, "2024-01-02T03:04:05Z"),
        tick("GOOGL", 0, ""),
        tick("X", 1, "now"),
        tick("TSLA", MAX_PRICE_MILLI, "2025-12-31T23:59:59+00:00"),
    ];
    for t in ticks {
        let decoded = decode_tick(&encode_tick(&t)).expect("round trip must decode");
        assert_eq!(decoded, t);
    }
}
