use orderbook_engine::book::OrderBook;
use orderbook_engine::error::OrderBookError;
use orderbook_engine::snapshot::{restore_book, snapshot_book};
use orderbook_engine::stats::DistributionBin;
use orderbook_engine::types::{Side, TimeInForce};

#[test]
fn test_distribution_bin_midpoint() {
    let bin = DistributionBin { min_price: 100, max_price: 200, volume: 50, level_count: 3 };

    assert_eq!(bin.midpoint(), 150);
    assert_eq!(bin.width(), 100);
}

#[test]
fn test_distribution_bin_midpoint_rounds_down() {
    let bin = DistributionBin { min_price: 3, max_price: 4, volume: 1, level_count: 1 };
    assert_eq!(bin.midpoint(), 3);
    assert_eq!(bin.width(), 1);
}

#[test]
fn test_distribution_bin_inverted_width_is_zero() {
    let bin = DistributionBin { min_price: 10, max_price: 4, volume: 0, level_count: 0 };
    assert_eq!(bin.width(), 0);
}

fn populated_book() -> OrderBook {
    let mut book = OrderBook::new();
    book.add_limit_order(1, 95, 10, Side::Buy, TimeInForce::Gtc, 7).unwrap();
    book.add_limit_order(2, 95, 4, Side::Buy, TimeInForce::Gtc, 8).unwrap();
    book.add_limit_order(3, 90, 6, Side::Buy, TimeInForce::Gtc, 9).unwrap();
    book.add_limit_order(4, 105, 3, Side::Sell, TimeInForce::Gtc, 10).unwrap();
    book.add_limit_order(5, 110, 8, Side::Sell, TimeInForce::Gtd(9_999), 11).unwrap();
    book.match_order(6, Side::Buy, 2, Some(105)).unwrap();
    let _ = book.take_price_level_events();
    book
}

#[test]
fn test_snapshot_roundtrip_preserves_book() {
    let book = populated_book();
    let bytes = snapshot_book(&book);
    let restored = restore_book(&bytes).unwrap();
    assert_eq!(restored.best_bid(), book.best_bid());
    assert_eq!(restored.best_ask(), book.best_ask());
    assert_eq!(restored.last_trade_price, book.last_trade_price);
    assert_eq!(restored.has_traded, book.has_traded);
    assert_eq!(restored.has_market_close, book.has_market_close);
    assert_eq!(restored.next_transaction_id, book.next_transaction_id);
    for side in [Side::Buy, Side::Sell] {
        for price in [90u64, 95, 105, 110] {
            let a = book.level_orders(side, price);
            let b = restored.level_orders(side, price);
            assert_eq!(a.len(), b.len());
            for (x, y) in a.iter().zip(b.iter()) {
                assert_eq!(x, y);
            }
        }
    }
    assert_eq!(restored.order_locations.len(), book.order_locations.len());
}

#[test]
fn test_snapshot_roundtrip_keeps_market_close() {
    let mut book = OrderBook::new();
    book.set_market_close(123_456);
    book.add_limit_order(1, 95, 10, Side::Buy, TimeInForce::Day, 7).unwrap();
    let bytes = snapshot_book(&book);
    let restored = restore_book(&bytes).unwrap();
    assert!(restored.has_market_close);
    assert_eq!(restored.market_close_timestamp, 123_456);
    assert_eq!(restored.best_bid(), Some(95));
}

#[test]
fn test_snapshot_corruption_is_detected() {
    let book = populated_book();
    let bytes = snapshot_book(&book);
    // Flip one byte anywhere: the restore must report a checksum mismatch.
    for target in [0usize, 7, 15, 16, 40, bytes.len() - 1] {
        let mut corrupted = bytes.clone();
        corrupted[target] = corrupted[target].wrapping_add(1);
        match restore_book(&corrupted) {
            Err(OrderBookError::ChecksumMismatch { .. }) => {}
            other => panic!("expected a checksum mismatch, got {:?}", other.is_ok()),
        }
    }
}

#[test]
fn test_snapshot_too_short_is_rejected() {
    let bytes: Vec<u8> = vec![1, 2, 3];
    match restore_book(&bytes) {
        Err(OrderBookError::DeserializationError) => {}
        _ => panic!("expected a deserialization error"),
    }
}
