use orderbook_engine::book::{OrderBook, OrderUpdate};
use orderbook_engine::error::{OrderBookError, PriceLevelError};
use orderbook_engine::manager::{
    handle_instrument_create, handle_instrument_delete, handle_order_cancel, handle_order_create,
    handle_order_modify, BookManager, OrderCreateOutcome,
};
use orderbook_engine::order::{Order, OrderKind};
use orderbook_engine::trade::TradeResult;
use orderbook_engine::types::{
    DeleteInstrumentPayload, InstrumentCreatePayload, OrderCancelPayload, OrderCreatePayload,
    OrderModifyPayload, OrderType, Side, TimeInForce,
};

fn limit_payload(id: u64, sym: &str, side: Side, price: u64, qty: u64) -> OrderCreatePayload {
    OrderCreatePayload {
        order_id: id,
        instrument_id: String::from(sym),
        quantity: qty,
        price,
        side,
        time_in_force: TimeInForce::Gtc,
        order_type: OrderType::LIMIT,
    }
}

fn market_payload(id: u64, sym: &str, side: Side, qty: u64) -> OrderCreatePayload {
    OrderCreatePayload {
        order_id: id,
        instrument_id: String::from(sym),
        quantity: qty,
        price: 0,
        side,
        time_in_force: TimeInForce::Gtc,
        order_type: OrderType::MARKET,
    }
}

fn standard(id: u64, price: u64, side: Side, qty: u64) -> Order {
    Order {
        id,
        price,
        side,
        timestamp_ms: 0,
        time_in_force: TimeInForce::Gtc,
        kind: OrderKind::Standard { quantity: qty },
    }
}

#[test]
fn test_simple_cross() {
    let mut manager = BookManager::new();
    handle_instrument_create(
        &mut manager,
        InstrumentCreatePayload { instrument_id: String::from("X") },
    );
    handle_order_create(&mut manager, limit_payload(1, "X", Side::Sell, 100, 10), 0);
    let outcome = handle_order_create(&mut manager, limit_payload(2, "X", Side::Buy, 100, 4), 0);
    match outcome {
        OrderCreateOutcome::AggressiveLimit(m, rest) => {
            assert_eq!(m.transactions.len(), 1);
            assert_eq!(m.transactions[0].price, 100);
            assert_eq!(m.transactions[0].quantity, 4);
            assert_eq!(m.transactions[0].maker_order_id, 1);
            assert_eq!(m.transactions[0].taker_order_id, 2);
            assert_eq!(m.remaining_quantity, 0);
            assert!(rest.is_none());
        }
        _ => panic!("expected an aggressive limit outcome"),
    }
    let book = manager.get_book(&String::from("X")).unwrap();
    assert_eq!(book.best_bid(), None);
    assert_eq!(book.best_ask(), Some(100));
    let asks = book.level_orders(Side::Sell, 100);
    assert_eq!(asks.len(), 1);
    assert_eq!(asks[0].id, 1);
    assert_eq!(asks[0].visible_quantity(), 6);
    assert!(book.has_traded);
    assert_eq!(book.last_trade_price, 100);
}

#[test]
fn test_market_order_on_empty_book() {
    let mut manager = BookManager::new();
    handle_instrument_create(
        &mut manager,
        InstrumentCreatePayload { instrument_id: String::from("X") },
    );
    let outcome = handle_order_create(&mut manager, market_payload(1, "X", Side::Buy, 5), 0);
    match outcome {
        OrderCreateOutcome::Market(Err(OrderBookError::InsufficientLiquidity {
            side,
            requested,
            available,
        })) => {
            assert_eq!(side, Side::Buy);
            assert_eq!(requested, 5);
            assert_eq!(available, 0);
        }
        _ => panic!("expected insufficient liquidity"),
    }
    let book = manager.get_book(&String::from("X")).unwrap();
    assert_eq!(book.best_bid(), None);
    assert_eq!(book.best_ask(), None);
    assert!(!book.has_traded);
}

#[test]
fn test_walk_the_book() {
    let mut manager = BookManager::new();
    handle_instrument_create(
        &mut manager,
        InstrumentCreatePayload { instrument_id: String::from("X") },
    );
    handle_order_create(&mut manager, limit_payload(1, "X", Side::Sell, 100, 3), 0);
    handle_order_create(&mut manager, limit_payload(2, "X", Side::Sell, 101, 5), 0);
    handle_order_create(&mut manager, limit_payload(3, "X", Side::Sell, 102, 10), 0);
    let outcome = handle_order_create(&mut manager, limit_payload(4, "X", Side::Buy, 101, 6), 0);
    match outcome {
        OrderCreateOutcome::AggressiveLimit(m, rest) => {
            assert_eq!(m.transactions.len(), 2);
            assert_eq!(m.transactions[0].price, 100);
            assert_eq!(m.transactions[0].quantity, 3);
            assert_eq!(m.transactions[0].maker_order_id, 1);
            assert_eq!(m.transactions[0].taker_order_id, 4);
            assert_eq!(m.transactions[1].price, 101);
            assert_eq!(m.transactions[1].quantity, 3);
            assert_eq!(m.transactions[1].maker_order_id, 2);
            assert_eq!(m.remaining_quantity, 0);
            assert!(m.is_complete);
            assert!(rest.is_none());
        }
        _ => panic!("expected an aggressive limit outcome"),
    }
    let book = manager.get_book(&String::from("X")).unwrap();
    assert_eq!(book.best_ask(), Some(101));
    let at_101 = book.level_orders(Side::Sell, 101);
    assert_eq!(at_101.len(), 1);
    assert_eq!(at_101[0].id, 2);
    assert_eq!(at_101[0].visible_quantity(), 2);
    let at_102 = book.level_orders(Side::Sell, 102);
    assert_eq!(at_102.len(), 1);
    assert_eq!(at_102[0].id, 3);
    assert_eq!(at_102[0].visible_quantity(), 10);
    assert!(book.level_orders(Side::Sell, 100).is_empty());
}

#[test]
fn test_cancel_then_modify() {
    let mut manager = BookManager::new();
    handle_instrument_create(
        &mut manager,
        InstrumentCreatePayload { instrument_id: String::from("X") },
    );
    handle_order_create(&mut manager, limit_payload(1, "X", Side::Buy, 50, 10), 0);
    let cancel = handle_order_cancel(
        &mut manager,
        OrderCancelPayload { order_id: 1, instrument_id: String::from("X") },
        0,
    );
    assert!(cancel.is_ok());
    let modify = handle_order_modify(
        &mut manager,
        OrderModifyPayload {
            instrument_id: String::from("X"),
            order_id: 1,
            price: 60,
            quantity: 5,
        },
        0,
    );
    assert_eq!(modify, Err(OrderBookError::OrderNotFound(1)));
}

#[test]
fn test_modify_loses_time_priority() {
    let mut manager = BookManager::new();
    handle_instrument_create(
        &mut manager,
        InstrumentCreatePayload { instrument_id: String::from("X") },
    );
    handle_order_create(&mut manager, limit_payload(1, "X", Side::Buy, 50, 5), 0);
    handle_order_create(&mut manager, limit_payload(2, "X", Side::Buy, 50, 5), 0);
    let modify = handle_order_modify(
        &mut manager,
        OrderModifyPayload {
            instrument_id: String::from("X"),
            order_id: 1,
            price: 50,
            quantity: 5,
        },
        0,
    );
    assert!(modify.is_ok());
    let outcome = handle_order_create(&mut manager, limit_payload(3, "X", Side::Sell, 50, 5), 0);
    match outcome {
        OrderCreateOutcome::AggressiveLimit(m, _) => {
            assert_eq!(m.transactions.len(), 1);
            assert_eq!(m.transactions[0].maker_order_id, 2);
            assert_eq!(m.transactions[0].quantity, 5);
        }
        _ => panic!("expected an aggressive limit outcome"),
    }
    let book = manager.get_book(&String::from("X")).unwrap();
    let at_50 = book.level_orders(Side::Buy, 50);
    assert_eq!(at_50.len(), 1);
    assert_eq!(at_50[0].id, 1);
}

#[test]
fn test_post_only_rejection() {
    let mut book = OrderBook::new();
    book.add_limit_order(1, 100, 10, Side::Sell, TimeInForce::Gtc, 0).unwrap();
    let post_only = Order {
        id: 2,
        price: 100,
        side: Side::Buy,
        timestamp_ms: 0,
        time_in_force: TimeInForce::Gtc,
        kind: OrderKind::PostOnly { quantity: 5 },
    };
    let r = book.place_order_in_book(post_only, 0);
    assert_eq!(
        r,
        Err(OrderBookError::PriceCrossing { price: 100, side: Side::Buy, opposite_price: 100 })
    );
    assert_eq!(book.best_bid(), None);
    assert_eq!(book.best_ask(), Some(100));
    let asks = book.level_orders(Side::Sell, 100);
    assert_eq!(asks.len(), 1);
    assert_eq!(asks[0].visible_quantity(), 10);
}

#[test]
fn test_book_never_crossed() {
    let mut book = OrderBook::new();
    book.add_limit_order(1, 95, 10, Side::Buy, TimeInForce::Gtc, 0).unwrap();
    book.add_limit_order(2, 105, 10, Side::Sell, TimeInForce::Gtc, 0).unwrap();
    book.add_limit_order(3, 99, 4, Side::Buy, TimeInForce::Gtc, 0).unwrap();
    let m = book.match_limit_order(4, 6, Side::Buy, 105).unwrap();
    assert_eq!(m.remaining_quantity, 0);
    if let (Some(bid), Some(ask)) = (book.best_bid(), book.best_ask()) {
        assert!(bid < ask);
    }
    book.cancel_order(3).unwrap();
    if let (Some(bid), Some(ask)) = (book.best_bid(), book.best_ask()) {
        assert!(bid < ask);
    }
}

#[test]
fn test_match_quantity_conservation() {
    let mut book = OrderBook::new();
    book.add_limit_order(1, 100, 3, Side::Sell, TimeInForce::Gtc, 0).unwrap();
    book.add_limit_order(2, 101, 4, Side::Sell, TimeInForce::Gtc, 0).unwrap();
    let m = book.match_order(9, Side::Buy, 10, Some(101)).unwrap();
    assert_eq!(m.executed_quantity() + m.remaining_quantity, 10);
    assert_eq!(m.executed_quantity(), 7);
    assert_eq!(m.remaining_quantity, 3);
    assert!(!m.is_complete);
    assert_eq!(m.filled_order_ids.len(), 2);
}

#[test]
fn test_notional_unchanged_by_delivery_order() {
    let mut book = OrderBook::new();
    book.add_limit_order(1, 100, 3, Side::Sell, TimeInForce::Gtc, 0).unwrap();
    book.add_limit_order(2, 101, 4, Side::Sell, TimeInForce::Gtc, 0).unwrap();
    let m = book.match_order(9, Side::Buy, 7, None).unwrap();
    let forward: u128 = m
        .transactions
        .iter()
        .map(|t| t.price as u128 * t.quantity as u128)
        .sum();
    let reversed: u128 = m
        .transactions
        .iter()
        .rev()
        .map(|t| t.price as u128 * t.quantity as u128)
        .sum();
    assert_eq!(forward, reversed);
    assert_eq!(forward, 100 * 3 + 101 * 4);
}

#[test]
fn test_cancel_then_add_rejoins_at_tail() {
    let mut book = OrderBook::new();
    book.add_limit_order(1, 50, 5, Side::Buy, TimeInForce::Gtc, 0).unwrap();
    book.add_limit_order(2, 50, 7, Side::Buy, TimeInForce::Gtc, 0).unwrap();
    book.add_limit_order(3, 50, 9, Side::Buy, TimeInForce::Gtc, 0).unwrap();
    book.cancel_order(1).unwrap();
    book.add_limit_order(1, 50, 5, Side::Buy, TimeInForce::Gtc, 0).unwrap();
    let at_50 = book.level_orders(Side::Buy, 50);
    let ids: Vec<u64> = at_50.iter().map(|o| o.id).collect();
    assert_eq!(ids, vec![2, 3, 1]);
}

#[test]
fn test_instrument_create_and_delete_idempotent() {
    let mut manager = BookManager::new();
    let created = handle_instrument_create(
        &mut manager,
        InstrumentCreatePayload { instrument_id: String::from("X") },
    );
    assert!(created);
    handle_order_create(&mut manager, limit_payload(1, "X", Side::Buy, 50, 5), 0);
    let created_again = handle_instrument_create(
        &mut manager,
        InstrumentCreatePayload { instrument_id: String::from("X") },
    );
    assert!(!created_again);
    let book = manager.get_book(&String::from("X")).unwrap();
    assert_eq!(book.best_bid(), Some(50));
    let deleted = handle_instrument_delete(
        &mut manager,
        DeleteInstrumentPayload { instrument_id: String::from("X") },
    );
    assert!(deleted);
    let deleted_again = handle_instrument_delete(
        &mut manager,
        DeleteInstrumentPayload { instrument_id: String::from("X") },
    );
    assert!(!deleted_again);
    assert!(manager.get_book(&String::from("X")).is_none());
}

#[test]
fn test_implicit_book_creation() {
    let mut manager = BookManager::new();
    handle_order_create(&mut manager, limit_payload(1, "Y", Side::Buy, 40, 5), 0);
    let book = manager.get_book(&String::from("Y")).unwrap();
    assert_eq!(book.best_bid(), Some(40));
}

#[test]
fn test_iceberg_refresh_and_requeue() {
    let mut book = OrderBook::new();
    let iceberg = Order {
        id: 1,
        price: 100,
        side: Side::Sell,
        timestamp_ms: 0,
        time_in_force: TimeInForce::Gtc,
        kind: OrderKind::Iceberg { visible_quantity: 5, hidden_quantity: 8 },
    };
    book.place_order_in_book(iceberg, 0).unwrap();
    book.add_limit_order(2, 100, 100, Side::Sell, TimeInForce::Gtc, 0).unwrap();
    // Consume the iceberg's visible tranche exactly: it refreshes
    // min(hidden, visible) = 5 and re-enters behind order 2.
    let m = book.match_order(9, Side::Buy, 5, Some(100)).unwrap();
    assert_eq!(m.executed_quantity(), 5);
    let at_100 = book.level_orders(Side::Sell, 100);
    assert_eq!(at_100.len(), 2);
    assert_eq!(at_100[0].id, 2);
    assert_eq!(at_100[1].id, 1);
    assert_eq!(at_100[1].visible_quantity(), 5);
    assert_eq!(at_100[1].hidden_quantity(), 3);
}

#[test]
fn test_reserve_replenishes_below_threshold() {
    let mut book = OrderBook::new();
    let reserve = Order {
        id: 1,
        price: 100,
        side: Side::Sell,
        timestamp_ms: 0,
        time_in_force: TimeInForce::Gtc,
        kind: OrderKind::Reserve {
            visible_quantity: 10,
            hidden_quantity: 20,
            replenish_threshold: 5,
            replenish_amount: 7,
            auto_replenish: true,
        },
    };
    book.place_order_in_book(reserve, 0).unwrap();
    // A partial fill of 6 leaves 4 visible, at or below the threshold 5:
    // it tops up by min(7, 20) = 7 to 11 visible, 13 hidden.
    let m = book.match_order(9, Side::Buy, 6, Some(100)).unwrap();
    assert_eq!(m.executed_quantity(), 6);
    let at_100 = book.level_orders(Side::Sell, 100);
    assert_eq!(at_100.len(), 1);
    assert_eq!(at_100[0].visible_quantity(), 11);
    assert_eq!(at_100[0].hidden_quantity(), 13);
}

#[test]
fn test_peek_match_counts_eligible_liquidity() {
    let mut book = OrderBook::new();
    book.add_limit_order(1, 100, 3, Side::Sell, TimeInForce::Gtc, 0).unwrap();
    book.add_limit_order(2, 101, 4, Side::Sell, TimeInForce::Gtc, 0).unwrap();
    book.add_limit_order(3, 102, 5, Side::Sell, TimeInForce::Gtc, 0).unwrap();
    assert_eq!(book.peek_match(Side::Buy, 100, Some(101)), 7);
    assert_eq!(book.peek_match(Side::Buy, 5, Some(101)), 5);
    assert_eq!(book.peek_match(Side::Buy, 100, None), 12);
    assert_eq!(book.peek_match(Side::Sell, 100, None), 0);
    // A read-only simulation: the book is untouched.
    assert_eq!(book.level_orders(Side::Sell, 100).len(), 1);
}

#[test]
fn test_expired_order_rejected_on_entry() {
    let mut book = OrderBook::new();
    let r = book.add_limit_order(1, 100, 5, Side::Buy, TimeInForce::Gtd(1_000), 2_000);
    assert_eq!(r, Err(OrderBookError::InvalidOperation));
    assert_eq!(book.best_bid(), None);
}

#[test]
fn test_expiry_sweep_removes_expired_orders() {
    let mut book = OrderBook::new();
    book.add_limit_order(1, 100, 5, Side::Buy, TimeInForce::Gtd(1_000), 0).unwrap();
    book.add_limit_order(2, 99, 5, Side::Buy, TimeInForce::Gtc, 0).unwrap();
    let removed = book.remove_expired_orders(2_000);
    assert_eq!(removed, vec![1]);
    assert_eq!(book.best_bid(), Some(99));
}

#[test]
fn test_duplicate_id_rejected() {
    let mut book = OrderBook::new();
    book.add_limit_order(1, 100, 5, Side::Buy, TimeInForce::Gtc, 0).unwrap();
    let r = book.add_limit_order(1, 101, 5, Side::Sell, TimeInForce::Gtc, 0);
    assert_eq!(r, Err(OrderBookError::InvalidOperation));
}

#[test]
fn test_zero_price_and_zero_quantity_rejected() {
    let mut book = OrderBook::new();
    assert_eq!(
        book.add_limit_order(1, 0, 5, Side::Buy, TimeInForce::Gtc, 0),
        Err(OrderBookError::InvalidPriceLevel(0))
    );
    assert_eq!(
        book.add_limit_order(1, 100, 0, Side::Buy, TimeInForce::Gtc, 0),
        Err(OrderBookError::PriceLevelError(PriceLevelError::InvalidQuantity))
    );
}

#[test]
fn test_modify_iceberg_rejected() {
    let mut book = OrderBook::new();
    let iceberg = Order {
        id: 1,
        price: 100,
        side: Side::Sell,
        timestamp_ms: 0,
        time_in_force: TimeInForce::Gtc,
        kind: OrderKind::Iceberg { visible_quantity: 5, hidden_quantity: 8 },
    };
    book.place_order_in_book(iceberg, 0).unwrap();
    let r = book.update_order(
        OrderUpdate::UpdatePriceAndQuantity { order_id: 1, new_price: 101, new_quantity: 9 },
        0,
    );
    assert_eq!(r, Err(OrderBookError::InvalidOperation));
    let at_100 = book.level_orders(Side::Sell, 100);
    assert_eq!(at_100.len(), 1);
    assert_eq!(at_100[0].visible_quantity(), 5);
}

#[test]
fn test_time_in_force_expiry_rules() {
    assert!(!TimeInForce::Gtc.is_expired(u64::MAX, Some(0)));
    assert!(!TimeInForce::Ioc.is_expired(u64::MAX, Some(0)));
    assert!(!TimeInForce::Fok.is_expired(u64::MAX, Some(0)));
    assert!(TimeInForce::Gtd(100).is_expired(100, None));
    assert!(!TimeInForce::Gtd(100).is_expired(99, None));
    assert!(TimeInForce::Day.is_expired(500, Some(500)));
    assert!(!TimeInForce::Day.is_expired(499, Some(500)));
    assert!(!TimeInForce::Day.is_expired(u64::MAX, None));
}

#[test]
fn test_side_opposite() {
    assert_eq!(Side::Buy.opposite(), Side::Sell);
    assert_eq!(Side::Sell.opposite(), Side::Buy);
}

#[test]
fn test_trade_result_new() {
    let mut book = OrderBook::new();
    book.add_limit_order(1, 100, 3, Side::Sell, TimeInForce::Gtc, 0).unwrap();
    let m = book.match_order(2, Side::Buy, 3, None).unwrap();
    let tr = TradeResult::new(String::from("X"), m);
    assert_eq!(tr.symbol, "X");
    assert_eq!(tr.match_result.order_id, 2);
    assert!(tr.match_result.is_complete);
}

#[test]
fn test_price_level_change_events() {
    let mut book = OrderBook::new();
    book.add_limit_order(1, 100, 3, Side::Sell, TimeInForce::Gtc, 0).unwrap();
    book.match_order(2, Side::Buy, 2, None).unwrap();
    let events = book.take_price_level_events();
    assert_eq!(events.len(), 2);
    assert_eq!(events[0].side, Side::Sell);
    assert_eq!(events[0].price, 100);
    assert_eq!(events[0].quantity, 3);
    assert_eq!(events[1].side, Side::Sell);
    assert_eq!(events[1].price, 100);
    assert_eq!(events[1].quantity, 1);
    assert!(book.take_price_level_events().is_empty());
}
