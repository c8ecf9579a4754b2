use lightning_core::balance::BalanceManager;
use lightning_core::decimal::Decimal;
use lightning_core::matching::{CancelOutcome, MatchingEngine, OrderStatus};
use lightning_core::models::init_global_config;

fn dec(s: &str) -> Decimal {
    Decimal::parse(s).unwrap().1
}

/// Scenario: two crossing limit orders trade at the maker's price, and
/// settlement leaves both parties with conserved, identity-respecting
/// balances.
#[test]
fn test_match_at_maker_price_settles_both_sides() {
    let cfg = init_global_config();
    let mut manager = BalanceManager::new();
    let mut engine = MatchingEngine::new();

    manager.handle_increase(10, 2, "10000").unwrap();
    manager.handle_increase(11, 1, "1").unwrap();

    // A bids 0.1 BTC at 50000: freeze 5000 USDT, then rest on the book
    manager
        .handle_place_order(&cfg, 10, 1, 0, "50000", "0.1")
        .unwrap();
    let (_a_id, trades) = engine
        .place_order(1, 1, 10, 0, 0, "50000", "0.1", 1_000)
        .unwrap();
    assert!(trades.is_empty());

    // B asks 0.1 BTC at 50000: freeze 0.1 BTC, then match
    manager
        .handle_place_order(&cfg, 11, 1, 1, "50000", "0.1")
        .unwrap();
    let (_b_id, trades) = engine
        .place_order(2, 1, 11, 0, 1, "50000", "0.1", 2_000)
        .unwrap();
    assert_eq!(trades.len(), 1);
    let t = &trades[0];
    assert!(t.price.eq_value(&dec("50000")));
    assert!(t.quantity.eq_value(&dec("0.1")));
    assert_eq!(t.buy_account_id, 10);
    assert_eq!(t.sell_account_id, 11);

    // settle both sides on the single shard
    manager.execute_single_trade(&cfg, 0, 1, t).unwrap();

    let a_btc = manager.handle_get_account(10, Some(1)).balances[0];
    let a_usdt = manager.handle_get_account(10, Some(2)).balances[0];
    let b_btc = manager.handle_get_account(11, Some(1)).balances[0];
    let b_usdt = manager.handle_get_account(11, Some(2)).balances[0];

    assert!(a_btc.total.eq_value(&dec("0.1")));
    assert!(a_btc.frozen.eq_value(&dec("0")));
    assert!(a_btc.available.eq_value(&dec("0.1")));
    assert!(a_usdt.total.eq_value(&dec("5000")));
    assert!(a_usdt.frozen.eq_value(&dec("0")));
    assert!(a_usdt.available.eq_value(&dec("5000")));
    assert!(b_btc.total.eq_value(&dec("0.9")));
    assert!(b_btc.frozen.eq_value(&dec("0")));
    assert!(b_btc.available.eq_value(&dec("0.9")));
    assert!(b_usdt.total.eq_value(&dec("5000")));
    assert!(b_usdt.frozen.eq_value(&dec("0")));
    assert!(b_usdt.available.eq_value(&dec("5000")));
}

/// Scenario: a partial fill leaves the residual resting with the collateral
/// still frozen.
#[test]
fn test_partial_fill_rests_residual() {
    let cfg = init_global_config();
    let mut manager = BalanceManager::new();
    let mut engine = MatchingEngine::new();

    manager.handle_increase(20, 2, "10000").unwrap();
    manager
        .handle_place_order(&cfg, 20, 1, 0, "50000", "0.2")
        .unwrap();
    let (bid_id, trades) = engine
        .place_order(1, 1, 20, 0, 0, "50000", "0.2", 1_000)
        .unwrap();
    assert!(trades.is_empty());

    let (_ask_id, trades) = engine
        .place_order(2, 1, 21, 0, 1, "50000", "0.05", 2_000)
        .unwrap();
    assert_eq!(trades.len(), 1);
    assert!(trades[0].quantity.eq_value(&dec("0.05")));
    assert!(trades[0].price.eq_value(&dec("50000")));
    manager.execute_single_trade(&cfg, 0, 1, &trades[0]).unwrap();

    let a_usdt = manager.handle_get_account(20, Some(2)).balances[0];
    assert!(a_usdt.total.eq_value(&dec("7500")));
    assert!(a_usdt.frozen.eq_value(&dec("7500")));
    assert!(a_usdt.available.eq_value(&dec("0")));
    let a_btc = manager.handle_get_account(20, Some(1)).balances[0];
    assert!(a_btc.total.eq_value(&dec("0.05")));

    // the bid still rests with 0.15 remaining
    let book = engine.get_order_book(1).unwrap();
    assert_eq!(book.bids.len(), 1);
    assert_eq!(book.bids[0].orders.len(), 1);
    assert_eq!(book.bids[0].orders[0].id, bid_id);
    assert!(book.bids[0].total_quantity.eq_value(&dec("0.15")));
}

/// Scenario: a taker sweeping two ask levels pays each maker's price, best
/// first.
#[test]
fn test_price_improvement_for_taker() {
    let mut engine = MatchingEngine::new();
    engine
        .place_order(1, 1, 30, 0, 1, "50000", "0.1", 1_000)
        .unwrap();
    engine
        .place_order(2, 1, 31, 0, 1, "51000", "0.2", 2_000)
        .unwrap();

    let (_id, trades) = engine
        .place_order(3, 1, 32, 0, 0, "51000", "0.2", 3_000)
        .unwrap();
    assert_eq!(trades.len(), 2);
    assert!(trades[0].price.eq_value(&dec("50000")));
    assert!(trades[0].quantity.eq_value(&dec("0.1")));
    assert!(trades[1].price.eq_value(&dec("51000")));
    assert!(trades[1].quantity.eq_value(&dec("0.1")));
    // taker pays 50000*0.1 + 51000*0.1 = 10100
    let paid = trades[0]
        .price
        .checked_mul(&trades[0].quantity)
        .unwrap()
        .checked_add(&trades[1].price.checked_mul(&trades[1].quantity).unwrap())
        .unwrap();
    assert!(paid.eq_value(&dec("10100")));
}

/// Scenario: two asks at one price fill in arrival order.
#[test]
fn test_fifo_at_one_price() {
    let mut engine = MatchingEngine::new();
    let (first_ask, _) = engine
        .place_order(1, 1, 40, 0, 1, "50000", "0.1", 1_000)
        .unwrap();
    let (second_ask, _) = engine
        .place_order(2, 1, 41, 0, 1, "50000", "0.1", 2_000)
        .unwrap();

    let (_id, trades) = engine
        .place_order(3, 1, 42, 0, 0, "50000", "0.1", 3_000)
        .unwrap();
    assert_eq!(trades.len(), 1);
    assert_eq!(trades[0].sell_order_id, first_ask);
    assert_eq!(trades[0].sell_account_id, 40);

    // the later arrival still rests untouched
    let book = engine.get_order_book(1).unwrap();
    assert_eq!(book.asks.len(), 1);
    assert_eq!(book.asks[0].orders.len(), 1);
    assert_eq!(book.asks[0].orders[0].id, second_ask);
    assert!(book.asks[0].orders[0].filled_quantity.eq_value(&dec("0")));
}

/// Scenario: cancelling a resting order removes it and reports its state;
/// cancelling again is not-found; someone else's order is forbidden and
/// left untouched.
#[test]
fn test_cancel_removes_resting_order() {
    let mut engine = MatchingEngine::new();
    let (oid, _) = engine
        .place_order(1, 1, 50, 0, 0, "50000", "1.0", 1_000)
        .unwrap();

    // the wrong owner is refused, and the order still rests
    assert!(matches!(
        engine.cancel_order(1, 51, oid),
        CancelOutcome::Forbidden
    ));
    assert_eq!(engine.get_order_book(1).unwrap().bids[0].orders.len(), 1);

    let cancelled = match engine.cancel_order(1, 50, oid) {
        CancelOutcome::Cancelled(o) => o,
        _ => panic!("expected a cancelled order"),
    };
    assert_eq!(cancelled.id, oid);
    assert_eq!(cancelled.status, OrderStatus::Cancelled);
    assert!(cancelled.quantity.eq_value(&dec("1.0")));
    assert!(cancelled.filled_quantity.eq_value(&dec("0")));

    assert!(matches!(engine.cancel_order(1, 50, oid), CancelOutcome::NotFound));
    assert!(matches!(engine.cancel_order(1, 50, 999), CancelOutcome::NotFound));
    assert!(matches!(engine.cancel_order(77, 50, oid), CancelOutcome::NotFound));
}

/// A market taker consumes the best price and its residual never rests.
#[test]
fn test_market_order_never_rests() {
    let mut engine = MatchingEngine::new();
    engine
        .place_order(1, 1, 60, 0, 1, "50000", "0.1", 1_000)
        .unwrap();
    // market bid for 0.3: fills 0.1, discards the rest
    let (oid, trades) = engine
        .place_order(2, 1, 61, 1, 0, "", "0.3", 2_000)
        .unwrap();
    assert_eq!(trades.len(), 1);
    assert!(trades[0].quantity.eq_value(&dec("0.1")));
    let book = engine.get_order_book(1).unwrap();
    assert!(book.bids.is_empty());
    assert!(book.asks.is_empty());
    // the discarded residual cannot be cancelled
    assert!(matches!(engine.cancel_order(1, 61, oid), CancelOutcome::NotFound));
}

/// Book reads: best bid, best ask, spread, and depth.
#[test]
fn test_market_depth_reads() {
    let mut engine = MatchingEngine::new();
    engine.place_order(1, 1, 70, 0, 0, "49000", "1", 1_000).unwrap();
    engine.place_order(2, 1, 71, 0, 0, "49500", "2", 2_000).unwrap();
    engine.place_order(3, 1, 72, 0, 1, "50500", "3", 3_000).unwrap();
    engine.place_order(4, 1, 73, 0, 1, "50000", "4", 4_000).unwrap();

    let book = engine.get_order_book(1).unwrap();
    assert!(book.get_best_bid().unwrap().eq_value(&dec("49500")));
    assert!(book.get_best_ask().unwrap().eq_value(&dec("50000")));
    assert!(book.get_spread().unwrap().eq_value(&dec("500")));

    let (bids, asks) = book.get_market_depth(1);
    assert_eq!(bids.len(), 1);
    assert_eq!(asks.len(), 1);
    assert!(bids[0].0.eq_value(&dec("49500")));
    assert!(bids[0].1.eq_value(&dec("2")));
    assert!(asks[0].0.eq_value(&dec("50000")));
    assert!(asks[0].1.eq_value(&dec("4")));

    let recent = engine.get_recent_trades(1, 10);
    assert!(recent.is_empty());
}

/// Input errors at the matcher are rejected without touching the book.
#[test]
fn test_matcher_input_errors() {
    let mut engine = MatchingEngine::new();
    assert!(engine.place_order(1, 1, 80, 0, 0, "50000", "abc", 0).is_err());
    assert!(engine.place_order(2, 1, 80, 0, 0, "50000", "-1", 0).is_err());
    assert!(engine.place_order(3, 1, 80, 0, 0, "50000", "0", 0).is_err());
    assert!(engine.place_order(4, 1, 80, 0, 0, "oops", "1", 0).is_err());
    // unknown kind and side codes are rejected up front
    assert!(engine.place_order(5, 1, 80, 2, 0, "50000", "1", 0).is_err());
    assert!(engine.place_order(6, 1, 80, 0, 7, "50000", "1", 0).is_err());
    assert!(engine.get_order_book(1).is_none());
}

/// A fully filled bid taker's residual collateral: it froze at its limit
/// but paid the maker's better price, and the difference is computable and
/// released.
#[test]
fn test_bid_fill_residual_release() {
    let mut engine = MatchingEngine::new();
    engine
        .place_order(1, 1, 90, 0, 1, "50000", "0.1", 1_000)
        .unwrap();
    // the taker bids at 51000, fills fully at 50000
    let (_id, trades) = engine
        .place_order(2, 1, 91, 0, 0, "51000", "0.1", 2_000)
        .unwrap();
    assert_eq!(trades.len(), 1);
    let residual =
        lightning_core::matching::bid_fill_residual(dec("51000"), &trades).unwrap();
    // (51000 - 50000) * 0.1 = 100
    assert!(residual.eq_value(&dec("100")));

    // the sequencer releases it, clamped to the frozen funds
    let mut manager = lightning_core::balance::BalanceManager::new();
    manager.handle_increase(91, 2, "5200").unwrap();
    manager
        .handle_freeze(91, 2, dec("5100"))
        .unwrap();
    manager.release_frozen(91, 2, residual);
    let b = manager.handle_get_account(91, Some(2)).balances[0];
    assert!(b.frozen.eq_value(&dec("5000")));
    assert!(b.available.eq_value(&dec("200")));
    assert!(b.total.eq_value(&dec("5200")));
}
