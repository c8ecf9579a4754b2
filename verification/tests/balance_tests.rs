use lightning_core::balance::{AccountBalance, BalanceManager};
use lightning_core::decimal::Decimal;
use lightning_core::models::{init_global_config, BalanceError};

#[test]
fn test_balance_operations() {
    let mut balance = AccountBalance::new(1);

    // Test increase
    assert!(balance.increase(Decimal::new(100, 0)).is_ok());
    assert_eq!(balance.total, Decimal::new(100, 0));
    assert_eq!(balance.available, Decimal::new(100, 0));
    assert_eq!(balance.frozen, Decimal::zero());

    // Test freeze
    assert!(balance.freeze(Decimal::new(30, 0)).is_ok());
    assert_eq!(balance.total, Decimal::new(100, 0));
    assert_eq!(balance.available, Decimal::new(70, 0));
    assert_eq!(balance.frozen, Decimal::new(30, 0));

    // Test insufficient balance for freeze
    assert!(balance.freeze(Decimal::new(80, 0)).is_err());

    // Test unfreeze
    assert!(balance.unfreeze(Decimal::new(10, 0)).is_ok());
    assert_eq!(balance.total, Decimal::new(100, 0));
    assert_eq!(balance.available, Decimal::new(80, 0));
    assert_eq!(balance.frozen, Decimal::new(20, 0));
}

#[test]
fn test_bid_order_processing() {
    let cfg = init_global_config();
    let mut manager = BalanceManager::new();

    // fund the account with USDT (the quote currency)
    let _ = manager.handle_increase(1, 2, "1000.0");

    // a bid must freeze USDT
    let result = manager.handle_place_order(&cfg, 1, 1, 0, "50000.0", "0.01");
    assert!(result.is_ok());

    let (frozen_currency, frozen_amount) = result.unwrap();
    assert_eq!(frozen_currency, 2); // USDT
    assert_eq!(frozen_amount.to_string(), "500.000"); // 50000 * 0.01 = 500

    // check the balances
    let account_response = manager.handle_get_account(1, Some(2));
    let usdt_balance = &account_response.balances[0];

    assert!(usdt_balance.available.eq_value(&Decimal::new(500, 0)));
    assert!(usdt_balance.frozen.eq_value(&Decimal::new(500, 0)));
    assert!(usdt_balance.total.eq_value(&Decimal::new(1000, 0)));
}

#[test]
fn test_ask_order_processing() {
    let cfg = init_global_config();
    let mut manager = BalanceManager::new();

    // fund the account with BTC (the base currency)
    let _ = manager.handle_increase(1, 1, "1.0");

    // an ask must freeze BTC
    let result = manager.handle_place_order(&cfg, 1, 1, 1, "50000.0", "0.5");
    assert!(result.is_ok());

    let (frozen_currency, frozen_amount) = result.unwrap();
    assert_eq!(frozen_currency, 1); // BTC
    assert_eq!(frozen_amount.to_string(), "0.5"); // quantity

    // check the balances
    let account_response = manager.handle_get_account(1, Some(1));
    let btc_balance = &account_response.balances[0];
    assert_eq!(btc_balance.available.to_string(), "0.5");
    assert_eq!(btc_balance.frozen.to_string(), "0.5");
    assert_eq!(btc_balance.total.to_string(), "1.0");
}

#[test]
fn test_insufficient_balance_order() {
    let cfg = init_global_config();
    let mut manager = BalanceManager::new();

    // place an order without funding the account first
    let result = manager.handle_place_order(&cfg, 1, 1, 0, "50000.0", "0.01");
    assert!(result.is_err());

    match result {
        Err(BalanceError::InsufficientBalance) => {}
        _ => panic!("Expected InsufficientBalance error"),
    }
}

#[test]
fn test_invalid_symbol_order() {
    let cfg = init_global_config();
    let mut manager = BalanceManager::new();

    // use a trading pair that does not exist
    let result = manager.handle_place_order(&cfg, 1, 999, 0, "50000.0", "0.01");
    assert!(result.is_err());

    match result {
        Err(BalanceError::CurrencyNotFound) => {}
        _ => panic!("Expected CurrencyNotFound error"),
    }
}

#[test]
fn test_invalid_amount_errors() {
    let mut manager = BalanceManager::new();
    assert!(matches!(
        manager.handle_increase(1, 1, "abc"),
        Err(BalanceError::InvalidAmount(_))
    ));
    assert!(matches!(
        manager.handle_increase(1, 1, "-5"),
        Err(BalanceError::InvalidAmount(_))
    ));
    assert!(matches!(
        manager.handle_increase(1, 1, "0"),
        Err(BalanceError::InvalidAmount(_))
    ));
    assert!(matches!(
        manager.handle_decrease(1, 1, "5."),
        Err(BalanceError::InvalidAmount(_))
    ));
}

#[test]
fn test_decrease_needs_available() {
    let mut manager = BalanceManager::new();
    let _ = manager.handle_increase(7, 2, "10");
    assert!(matches!(
        manager.handle_decrease(7, 2, "11"),
        Err(BalanceError::InsufficientBalance)
    ));
    let after = manager.handle_decrease(7, 2, "4").unwrap();
    assert!(after.total.eq_value(&Decimal::new(6, 0)));
    assert!(after.available.eq_value(&Decimal::new(6, 0)));
}

#[test]
fn test_get_account_unknown_is_404() {
    let manager = BalanceManager::new();
    let reply = manager.handle_get_account(42, None);
    assert_eq!(reply.code, 404);
    assert!(reply.balances.is_empty());
}

#[test]
fn test_cancel_round_trip_balances() {
    // Scenario: place a bid freezing 50000, cancel it, and the triple
    // returns to exactly its pre-place values.
    let cfg = init_global_config();
    let mut manager = BalanceManager::new();
    let _ = manager.handle_increase(5, 2, "60000");
    let before = manager.handle_get_account(5, Some(2)).balances[0];

    let (cur, amt) = manager
        .handle_place_order(&cfg, 5, 1, 0, "50000", "1.0")
        .unwrap();
    assert_eq!(cur, 2);
    assert!(amt.eq_value(&Decimal::new(50000, 0)));
    let during = manager.handle_get_account(5, Some(2)).balances[0];
    assert!(during.total.eq_value(&Decimal::new(60000, 0)));
    assert!(during.frozen.eq_value(&Decimal::new(50000, 0)));
    assert!(during.available.eq_value(&Decimal::new(10000, 0)));

    // the matcher refunds via an unfreeze of price * remaining
    let order = lightning_core::matching::Order::new(
        1,
        0,
        1,
        5,
        lightning_core::matching::OrderType::Limit,
        lightning_core::matching::OrderSide::Bid,
        Decimal::new(50000, 0),
        Decimal::new(10, 1),
        0,
    );
    manager.unfreeze_order_balance(&cfg, 0, 1, &order).unwrap();

    let after = manager.handle_get_account(5, Some(2)).balances[0];
    assert!(after.total.eq_value(&before.total));
    assert!(after.frozen.eq_value(&before.frozen));
    assert!(after.available.eq_value(&before.available));
}
