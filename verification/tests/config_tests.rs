use lightning_core::models::{get_currency, get_symbol, init_global_config};

#[test]
fn test_currency_initialization() {
    let cfg = init_global_config();

    let btc = get_currency(&cfg, 1).unwrap();
    assert_eq!(btc.id, 1);
    assert_eq!(btc.name, "BTC");

    let usdt = get_currency(&cfg, 2).unwrap();
    assert_eq!(usdt.id, 2);
    assert_eq!(usdt.name, "USDT");
}

#[test]
fn test_symbol_initialization() {
    let cfg = init_global_config();

    let btc_usdt = get_symbol(&cfg, 1).unwrap();
    assert_eq!(btc_usdt.id, 1);
    assert_eq!(btc_usdt.name, "BTC-USDT");
    assert_eq!(btc_usdt.base, 1); // BTC
    assert_eq!(btc_usdt.quote, 2); // USDT
}

#[test]
fn test_unknown_ids_are_not_found() {
    let cfg = init_global_config();
    assert!(get_currency(&cfg, 999).is_none());
    assert!(get_symbol(&cfg, 999).is_none());
}
