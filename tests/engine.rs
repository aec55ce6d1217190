use match_engine::engine::{Engine, Pair};
use match_engine::order_book::{MatchError, OrderSide};
use match_engine::price::Price;

fn px(v: i64) -> Price {
    Price::from_int(v)
}

#[test]
fn test_add_market() {
    let mut engine = Engine::new();

    assert!(engine.add_market("BTC", "USDT").is_ok());

    assert_eq!(engine.market_count(), 1);
}

#[test]
fn add_market_twice_is_duplicate() {
    let mut engine = Engine::new();
    assert!(engine.add_market("BTC", "USDT").is_ok());
    assert_eq!(engine.add_market("BTC", "USDT"), Err(MatchError::DuplicateMarket));
    assert!(engine.add_market("ETH", "USDT").is_ok());
    assert!(engine.add_market("USDT", "BTC").is_ok());
    assert_eq!(engine.market_count(), 3);
}

#[test]
fn submit_to_unknown_market_fails() {
    let mut engine = Engine::new();
    assert!(engine.add_market("BTC", "USDT").is_ok());
    let r = engine.submit_order(&Pair::new("ETH", "USDT"), OrderSide::Bid, px(100), 1, 0);
    assert!(matches!(r, Err(MatchError::MarketNotFound)));
    assert_eq!(engine.cancel_order(&Pair::new("ETH", "USDT"), 1), Err(MatchError::MarketNotFound));
}

#[test]
fn engine_scenario_partial_fill_of_resting_ask() {
    let mut engine = Engine::new();
    assert!(engine.add_market("BTC", "USDT").is_ok());
    let pair = Pair::new("BTC", "USDT");
    let first = engine.submit_order(&pair, OrderSide::Ask, px(100), 10, 7).unwrap();
    assert!(first.trades.is_empty());
    let ask_id = first.resting_order_id.unwrap();
    let second = engine.submit_order(&pair, OrderSide::Bid, px(100), 5, 8).unwrap();
    assert_eq!(second.trades.len(), 1);
    assert_eq!(second.trades[0].price.mantissa, 100);
    assert_eq!(second.trades[0].size, 5);
    assert_eq!(second.trades[0].maker_id, ask_id);
    assert_eq!(second.resting_order_id, None);
    let book = engine.book(&pair).unwrap();
    let asks = book.orders(OrderSide::Ask);
    assert_eq!(asks.len(), 1);
    assert_eq!(asks[0].size, 5);
    assert_eq!(asks[0].original_size, 10);
    assert_eq!(asks[0].owner, 7);
    assert!(book.orders(OrderSide::Bid).is_empty());
}

#[test]
fn engine_rejects_invalid_order() {
    let mut engine = Engine::new();
    assert!(engine.add_market("BTC", "USDT").is_ok());
    let pair = Pair::new("BTC", "USDT");
    assert!(matches!(
        engine.submit_order(&pair, OrderSide::Bid, px(100), 0, 0),
        Err(MatchError::InvalidOrder)
    ));
    assert!(matches!(
        engine.submit_order(&pair, OrderSide::Bid, px(0), 1, 0),
        Err(MatchError::InvalidOrder)
    ));
    assert!(engine.book(&pair).unwrap().orders(OrderSide::Bid).is_empty());
}

#[test]
fn engine_cancel_routes_to_book() {
    let mut engine = Engine::new();
    assert!(engine.add_market("BTC", "USDT").is_ok());
    let pair = Pair::new("BTC", "USDT");
    let r = engine.submit_order(&pair, OrderSide::Bid, px(99), 3, 0).unwrap();
    let id = r.resting_order_id.unwrap();
    assert_eq!(engine.cancel_order(&pair, id), Ok(()));
    assert_eq!(engine.cancel_order(&pair, id), Err(MatchError::OrderNotFound));
    assert!(engine.book(&pair).unwrap().best_bid().is_none());
}

#[test]
fn pair_equality_is_by_symbols() {
    assert!(Pair::new("BTC", "USDT") == Pair::new("BTC", "USDT"));
    assert!(Pair::new("BTC", "USDT") != Pair::new("USDT", "BTC"));
}
