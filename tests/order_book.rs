use match_engine::order_book::{MatchError, OrderBook, OrderSide};
use match_engine::price::Price;

fn px(v: i64) -> Price {
    Price::from_int(v)
}

// Both orders are at 100, so the bid crosses the resting ask and trades
// 50 of it: one ask level with one order of 50 remains, and no bid rests.
#[test]
fn test_add_order() {
    let mut order_book = OrderBook::new();
    order_book.add_order(OrderSide::Ask, px(100), 100, 0).unwrap();
    let r = order_book.add_order(OrderSide::Bid, px(100), 50, 0).unwrap();

    assert_eq!(r.trades.len(), 1);
    assert_eq!(r.trades[0].size, 50);

    // Assert number of price levels
    assert_eq!(order_book.level_count(OrderSide::Ask), 1);
    assert_eq!(order_book.level_count(OrderSide::Bid), 0);

    // Assert number of orders resting
    let asks = order_book.orders(OrderSide::Ask);
    let bids = order_book.orders(OrderSide::Bid);
    assert_eq!(asks.len(), 1);
    assert_eq!(bids.len(), 0);

    assert_eq!(asks[0].price.mantissa, 100);
    assert_eq!(asks[0].size, 50);
}

#[test]
fn scenario_ask_then_smaller_bid() {
    let mut book = OrderBook::new();
    let a = book.add_order(OrderSide::Ask, px(100), 10, 0).unwrap();
    assert!(a.trades.is_empty());
    let b = book.add_order(OrderSide::Bid, px(100), 5, 0).unwrap();
    assert_eq!(b.trades.len(), 1);
    assert_eq!(b.trades[0].price.mantissa, 100);
    assert_eq!(b.trades[0].size, 5);
    assert_eq!(b.resting_order_id, None);
    let asks = book.orders(OrderSide::Ask);
    assert_eq!(asks.len(), 1);
    assert_eq!(asks[0].id, a.resting_order_id.unwrap());
    assert_eq!(asks[0].size, 5);
}

#[test]
fn scenario_trade_at_maker_price() {
    let mut book = OrderBook::new();
    book.add_order(OrderSide::Ask, px(100), 10, 0).unwrap();
    let b = book.add_order(OrderSide::Bid, px(101), 10, 0).unwrap();
    assert_eq!(b.trades.len(), 1);
    assert_eq!(b.trades[0].price.mantissa, 100);
    assert_eq!(b.trades[0].price.scale, 0);
    assert_eq!(b.trades[0].size, 10);
    assert_eq!(b.resting_order_id, None);
    assert!(book.orders(OrderSide::Ask).is_empty());
    assert!(book.orders(OrderSide::Bid).is_empty());
}

#[test]
fn scenario_fifo_within_level() {
    let mut book = OrderBook::new();
    let a = book.add_order(OrderSide::Ask, px(100), 3, 0).unwrap().resting_order_id.unwrap();
    let b = book.add_order(OrderSide::Ask, px(100), 4, 0).unwrap().resting_order_id.unwrap();
    let r = book.add_order(OrderSide::Bid, px(100), 5, 0).unwrap();
    assert_eq!(r.trades.len(), 2);
    assert_eq!(r.trades[0].maker_id, a);
    assert_eq!(r.trades[0].size, 3);
    assert_eq!(r.trades[1].maker_id, b);
    assert_eq!(r.trades[1].size, 2);
    assert!(r.trades[0].seq < r.trades[1].seq);
    let asks = book.orders(OrderSide::Ask);
    assert_eq!(asks.len(), 1);
    assert_eq!(asks[0].id, b);
    assert_eq!(asks[0].size, 2);
    assert_eq!(r.resting_order_id, None);
}

#[test]
fn scenario_cancel_unknown_id() {
    let mut book = OrderBook::new();
    assert_eq!(book.cancel_order(42), Err(MatchError::OrderNotFound));
    book.add_order(OrderSide::Bid, px(99), 1, 0).unwrap();
    assert_eq!(book.cancel_order(4242), Err(MatchError::OrderNotFound));
}

#[test]
fn scenario_bid_into_empty_book_rests() {
    let mut book = OrderBook::new();
    let r = book.add_order(OrderSide::Bid, px(99), 1, 0).unwrap();
    assert!(r.trades.is_empty());
    let bids = book.orders(OrderSide::Bid);
    assert_eq!(bids.len(), 1);
    assert_eq!(bids[0].price.mantissa, 99);
    assert_eq!(bids[0].size, 1);
    assert_eq!(Some(bids[0].id), r.resting_order_id);
    assert_eq!(book.best_bid().unwrap().mantissa, 99);
    assert!(book.best_ask().is_none());
}

#[test]
fn price_priority_beats_time() {
    let mut book = OrderBook::new();
    let worse = book.add_order(OrderSide::Ask, px(102), 5, 0).unwrap().resting_order_id.unwrap();
    let better = book.add_order(OrderSide::Ask, px(101), 5, 0).unwrap().resting_order_id.unwrap();
    let r = book.add_order(OrderSide::Bid, px(105), 7, 0).unwrap();
    assert_eq!(r.trades.len(), 2);
    assert_eq!(r.trades[0].maker_id, better);
    assert_eq!(r.trades[0].price.mantissa, 101);
    assert_eq!(r.trades[0].size, 5);
    assert_eq!(r.trades[1].maker_id, worse);
    assert_eq!(r.trades[1].price.mantissa, 102);
    assert_eq!(r.trades[1].size, 2);
}

#[test]
fn bids_sweep_from_highest() {
    let mut book = OrderBook::new();
    let low = book.add_order(OrderSide::Bid, px(97), 2, 0).unwrap().resting_order_id.unwrap();
    let high = book.add_order(OrderSide::Bid, px(99), 2, 0).unwrap().resting_order_id.unwrap();
    let r = book.add_order(OrderSide::Ask, px(96), 3, 0).unwrap();
    assert_eq!(r.trades.len(), 2);
    assert_eq!(r.trades[0].maker_id, high);
    assert_eq!(r.trades[0].price.mantissa, 99);
    assert_eq!(r.trades[1].maker_id, low);
    assert_eq!(r.trades[1].size, 1);
    assert_eq!(r.resting_order_id, None);
}

#[test]
fn remainder_rests_and_book_stays_uncrossed() {
    let mut book = OrderBook::new();
    book.add_order(OrderSide::Ask, px(100), 2, 0).unwrap();
    book.add_order(OrderSide::Ask, px(103), 2, 0).unwrap();
    let r = book.add_order(OrderSide::Bid, px(101), 5, 0).unwrap();
    assert_eq!(r.trades.len(), 1);
    assert_eq!(r.trades[0].size, 2);
    let id = r.resting_order_id.unwrap();
    let bids = book.orders(OrderSide::Bid);
    assert_eq!(bids.len(), 1);
    assert_eq!(bids[0].id, id);
    assert_eq!(bids[0].size, 3);
    assert_eq!(bids[0].original_size, 5);
    let best_bid = book.best_bid().unwrap();
    let best_ask = book.best_ask().unwrap();
    assert!(best_bid.mantissa < best_ask.mantissa);
    assert_eq!(best_ask.mantissa, 103);
}

#[test]
fn conservation_of_size() {
    let mut book = OrderBook::new();
    book.add_order(OrderSide::Ask, px(10), 4, 0).unwrap();
    book.add_order(OrderSide::Ask, px(11), 6, 0).unwrap();
    let before: u64 = book.orders(OrderSide::Ask).iter().map(|o| o.size).sum();
    let r = book.add_order(OrderSide::Bid, px(11), 7, 0).unwrap();
    let after: u64 = book.orders(OrderSide::Ask).iter().map(|o| o.size).sum();
    let traded: u64 = r.trades.iter().map(|t| t.size).sum();
    assert_eq!(traded, 7);
    assert_eq!(before - after, traded);
    assert_eq!(r.resting_order_id, None);
}

#[test]
fn cancel_twice_and_no_trades() {
    let mut book = OrderBook::new();
    let id = book.add_order(OrderSide::Ask, px(100), 4, 0).unwrap().resting_order_id.unwrap();
    let other = book.add_order(OrderSide::Ask, px(100), 6, 0).unwrap().resting_order_id.unwrap();
    assert_eq!(book.cancel_order(id), Ok(()));
    assert_eq!(book.cancel_order(id), Err(MatchError::OrderNotFound));
    let asks = book.orders(OrderSide::Ask);
    assert_eq!(asks.len(), 1);
    assert_eq!(asks[0].id, other);
    assert_eq!(asks[0].size, 6);
    let r = book.add_order(OrderSide::Bid, px(100), 1, 0).unwrap();
    assert_eq!(r.trades[0].maker_id, other);
}

#[test]
fn invalid_orders_are_refused() {
    let mut book = OrderBook::new();
    assert!(matches!(book.add_order(OrderSide::Bid, px(100), 0, 0), Err(MatchError::InvalidOrder)));
    assert!(matches!(book.add_order(OrderSide::Bid, px(0), 1, 0), Err(MatchError::InvalidOrder)));
    assert!(matches!(book.add_order(OrderSide::Ask, px(-5), 1, 0), Err(MatchError::InvalidOrder)));
    let bad_scale = Price { mantissa: 1, scale: 29 };
    assert!(matches!(book.add_order(OrderSide::Ask, bad_scale, 1, 0), Err(MatchError::InvalidOrder)));
    assert!(book.best_bid().is_none());
    assert!(book.best_ask().is_none());
}

#[test]
fn decimal_prices_compare_by_value() {
    let mut book = OrderBook::new();
    let a = book.add_order(OrderSide::Ask, Price::new(15, 1).unwrap(), 1, 0).unwrap();
    let b = book.add_order(OrderSide::Ask, Price::new(150, 2).unwrap(), 1, 0).unwrap();
    let c = book.add_order(OrderSide::Ask, Price::new(149, 2).unwrap(), 1, 0).unwrap();
    let asks = book.orders(OrderSide::Ask);
    assert_eq!(asks.len(), 3);
    assert_eq!(asks[0].id, c.resting_order_id.unwrap());
    assert_eq!(asks[1].id, a.resting_order_id.unwrap());
    assert_eq!(asks[2].id, b.resting_order_id.unwrap());
    let r = book.add_order(OrderSide::Bid, Price::new(1485, 3).unwrap(), 1, 0).unwrap();
    assert!(r.trades.is_empty());
    assert_eq!(r.resting_order_id.is_some(), true);
    let r2 = book.add_order(OrderSide::Bid, Price::new(2, 0).unwrap(), 2, 0).unwrap();
    assert_eq!(r2.trades.len(), 2);
    assert_eq!(r2.trades[0].price.mantissa, 149);
    assert_eq!(r2.trades[1].price.mantissa, 15);
}

#[test]
fn price_new_checks_range() {
    assert!(Price::new(1, 28).is_some());
    assert!(Price::new(1, 29).is_none());
    assert!(Price::new(79228162514264337593543950335, 0).is_some());
    assert!(Price::new(79228162514264337593543950336, 0).is_none());
    assert!(Price::new(-79228162514264337593543950335, 0).is_some());
}

#[test]
fn ids_increase_and_trades_are_numbered() {
    let mut book = OrderBook::new();
    let a = book.add_order(OrderSide::Ask, px(5), 1, 0).unwrap().resting_order_id.unwrap();
    let b = book.add_order(OrderSide::Ask, px(5), 1, 0).unwrap().resting_order_id.unwrap();
    assert!(a < b);
    let r1 = book.add_order(OrderSide::Bid, px(5), 1, 0).unwrap();
    let r2 = book.add_order(OrderSide::Bid, px(5), 1, 0).unwrap();
    assert_eq!(r1.trades[0].seq + 1, r2.trades[0].seq);
    assert!(r1.trades[0].taker_id < r2.trades[0].taker_id);
}

#[test]
fn level_count_counts_distinct_prices() {
    let mut book = OrderBook::new();
    assert_eq!(book.level_count(OrderSide::Bid), 0);
    book.add_order(OrderSide::Bid, px(90), 1, 0).unwrap();
    book.add_order(OrderSide::Bid, px(95), 1, 0).unwrap();
    book.add_order(OrderSide::Bid, px(90), 1, 0).unwrap();
    book.add_order(OrderSide::Bid, Price::new(900, 1).unwrap(), 1, 0).unwrap();
    assert_eq!(book.level_count(OrderSide::Bid), 2);
    assert_eq!(book.orders(OrderSide::Bid).len(), 4);
    assert_eq!(book.best_bid().unwrap().mantissa, 95);
    assert_eq!(book.level_count(OrderSide::Ask), 0);
}
