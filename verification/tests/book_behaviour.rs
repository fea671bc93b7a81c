use simmarket::shared::types::{Order, OrderType, Price, Side};
use simmarket::sim::exchange::{make_order, LimitOrderBook};

fn px(dollars: f64) -> Price {
    (dollars * 10_000.0).round() as Price
}

fn limit(id: u64, side: Side, price: f64, qty: u32) -> Order {
    make_order(id, id as u32, side, OrderType::Limit, px(price), qty)
}

fn market(id: u64, side: Side, qty: u32) -> Order {
    make_order(id, id as u32, side, OrderType::Market, 0, qty)
}

fn total(trades: &[simmarket::shared::types::Trade]) -> u32 {
    trades.iter().map(|t| t.size).sum()
}

#[test]
fn order_remaining_is_quantity_minus_filled() {
    let mut o = limit(1, Side::Bid, 10.00, 100);
    assert_eq!(o.remaining(), 100);
    o.filled = 30;
    assert_eq!(o.remaining(), 70);
}

#[test]
fn make_order_starts_unfilled() {
    let o = make_order(7, 3, Side::Ask, OrderType::Ioc, 123_400, 9);
    assert_eq!(o.id, 7);
    assert_eq!(o.agent_id, 3);
    assert_eq!(o.side, Side::Ask);
    assert_eq!(o.order_type, OrderType::Ioc);
    assert_eq!(o.price, 123_400);
    assert_eq!(o.quantity, 9);
    assert_eq!(o.filled, 0);
    assert_eq!(o.submitted_at, 0);
    assert!(!o.gtc);
}

#[test]
fn crossing_limit_sweeps_then_rests_below_best_ask() {
    let mut lob = LimitOrderBook::new();
    lob.submit(limit(1, Side::Ask, 10.00, 50), 0);
    lob.submit(limit(2, Side::Ask, 10.02, 50), 0);
    lob.submit(limit(3, Side::Bid, 9.98, 50), 0);
    let trades = lob.submit(limit(4, Side::Bid, 10.01, 80), 1);
    assert_eq!(trades.len(), 1);
    assert_eq!(trades[0].size, 50);
    assert_eq!(trades[0].price, px(10.00));
    assert_eq!(lob.best_bid(), Some(px(10.01)));
    assert_eq!(lob.best_ask(), Some(px(10.02)));
    assert!(lob.best_bid().unwrap() < lob.best_ask().unwrap());
}

#[test]
fn sweep_trades_total_the_fill_in_price_order() {
    let mut lob = LimitOrderBook::new();
    lob.submit(limit(1, Side::Ask, 10.03, 40), 0);
    lob.submit(limit(2, Side::Ask, 10.01, 40), 0);
    lob.submit(limit(3, Side::Ask, 10.02, 40), 0);
    let trades = lob.submit(market(9, Side::Bid, 100), 5);
    assert_eq!(total(&trades), 100);
    let prices: Vec<Price> = trades.iter().map(|t| t.price).collect();
    assert_eq!(prices, vec![px(10.01), px(10.02), px(10.03)]);
    for t in &trades {
        assert_eq!(t.aggressor_order_id, 9);
        assert_eq!(t.aggressor_side, Side::Bid);
        assert_eq!(t.time, 5);
    }
    assert_eq!(lob.best_ask(), Some(px(10.03)));
}

#[test]
fn fok_limit_counts_only_levels_within_limit() {
    let mut lob = LimitOrderBook::new();
    lob.submit(limit(1, Side::Ask, 10.00, 50), 0);
    lob.submit(limit(2, Side::Ask, 10.05, 100), 0);
    let fok = make_order(3, 3, Side::Bid, OrderType::Fok, px(10.01), 100);
    let trades = lob.submit(fok, 1);
    assert!(trades.is_empty());
    assert_eq!(lob.best_ask(), Some(px(10.00)));

    let fok = make_order(4, 4, Side::Bid, OrderType::Fok, px(10.05), 100);
    let trades = lob.submit(fok, 1);
    assert_eq!(total(&trades), 100);
    assert_eq!(trades[0].price, px(10.00));
    assert_eq!(trades[1].price, px(10.05));
    assert_eq!(lob.best_ask(), Some(px(10.05)));
}

#[test]
fn fok_counts_hidden_iceberg_reserve() {
    let mut lob = LimitOrderBook::new();
    let iceberg = make_order(
        1,
        1,
        Side::Ask,
        OrderType::Iceberg { display_qty: 10, hidden_qty: 90 },
        px(10.00),
        10,
    );
    lob.submit(iceberg, 0);
    let fok = make_order(2, 2, Side::Bid, OrderType::Fok, 0, 100);
    let trades = lob.submit(fok, 1);
    assert_eq!(trades.len(), 10);
    assert!(trades.iter().all(|t| t.size == 10 && t.resting_order_id == 1));
    assert!(lob.best_ask().is_none());
}

#[test]
fn cancel_unknown_id_returns_false() {
    let mut lob = LimitOrderBook::new();
    lob.submit(limit(1, Side::Bid, 10.00, 100), 0);
    assert!(!lob.cancel(42));
    assert_eq!(lob.best_bid(), Some(px(10.00)));
}

#[test]
fn cancel_removes_stop_before_it_triggers() {
    let mut lob = LimitOrderBook::new();
    lob.submit(limit(1, Side::Ask, 10.00, 100), 0);
    lob.submit(limit(2, Side::Ask, 10.00, 100), 0);
    let stop = make_order(3, 3, Side::Bid, OrderType::Stop { stop_price: px(10.00) }, 0, 100);
    assert!(lob.submit(stop, 0).is_empty());
    assert!(lob.cancel(3));
    let trades = lob.submit(market(4, Side::Bid, 100), 1);
    assert_eq!(trades.len(), 1);
    assert_eq!(lob.best_ask(), Some(px(10.00)));
}

#[test]
fn sell_stop_triggers_on_trade_at_or_below_its_price() {
    let mut lob = LimitOrderBook::new();
    lob.submit(limit(1, Side::Bid, 10.00, 100), 0);
    lob.submit(limit(2, Side::Bid, 9.90, 100), 0);
    let stop = make_order(3, 3, Side::Ask, OrderType::Stop { stop_price: px(10.00) }, 0, 50);
    lob.submit(stop, 0);
    let trades = lob.submit(market(4, Side::Ask, 100), 1);
    assert_eq!(trades.len(), 2);
    assert_eq!(trades[0].price, px(10.00));
    assert_eq!(trades[1].price, px(9.90));
    assert_eq!(trades[1].aggressor_order_id, 3);
    assert_eq!(trades[1].size, 50);
    assert_eq!(lob.best_bid(), Some(px(9.90)));
}

#[test]
fn triggered_stop_limit_rests_as_limit() {
    let mut lob = LimitOrderBook::new();
    lob.submit(limit(1, Side::Ask, 10.00, 50), 0);
    let stop_limit = make_order(
        2,
        2,
        Side::Bid,
        OrderType::StopLimit { stop_price: px(10.00) },
        px(10.00),
        100,
    );
    lob.submit(stop_limit, 0);
    let trades = lob.submit(market(3, Side::Bid, 50), 1);
    assert_eq!(trades.len(), 1);
    assert!(lob.best_ask().is_none());
    assert_eq!(lob.best_bid(), Some(px(10.00)));
}

#[test]
fn iceberg_aggressor_rests_its_remainder() {
    let mut lob = LimitOrderBook::new();
    lob.submit(limit(1, Side::Ask, 10.00, 30), 0);
    let iceberg = make_order(
        2,
        2,
        Side::Bid,
        OrderType::Iceberg { display_qty: 50, hidden_qty: 200 },
        px(10.00),
        50,
    );
    let trades = lob.submit(iceberg, 1);
    assert_eq!(total(&trades), 30);
    assert_eq!(lob.best_bid(), Some(px(10.00)));
    // 20 shown plus the 200 hidden reserve
    let trades = lob.submit(market(3, Side::Ask, 500), 2);
    assert_eq!(total(&trades), 220);
    assert!(lob.best_bid().is_none());
}

#[test]
fn ioc_takes_any_price() {
    let mut lob = LimitOrderBook::new();
    lob.submit(limit(1, Side::Ask, 10.00, 50), 0);
    let ioc = make_order(2, 2, Side::Bid, OrderType::Ioc, px(9.00), 50);
    let trades = lob.submit(ioc, 1);
    assert_eq!(total(&trades), 50);
}

#[test]
fn insert_limit_and_stop_directly() {
    let mut lob = LimitOrderBook::new();
    lob.insert_limit(limit(1, Side::Bid, 9.50, 10));
    lob.insert_limit(limit(2, Side::Bid, 9.70, 10));
    lob.insert_stop(make_order(3, 3, Side::Bid, OrderType::Stop { stop_price: px(11.00) }, 0, 5));
    assert_eq!(lob.best_bid(), Some(px(9.70)));
    assert!(lob.best_ask().is_none());
    assert!(lob.cancel(3));
    assert!(lob.cancel(2));
    assert_eq!(lob.best_bid(), Some(px(9.50)));
}

#[test]
fn default_book_is_empty() {
    let lob = LimitOrderBook::default();
    assert!(lob.best_bid().is_none());
    assert!(lob.best_ask().is_none());
}

#[test]
fn every_stop_at_or_below_the_trade_triggers_in_price_order() {
    let mut lob = LimitOrderBook::new();
    lob.submit(limit(1, Side::Ask, 10.00, 100), 0);
    lob.submit(limit(2, Side::Ask, 10.01, 200), 0);
    lob.submit(make_order(4, 4, Side::Bid, OrderType::Stop { stop_price: px(10.00) }, 0, 50), 0);
    lob.submit(make_order(3, 3, Side::Bid, OrderType::Stop { stop_price: px(9.90) }, 0, 50), 0);
    lob.submit(make_order(5, 5, Side::Bid, OrderType::Stop { stop_price: px(10.05) }, 0, 50), 0);
    let trades = lob.submit(market(9, Side::Bid, 100), 1);
    assert_eq!(trades.len(), 3);
    assert_eq!((trades[0].aggressor_order_id, trades[0].price, trades[0].size), (9, px(10.00), 100));
    assert_eq!((trades[1].aggressor_order_id, trades[1].price, trades[1].size), (3, px(10.01), 50));
    assert_eq!((trades[2].aggressor_order_id, trades[2].price, trades[2].size), (4, px(10.01), 50));
    // the stop above the last trade price is still waiting
    assert!(lob.cancel(5));
    assert!(!lob.cancel(3));
}

#[test]
fn iceberg_aggressor_trades_its_hidden_reserve() {
    let mut lob = LimitOrderBook::new();
    lob.submit(limit(1, Side::Ask, 10.00, 1000), 0);
    let iceberg = make_order(
        2,
        2,
        Side::Bid,
        OrderType::Iceberg { display_qty: 100, hidden_qty: 400 },
        px(10.00),
        100,
    );
    let trades = lob.submit(iceberg, 1);
    assert_eq!(total(&trades), 500);
    let sizes: Vec<u32> = trades.iter().map(|t| t.size).collect();
    assert_eq!(sizes, vec![100, 100, 100, 100, 100]);
    assert!(trades.iter().all(|t| t.aggressor_order_id == 2 && t.resting_order_id == 1));
    assert!(lob.best_bid().is_none());
    assert_eq!(lob.best_ask(), Some(px(10.00)));
    // 500 of the 1000 remain
    let trades = lob.submit(market(3, Side::Bid, 1000), 2);
    assert_eq!(total(&trades), 500);
}

#[test]
fn iceberg_aggressor_rests_a_fresh_slice_when_the_book_runs_out() {
    let mut lob = LimitOrderBook::new();
    lob.submit(limit(1, Side::Ask, 10.00, 100), 0);
    let iceberg = make_order(
        2,
        2,
        Side::Bid,
        OrderType::Iceberg { display_qty: 100, hidden_qty: 400 },
        px(10.00),
        100,
    );
    let trades = lob.submit(iceberg, 1);
    assert_eq!(total(&trades), 100);
    assert_eq!(lob.best_bid(), Some(px(10.00)));
    // the rested iceberg still holds its 100 shown and 300 hidden
    let trades = lob.submit(market(3, Side::Ask, 1000), 2);
    assert_eq!(total(&trades), 400);
    assert!(lob.best_bid().is_none());
}

#[test]
fn level_is_hit_oldest_first_each_in_full() {
    let mut lob = LimitOrderBook::new();
    lob.submit(limit(1, Side::Ask, 10.00, 30), 0);
    lob.submit(limit(2, Side::Ask, 10.00, 40), 1);
    lob.submit(limit(3, Side::Ask, 10.00, 50), 2);
    let trades = lob.submit(market(4, Side::Bid, 100), 3);
    let hits: Vec<(u64, u32)> = trades.iter().map(|t| (t.resting_order_id, t.size)).collect();
    assert_eq!(hits, vec![(1, 30), (2, 40), (3, 30)]);
    assert!(trades.iter().all(|t| t.price == px(10.00) && t.time == 3));
    // what is left of the third order stays first in line
    let trades = lob.submit(market(5, Side::Bid, 10), 4);
    assert_eq!(trades.len(), 1);
    assert_eq!(trades[0].resting_order_id, 3);
    assert_eq!(trades[0].size, 10);
}
