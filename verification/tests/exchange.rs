use simmarket::shared::types::{Order, OrderType, Price, Side};
use simmarket::sim::exchange::{make_order, LimitOrderBook};

/// Dollars to fixed-point ticks of $0.0001.
fn px(dollars: f64) -> Price {
    (dollars * 10_000.0).round() as Price
}

fn limit_bid(id: u64, price: f64, qty: u32) -> Order {
    make_order(id, id as u32, Side::Bid, OrderType::Limit, px(price), qty)
}

fn limit_ask(id: u64, price: f64, qty: u32) -> Order {
    make_order(id, id as u32, Side::Ask, OrderType::Limit, px(price), qty)
}

fn market_bid(id: u64, qty: u32) -> Order {
    make_order(id, id as u32, Side::Bid, OrderType::Market, px(0.0), qty)
}

fn market_ask(id: u64, qty: u32) -> Order {
    make_order(id, id as u32, Side::Ask, OrderType::Market, px(0.0), qty)
}

#[test]
fn limit_order_rests_in_book() {
    let mut lob = LimitOrderBook::new();
    let trades = lob.submit(limit_bid(1, 10.00, 100), 0);
    assert!(trades.is_empty());
    assert_eq!(lob.best_bid(), Some(px(10.00)));
    assert!(lob.best_ask().is_none());
}

#[test]
fn market_order_fills_against_resting_limit() {
    let mut lob = LimitOrderBook::new();
    lob.submit(limit_ask(1, 10.00, 100), 0);
    let trades = lob.submit(market_bid(2, 100), 1);
    assert_eq!(trades.len(), 1);
    assert_eq!(trades[0].price, px(10.00));
    assert_eq!(trades[0].size, 100);
    assert!(lob.best_ask().is_none());
}

#[test]
fn multi_level_sweep() {
    let mut lob = LimitOrderBook::new();
    lob.submit(limit_ask(1, 10.01, 100), 0);
    lob.submit(limit_ask(2, 10.02, 100), 0);
    lob.submit(limit_ask(3, 10.03, 100), 0);
    let trades = lob.submit(market_bid(10, 250), 1);
    assert_eq!(trades.len(), 3);
    assert_eq!(trades[0].size, 100);
    assert_eq!(trades[0].price, px(10.01));
    assert_eq!(trades[1].size, 100);
    assert_eq!(trades[1].price, px(10.02));
    assert_eq!(trades[2].size, 50);
    assert_eq!(trades[2].price, px(10.03));
}

#[test]
fn partial_fill_remainder_rests() {
    let mut lob = LimitOrderBook::new();
    lob.submit(limit_ask(1, 10.00, 50), 0);
    let trades = lob.submit(limit_bid(2, 10.00, 100), 1);
    assert_eq!(trades.len(), 1);
    assert_eq!(trades[0].size, 50);
    assert_eq!(lob.best_bid(), Some(px(10.00)));
    assert!(lob.best_ask().is_none());
}

#[test]
fn ioc_cancels_remainder() {
    let mut lob = LimitOrderBook::new();
    lob.submit(limit_ask(1, 10.00, 50), 0);
    let ioc = make_order(2, 2, Side::Bid, OrderType::Ioc, px(10.00), 100);
    let trades = lob.submit(ioc, 1);
    assert_eq!(trades.len(), 1);
    assert_eq!(trades[0].size, 50);
    assert!(lob.best_bid().is_none());
}

#[test]
fn ioc_no_fill_fully_cancelled() {
    let mut lob = LimitOrderBook::new();
    let ioc = make_order(1, 1, Side::Bid, OrderType::Ioc, px(10.00), 100);
    let trades = lob.submit(ioc, 0);
    assert!(trades.is_empty());
    assert!(lob.best_bid().is_none());
}

#[test]
fn fok_fills_entirely() {
    let mut lob = LimitOrderBook::new();
    lob.submit(limit_ask(1, 10.00, 100), 0);
    let fok = make_order(2, 2, Side::Bid, OrderType::Fok, px(0.0), 100);
    let trades = lob.submit(fok, 1);
    assert_eq!(trades.len(), 1);
    assert_eq!(trades[0].size, 100);
}

#[test]
fn fok_insufficient_liquidity_no_fills() {
    let mut lob = LimitOrderBook::new();
    lob.submit(limit_ask(1, 10.00, 50), 0);
    let fok = make_order(2, 2, Side::Bid, OrderType::Fok, px(0.0), 100);
    let trades = lob.submit(fok, 1);
    assert!(trades.is_empty());
    assert_eq!(lob.best_ask(), Some(px(10.00)));
}

#[test]
fn stop_triggers_and_fills() {
    let mut lob = LimitOrderBook::new();
    lob.submit(limit_ask(1, 10.00, 100), 0);
    lob.submit(limit_ask(3, 10.00, 50), 0);
    let stop = make_order(
        2,
        2,
        Side::Bid,
        OrderType::Stop { stop_price: px(10.00) },
        px(0.0),
        50,
    );
    lob.submit(stop, 0);

    // Market bid fills 100 from ask1 → triggers buy stop → fills 50 from ask3
    let trades = lob.submit(market_bid(10, 100), 1);
    assert!(trades.len() >= 2);
    let total: u32 = trades.iter().map(|t| t.size).sum();
    assert_eq!(total, 150);
}

#[test]
fn stop_cascade() {
    let mut lob = LimitOrderBook::new();
    lob.submit(limit_ask(1, 10.00, 100), 0);
    lob.submit(limit_ask(2, 10.01, 100), 0);
    lob.submit(limit_ask(3, 10.02, 100), 0);

    let stop1 = make_order(
        10,
        10,
        Side::Bid,
        OrderType::Stop { stop_price: px(10.00) },
        px(0.0),
        100,
    );
    let stop2 = make_order(
        11,
        11,
        Side::Bid,
        OrderType::Stop { stop_price: px(10.01) },
        px(0.0),
        100,
    );
    lob.submit(stop1, 0);
    lob.submit(stop2, 0);

    let trades = lob.submit(market_bid(20, 100), 1);
    println!("Stop cascade trades:");
    for t in &trades {
        println!(
            "  price={} size={} aggressor_id={}",
            t.price, t.size, t.aggressor_order_id
        );
    }
    assert_eq!(trades.len(), 3);
    assert_eq!(trades[0].price, px(10.00));
    assert_eq!(trades[1].price, px(10.01));
    assert_eq!(trades[2].price, px(10.02));
    let total: u32 = trades.iter().map(|t| t.size).sum();
    assert_eq!(total, 300);
}

#[test]
fn iceberg_replenishment() {
    let mut lob = LimitOrderBook::new();
    let iceberg = make_order(
        1,
        1,
        Side::Ask,
        OrderType::Iceberg {
            display_qty: 100,
            hidden_qty: 400,
        },
        px(10.00),
        100,
    );
    lob.submit(iceberg, 0);

    let trades = lob.submit(market_bid(10, 250), 1);
    println!("Iceberg trades:");
    for t in &trades {
        println!("  price={} size={}", t.price, t.size);
    }
    assert_eq!(trades.len(), 3);
    let sizes: Vec<u32> = trades.iter().map(|t| t.size).collect();
    assert_eq!(sizes, vec![100, 100, 50]);
}

#[test]
fn cancel_removes_order() {
    let mut lob = LimitOrderBook::new();
    lob.submit(limit_bid(1, 10.00, 100), 0);
    assert!(lob.cancel(1));
    assert!(lob.best_bid().is_none());
}

#[test]
fn manual_five_bids_market_ask_350() {
    // 5 bids at 9.95..9.99, market ask for 350
    let mut lob = LimitOrderBook::new();
    lob.submit(limit_bid(1, 9.95, 100), 0);
    lob.submit(limit_bid(2, 9.96, 100), 0);
    lob.submit(limit_bid(3, 9.97, 100), 0);
    lob.submit(limit_bid(4, 9.98, 100), 0);
    lob.submit(limit_bid(5, 9.99, 100), 0);
    let trades = lob.submit(market_ask(10, 350), 1);
    let total: u32 = trades.iter().map(|t| t.size).sum();
    assert_eq!(total, 350);
    assert_eq!(trades[0].price, px(9.99));
    assert_eq!(trades[0].size, 100);
    assert_eq!(trades[1].price, px(9.98));
    assert_eq!(trades[1].size, 100);
    assert_eq!(trades[2].price, px(9.97));
    assert_eq!(trades[2].size, 100);
    assert_eq!(trades[3].price, px(9.96));
    assert_eq!(trades[3].size, 50);
}

fn five_bids() -> LimitOrderBook {
    let mut lob = LimitOrderBook::new();
    lob.submit(limit_bid(1, 9.95, 100), 0);
    lob.submit(limit_bid(2, 9.96, 100), 0);
    lob.submit(limit_bid(3, 9.97, 100), 0);
    lob.submit(limit_bid(4, 9.98, 100), 0);
    lob.submit(limit_bid(5, 9.99, 100), 0);
    lob
}

#[test]
fn five_bids_best_bid_is_highest_price() {
    let lob = five_bids();
    assert_eq!(lob.best_bid(), Some(px(9.99)));
}

#[test]
fn five_bids_no_asks() {
    let lob = five_bids();
    assert!(lob.best_ask().is_none());
}

#[test]
fn five_bids_no_fills_on_insert() {
    let mut lob = LimitOrderBook::new();
    for (id, price) in [(1u64, 9.95f64), (2, 9.96), (3, 9.97), (4, 9.98), (5, 9.99)] {
        let trades = lob.submit(limit_bid(id, price, 100), 0);
        assert!(trades.is_empty(), "limit bid should rest, not fill");
    }
}

#[test]
fn five_bids_fifo_at_same_price() {
    // Two bids at the same price: first submitted fills first
    let mut lob = LimitOrderBook::new();
    lob.submit(limit_bid(1, 10.00, 60), 0);
    lob.submit(limit_bid(2, 10.00, 60), 0);
    let trades = lob.submit(market_ask(10, 70), 1);
    assert_eq!(trades.len(), 2);
    // Order 1 fully filled (60), order 2 partially filled (10)
    assert_eq!(trades[0].resting_order_id, 1);
    assert_eq!(trades[0].size, 60);
    assert_eq!(trades[1].resting_order_id, 2);
    assert_eq!(trades[1].size, 10);
}

#[test]
fn five_bids_cancel_best_then_check_new_best() {
    let mut lob = five_bids();
    assert!(lob.cancel(5)); // cancel the 9.99 bid
    assert_eq!(lob.best_bid(), Some(px(9.98)));
}

#[test]
fn five_bids_market_ask_exhausts_all_levels() {
    let mut lob = five_bids();
    let trades = lob.submit(market_ask(10, 500), 1);
    assert_eq!(trades.len(), 5);
    let total: u32 = trades.iter().map(|t| t.size).sum();
    assert_eq!(total, 500);
    assert!(lob.best_bid().is_none());
}

#[test]
fn five_bids_limit_ask_only_crosses_eligible_levels() {
    // Limit ask at 9.97 should only fill against bids >= 9.97
    let mut lob = five_bids();
    let ask = make_order(10, 10, Side::Ask, OrderType::Limit, px(9.97), 500);
    let trades = lob.submit(ask, 1);
    // Only 9.99, 9.98, 9.97 are at or above 9.97 — 300 shares total
    let total: u32 = trades.iter().map(|t| t.size).sum();
    assert_eq!(total, 300);
    // Bids at 9.96 and 9.95 still resting
    assert_eq!(lob.best_bid(), Some(px(9.96)));
}

#[test]
fn fok_600_against_500_no_fills() {
    let mut lob = LimitOrderBook::new();
    for (id, price) in [(1u64, 9.95f64), (2, 9.96), (3, 9.97), (4, 9.98), (5, 9.99)] {
        lob.submit(limit_bid(id, price, 100), 0);
    }
    let fok = make_order(10, 10, Side::Ask, OrderType::Fok, px(0.0), 600);
    let trades = lob.submit(fok, 1);
    assert!(trades.is_empty());
    assert_eq!(lob.best_bid(), Some(px(9.99)));
}
