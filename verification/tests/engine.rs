use simmarket::shared::types::{Order, OrderType, Price, Side, StockId};
use simmarket::sim::engine::{SimState, MICROS_PER_MINUTE};
use simmarket::sim::event_queue::{OrderAction, OrderEvent};

const STOCK: StockId = 1;
const TICK_MS: u64 = 1_000; // 1 ms in microseconds

/// Dollars to fixed-point ticks of $0.0001.
fn px(dollars: f64) -> Price {
    (dollars * 10_000.0).round() as Price
}

fn limit_order(id: u64, side: Side, price: f64, qty: u32) -> Order {
    Order {
        id,
        agent_id: id as u32,
        side,
        order_type: OrderType::Limit,
        price: px(price),
        quantity: qty,
        filled: 0,
        submitted_at: 0,
        gtc: false,
    }
}

fn market_order(id: u64, side: Side, qty: u32) -> Order {
    Order {
        id,
        agent_id: id as u32,
        side,
        order_type: OrderType::Market,
        price: px(0.0),
        quantity: qty,
        filled: 0,
        submitted_at: 0,
        gtc: false,
    }
}

fn push(state: &mut SimState, offset: u32, order: Order) {
    state.event_queue.push(OrderEvent {
        intra_tick_offset_us: offset,
        agent_id: order.agent_id,
        stock_id: STOCK,
        action: OrderAction::Submit(order),
    });
}

#[test]
fn clock_advances_by_tick_size() {
    let mut state = SimState::new(TICK_MS);
    assert_eq!(state.clock, 0);
    state.tick();
    assert_eq!(state.clock, TICK_MS);
    state.tick();
    assert_eq!(state.clock, 2 * TICK_MS);
}

#[test]
fn events_drain_in_offset_order_within_tick() {
    let mut state = SimState::new(TICK_MS);
    // Ask rests first (lower offset), then market bid sweeps
    push(&mut state, 100, limit_order(1, Side::Ask, 10.00, 100));
    push(&mut state, 200, market_order(2, Side::Bid, 100));
    state.tick();
    assert_eq!(state.tape.len(), 1);
    assert_eq!(state.tape[0].price, px(10.00));
    assert_eq!(state.tape[0].size, 100);
}

#[test]
fn wrong_offset_order_no_trade() {
    // Market bid arrives before ask — no resting liquidity at match time → no trade
    let mut state = SimState::new(TICK_MS);
    push(&mut state, 100, market_order(2, Side::Bid, 100));
    push(&mut state, 200, limit_order(1, Side::Ask, 10.00, 100));
    state.tick();
    assert!(state.tape.is_empty());
}

#[test]
fn trade_ends_up_in_tape() {
    let mut state = SimState::new(TICK_MS);
    push(&mut state, 100, limit_order(1, Side::Ask, 10.00, 100));
    push(&mut state, 200, market_order(2, Side::Bid, 100));
    state.tick();
    assert_eq!(state.tape.len(), 1);
    assert_eq!(state.tape[0].aggressor_order_id, 2);
    assert_eq!(state.tape[0].resting_order_id, 1);
}

#[test]
fn candle_single_trade() {
    let mut state = SimState::new(TICK_MS);
    push(&mut state, 100, limit_order(1, Side::Ask, 10.00, 100));
    push(&mut state, 200, market_order(2, Side::Bid, 100));
    state.tick();
    let candles = state.candles.get(&STOCK).unwrap();
    assert_eq!(candles.len(), 1);
    let c = &candles[0];
    assert_eq!(c.open, px(10.00));
    assert_eq!(c.high, px(10.00));
    assert_eq!(c.low, px(10.00));
    assert_eq!(c.close, px(10.00));
    assert_eq!(c.volume, 100);
    assert_eq!(c.sim_time, 0); // minute 0 starts at t=0
}

#[test]
fn candle_ohlcv_multiple_trades() {
    let mut state = SimState::new(TICK_MS);
    // Three resting asks at different prices; one market bid sweeps all
    push(&mut state, 100, limit_order(1, Side::Ask, 9.99, 100));
    push(&mut state, 200, limit_order(2, Side::Ask, 10.00, 100));
    push(&mut state, 300, limit_order(3, Side::Ask, 10.01, 100));
    push(&mut state, 400, market_order(4, Side::Bid, 300));
    state.tick();
    let candles = state.candles.get(&STOCK).unwrap();
    assert_eq!(candles.len(), 1);
    let c = &candles[0];
    assert_eq!(c.open, px(9.99)); // first trade price
    assert_eq!(c.high, px(10.01));
    assert_eq!(c.low, px(9.99));
    assert_eq!(c.close, px(10.01)); // last trade price
    assert_eq!(c.volume, 300);
}

#[test]
fn candle_new_minute_starts_new_candle() {
    // 1ms ticks; a minute is 60_000_000 µs = 60_000 ticks
    let mut state = SimState::new(TICK_MS);

    // Trade in minute 0
    push(&mut state, 100, limit_order(1, Side::Ask, 10.00, 100));
    push(&mut state, 200, market_order(2, Side::Bid, 100));
    state.tick();

    // Advance clock past the 1-minute mark (60_000 ticks of 1ms each)
    for _ in 0..60_000 {
        state.tick();
    }
    // clock is now at (60_001 * 1_000) = 60_001_000 µs → minute index 1
    assert!(state.clock >= MICROS_PER_MINUTE);

    // Trade in minute 1
    push(&mut state, 100, limit_order(3, Side::Ask, 11.00, 50));
    push(&mut state, 200, market_order(4, Side::Bid, 50));
    state.tick();

    let candles = state.candles.get(&STOCK).unwrap();
    assert_eq!(candles.len(), 2);
    assert_eq!(candles[0].sim_time, 0);
    assert_eq!(candles[0].close, px(10.00));
    assert_eq!(candles[1].sim_time, MICROS_PER_MINUTE);
    assert_eq!(candles[1].open, px(11.00));
    assert_eq!(candles[1].volume, 50);
}

#[test]
fn cancel_removes_resting_order() {
    let mut state = SimState::new(TICK_MS);
    // Submit ask, then cancel it, then try to fill — no trade expected
    push(&mut state, 100, limit_order(1, Side::Ask, 10.00, 100));
    state.event_queue.push(OrderEvent {
        intra_tick_offset_us: 200,
        agent_id: 1,
        stock_id: STOCK,
        action: OrderAction::Cancel(1),
    });
    push(&mut state, 300, market_order(2, Side::Bid, 100));
    state.tick();
    assert!(state.tape.is_empty());
}

#[test]
fn partial_tick_events_do_not_bleed_into_next_tick() {
    let mut state = SimState::new(TICK_MS);
    // Only submit ask in tick 0; market bid arrives in tick 1
    push(&mut state, 100, limit_order(1, Side::Ask, 10.00, 100));
    state.tick(); // ask rests, no trade

    push(&mut state, 100, market_order(2, Side::Bid, 100));
    state.tick(); // bid matches resting ask

    assert_eq!(state.tape.len(), 1);
    // Trade time should be clock at start of tick 1 = TICK_MS
    assert_eq!(state.tape[0].time, TICK_MS);
}

#[test]
fn cancel_for_unknown_stock_opens_an_empty_book() {
    let mut state = SimState::new(TICK_MS);
    state.event_queue.push(OrderEvent {
        intra_tick_offset_us: 0,
        agent_id: 1,
        stock_id: 9,
        action: OrderAction::Cancel(5),
    });
    state.tick();
    let book = state.books.get(&9).unwrap();
    assert!(book.best_bid().is_none());
    assert!(book.best_ask().is_none());
    assert!(state.candles.get(&9).is_none());
}

#[test]
fn candle_tracks_low_on_downward_sweep() {
    let mut state = SimState::new(TICK_MS);
    push(&mut state, 100, limit_order(1, Side::Bid, 10.00, 10));
    push(&mut state, 110, limit_order(2, Side::Bid, 9.90, 10));
    push(&mut state, 120, limit_order(3, Side::Bid, 9.80, 10));
    push(&mut state, 200, market_order(4, Side::Ask, 30));
    state.tick();
    let c = state.candles.get(&STOCK).unwrap()[0];
    assert_eq!(c.open, px(10.00));
    assert_eq!(c.high, px(10.00));
    assert_eq!(c.low, px(9.80));
    assert_eq!(c.close, px(9.80));
    assert_eq!(c.volume, 30);
    assert!(c.low <= c.open && c.open <= c.high && c.low <= c.close && c.close <= c.high);
}

#[test]
fn books_are_kept_per_stock() {
    let mut state = SimState::new(TICK_MS);
    push(&mut state, 100, limit_order(1, Side::Ask, 10.00, 100));
    state.event_queue.push(OrderEvent {
        intra_tick_offset_us: 200,
        agent_id: 2,
        stock_id: 2,
        action: OrderAction::Submit(market_order(2, Side::Bid, 100)),
    });
    state.tick();
    assert!(state.tape.is_empty());
    assert_eq!(state.books.get(&STOCK).unwrap().best_ask(), Some(px(10.00)));
    assert!(state.books.get(&2).unwrap().best_ask().is_none());
}

#[test]
fn books_stay_uncrossed_through_a_tick() {
    let mut state = SimState::new(TICK_MS);
    push(&mut state, 100, limit_order(1, Side::Ask, 10.00, 100));
    push(&mut state, 200, limit_order(2, Side::Bid, 10.05, 50));
    push(&mut state, 300, limit_order(3, Side::Bid, 9.99, 10));
    state.tick();
    let book = state.books.get(&STOCK).unwrap();
    assert_eq!(book.best_ask(), Some(px(10.00)));
    assert_eq!(book.best_bid(), Some(px(9.99)));
    assert_eq!(state.tape.len(), 1);
    assert_eq!(state.tape[0].price, px(10.00));
}
