use vstd::prelude::*;

use std::collections::HashMap;

use crate::shared::types::{Candle, SimTime, StockId, Trade};
use crate::sim::book_model::{cancel_spec, submit_spec, BookModel};
use crate::sim::event_queue::{
    drain_order, lemma_sorted_member, EventQueue, OrderAction, OrderEvent,
};
use crate::sim::exchange::LimitOrderBook;

verus! {

pub const MICROS_PER_MINUTE: u64 = 60_000_000;

/// Start of the minute that contains `clock`.
pub open spec fn minute_start(clock: SimTime) -> SimTime {
    ((clock / MICROS_PER_MINUTE) * MICROS_PER_MINUTE) as u64
}

pub open spec fn on_current_candle(cs: Seq<Candle>, ms: SimTime) -> bool {
    cs.len() > 0 && cs.last().sim_time == ms
}

/// Records one trade: it extends the last candle if that candle is for minute `ms`, and
/// opens a new candle otherwise.
pub open spec fn candle_after(cs: Seq<Candle>, t: Trade, ms: SimTime) -> Seq<Candle> {
    if on_current_candle(cs, ms) {
        let c = cs.last();
        cs.update(
            cs.len() - 1,
            Candle {
                high: if t.price > c.high { t.price } else { c.high },
                low: if t.price < c.low { t.price } else { c.low },
                close: t.price,
                volume: (c.volume + t.size) as u64,
                ..c
            },
        )
    } else {
        cs.push(Candle { open: t.price, high: t.price, low: t.price, close: t.price, volume: t.size as u64, sim_time: ms })
    }
}

/// The volume of the candle a trade extends stays within `u64`.
pub open spec fn candle_fits(cs: Seq<Candle>, t: Trade, ms: SimTime) -> bool {
    on_current_candle(cs, ms) ==> cs.last().volume + t.size <= u64::MAX
}

pub open spec fn candles_after(cs: Seq<Candle>, ts: Seq<Trade>, ms: SimTime) -> Seq<Candle>
    decreases ts.len(),
{
    if ts.len() == 0 {
        cs
    } else {
        candles_after(candle_after(cs, ts[0], ms), ts.drop_first(), ms)
    }
}

pub open spec fn candles_fit(cs: Seq<Candle>, ts: Seq<Trade>, ms: SimTime) -> bool
    decreases ts.len(),
{
    ts.len() == 0 || (candle_fits(cs, ts[0], ms) && candles_fit(candle_after(cs, ts[0], ms), ts.drop_first(), ms))
}

/// What the simulation holds besides its clock: the book and candles of each stock, and the tape.
#[verifier::ext_equal]
pub struct SimModel {
    pub books: Map<StockId, BookModel>,
    pub candles: Map<StockId, Seq<Candle>>,
    pub tape: Seq<Trade>,
}

pub open spec fn book_of(books: Map<StockId, BookModel>, stock: StockId) -> BookModel {
    if books.contains_key(stock) { books[stock] } else { BookModel::empty() }
}

pub open spec fn candles_of(candles: Map<StockId, Seq<Candle>>, stock: StockId) -> Seq<Candle> {
    if candles.contains_key(stock) { candles[stock] } else { seq![] }
}

/// The book that an event leaves for its stock (an empty book if the stock had none) and the
/// trades it causes.
pub open spec fn event_outcome(books: Map<StockId, BookModel>, e: OrderEvent, now: SimTime) -> (BookModel, Seq<Trade>) {
    let book = book_of(books, e.stock_id);
    match e.action {
        OrderAction::Submit(o) => submit_spec(book, o, now),
        OrderAction::Cancel(id) => (cancel_spec(book, id).0, seq![]),
    }
}

/// Applies one event at time `now`: the stock's book is updated, and its trades go to the
/// stock's candles and to the tape.
pub open spec fn apply_event(m: SimModel, e: OrderEvent, now: SimTime) -> SimModel {
    let (b, ts) = event_outcome(m.books, e, now);
    let stock = e.stock_id;
    if ts.len() > 0 {
        SimModel {
            books: m.books.insert(stock, b),
            candles: m.candles.insert(stock, candles_after(candles_of(m.candles, stock), ts, minute_start(now))),
            tape: m.tape + ts,
        }
    } else {
        SimModel { books: m.books.insert(stock, b), ..m }
    }
}

pub open spec fn event_fits(m: SimModel, e: OrderEvent, now: SimTime) -> bool {
    let (b, ts) = event_outcome(m.books, e, now);
    ts.len() > 0 ==> candles_fit(candles_of(m.candles, e.stock_id), ts, minute_start(now))
}

pub open spec fn run_events(m: SimModel, events: Seq<OrderEvent>, now: SimTime) -> SimModel
    decreases events.len(),
{
    if events.len() == 0 {
        m
    } else {
        run_events(apply_event(m, events[0], now), events.drop_first(), now)
    }
}

/// No candle volume overflows while the events run.
pub open spec fn events_fit(m: SimModel, events: Seq<OrderEvent>, now: SimTime) -> bool
    decreases events.len(),
{
    events.len() == 0 || (event_fits(m, events[0], now) && events_fit(apply_event(m, events[0], now), events.drop_first(), now))
}

/// Every submitted order is valid.
pub open spec fn events_valid(events: Seq<OrderEvent>) -> bool {
    forall|i: int| 0 <= i < events.len() ==> match (#[trigger] events[i]).action {
        OrderAction::Submit(o) => o.valid(),
        OrderAction::Cancel(_) => true,
    }
}

pub struct SimState {
    pub clock: SimTime,
    pub tick_size_us: u64,
    pub books: HashMap<StockId, LimitOrderBook>,
    pub event_queue: EventQueue,
    pub candles: HashMap<StockId, Vec<Candle>>,
    pub tape: Vec<Trade>,
}

/// Records one trade in the candles of its stock.
fn record_trade(candles: &mut Vec<Candle>, trade: &Trade, minute_start: SimTime)
    requires
        candle_fits(old(candles)@, *trade, minute_start),
    ensures
        final(candles)@ == candle_after(old(candles)@, *trade, minute_start),
{
    let n = candles.len();
    if n > 0 && candles[n - 1].sim_time == minute_start {
        let mut c = candles[n - 1];
        if trade.price > c.high {
            c.high = trade.price;
        }
        if trade.price < c.low {
            c.low = trade.price;
        }
        c.close = trade.price;
        c.volume = c.volume + trade.size as u64;
        candles.set(n - 1, c);
    } else {
        candles.push(Candle {
            open: trade.price,
            high: trade.price,
            low: trade.price,
            close: trade.price,
            volume: trade.size as u64,
            sim_time: minute_start,
        });
    }
}

fn record_trades(candles: &mut Vec<Candle>, trades: &Vec<Trade>, minute_start: SimTime)
    requires
        candles_fit(old(candles)@, trades@, minute_start),
    ensures
        final(candles)@ == candles_after(old(candles)@, trades@, minute_start),
{
    let mut i: usize = 0;
    proof {
        assert(trades@.skip(0) =~= trades@);
    }
    while i < trades.len()
        invariant
            i <= trades.len(),
            candles_after(candles@, trades@.skip(i as int), minute_start) == candles_after(old(candles)@, trades@, minute_start),
            candles_fit(candles@, trades@.skip(i as int), minute_start),
        decreases trades.len() - i,
    {
        proof {
            assert(trades@.skip(i as int)[0] == trades@[i as int]);
            assert(trades@.skip(i as int).drop_first() =~= trades@.skip(i + 1));
        }
        record_trade(candles, &trades[i], minute_start);
        i = i + 1;
    }
    proof {
        assert(trades@.skip(i as int) =~= Seq::<Trade>::empty());
    }
}

impl SimState {
    pub open spec fn model(&self) -> SimModel {
        SimModel {
            books: self.books@.map_values(|b: LimitOrderBook| b@),
            candles: self.candles@.map_values(|v: Vec<Candle>| v@),
            tape: self.tape@,
        }
    }

    pub open spec fn wf(&self) -> bool {
        &&& self.event_queue.wf()
        &&& forall|k: StockId| #[trigger] self.books@.contains_key(k) ==> self.books@[k].wf()
    }

    pub fn new(tick_size_us: u64) -> (s: Self)
        ensures
            s.wf(),
            s.clock == 0,
            s.tick_size_us == tick_size_us,
            s.event_queue@ == Seq::<OrderEvent>::empty(),
            s.model() == (SimModel { books: Map::empty(), candles: Map::empty(), tape: seq![] }),
    {
        let s = SimState {
            clock: 0,
            tick_size_us,
            books: HashMap::new(),
            event_queue: EventQueue::new(),
            candles: HashMap::new(),
            tape: Vec::new(),
        };
        assert(s.model() =~= SimModel { books: Map::empty(), candles: Map::empty(), tape: seq![] });
        s
    }

    /// Advances the simulation by one tick: drains the pending events in offset order into the
    /// books at the current clock, records their trades in candles and on the tape, then
    /// advances the clock by the tick size.
    pub fn tick(&mut self)
        requires
            old(self).wf(),
            old(self).clock + old(self).tick_size_us <= u64::MAX,
            events_valid(old(self).event_queue@),
            events_fit(old(self).model(), drain_order(old(self).event_queue@), old(self).clock),
        ensures
            final(self).wf(),
            final(self).clock == old(self).clock + old(self).tick_size_us,
            final(self).tick_size_us == old(self).tick_size_us,
            final(self).event_queue@ == Seq::<OrderEvent>::empty(),
            final(self).model() == run_events(old(self).model(), drain_order(old(self).event_queue@), old(self).clock),
    {
        let ghost pending = self.event_queue@;
        let events = self.event_queue.drain_sorted();
        let ghost ev = events@;
        let ghost target = run_events(old(self).model(), ev, self.clock);
        proof {
            assert forall|i: int| 0 <= i < ev.len() implies match (#[trigger] ev[i]).action {
                OrderAction::Submit(o) => o.valid(),
                OrderAction::Cancel(_) => true,
            } by {
                lemma_sorted_member(ev, pending, i);
                let j = choose|j: int| 0 <= j < pending.len() && pending[j] == ev[i];
                assert(pending[j] == ev[i]);
            }
            assert(ev.skip(0) =~= ev);
        }
        let now = self.clock;
        let ms = (now / MICROS_PER_MINUTE) * MICROS_PER_MINUTE;
        let mut i: usize = 0;
        while i < events.len()
            invariant
                i <= events.len(),
                events@ == ev,
                self.clock == now,
                self.clock == old(self).clock,
                self.tick_size_us == old(self).tick_size_us,
                ms == minute_start(now),
                self.event_queue.wf(),
                self.event_queue@ == Seq::<OrderEvent>::empty(),
                forall|k: StockId| #[trigger] self.books@.contains_key(k) ==> self.books@[k].wf(),
                events_valid(ev),
                run_events(self.model(), ev.skip(i as int), now) == target,
                events_fit(self.model(), ev.skip(i as int), now),
            decreases events.len() - i,
        {
            let ghost m0 = self.model();
            proof {
                assert(ev.skip(i as int)[0] == ev[i as int]);
                assert(ev.skip(i as int).drop_first() =~= ev.skip(i + 1));
            }
            let event = events[i];
            let stock = event.stock_id;
            let mut book = match self.books.remove(&stock) {
                Some(b) => b,
                None => LimitOrderBook::new(),
            };
            assert(book@ == book_of(m0.books, stock));
            let mut trades = match event.action {
                OrderAction::Submit(order) => {
                    assert(ev[i as int].action == OrderAction::Submit(order));
                    book.submit(order, now)
                },
                OrderAction::Cancel(id) => {
                    let _ = book.cancel(id);
                    Vec::new()
                },
            };
            let ghost ts = trades@;
            assert((book@, ts) == event_outcome(m0.books, event, now));
            self.books.insert(stock, book);
            if trades.len() > 0 {
                let mut stock_candles = match self.candles.remove(&stock) {
                    Some(c) => c,
                    None => Vec::new(),
                };
                assert(stock_candles@ == candles_of(m0.candles, stock));
                record_trades(&mut stock_candles, &trades, ms);
                self.candles.insert(stock, stock_candles);
                self.tape.append(&mut trades);
            }
            proof {
                assert(self.model() =~= apply_event(m0, event, now));
            }
            i = i + 1;
        }
        proof {
            assert(ev.skip(i as int) =~= Seq::<OrderEvent>::empty());
        }
        self.clock = self.clock + self.tick_size_us;
    }
}

} // verus!
