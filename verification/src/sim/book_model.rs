use vstd::prelude::*;

use crate::shared::types::{Order, OrderType, Price, Side, SimTime, Trade};

verus! {

/// One price level of a book side: the price and the orders resting there, oldest first.
#[verifier::ext_equal]
pub struct Level {
    pub price: Price,
    pub orders: Seq<Order>,
}

pub open spec fn min_int(a: int, b: int) -> int {
    if a <= b { a } else { b }
}

/// Every order of the queue is valid.
pub open spec fn queue_valid(q: Seq<Order>) -> bool {
    forall|k: int| 0 <= k < q.len() ==> #[trigger] q[k].valid()
}

/// A termination measure for draining one level: each resting order counts one plus its
/// hidden reserve.
pub open spec fn queue_measure(q: Seq<Order>) -> nat
    decreases q.len(),
{
    if q.len() == 0 {
        0
    } else {
        q[0].hidden() + 1 + queue_measure(q.drop_first())
    }
}

/// Sum of the effective quantities (shown plus hidden) of the orders of a queue.
pub open spec fn queue_effective(q: Seq<Order>) -> int
    decreases q.len(),
{
    if q.len() == 0 {
        0
    } else {
        q[0].effective() + queue_effective(q.drop_first())
    }
}

/// The new slice that follows an exhausted iceberg slice, when hidden shares remain:
/// `min(display, hidden)` shares move from hidden to shown, at the back of the level.
pub open spec fn replenish(done: Order) -> Seq<Order> {
    match done.order_type {
        OrderType::Iceberg { display_qty, hidden_qty } => {
            if hidden_qty > 0 {
                let r = min_int(display_qty as int, hidden_qty as int);
                seq![
                    Order {
                        quantity: r as u32,
                        filled: 0,
                        order_type: OrderType::Iceberg {
                            display_qty,
                            hidden_qty: (hidden_qty - r) as u32,
                        },
                        ..done
                    },
                ]
            } else {
                seq![]
            }
        },
        _ => seq![],
    }
}

pub open spec fn make_trade(aggressor: Order, resting: Order, price: Price, size: int, now: SimTime) -> Trade {
    Trade {
        aggressor_order_id: aggressor.id,
        resting_order_id: resting.id,
        aggressor_agent: aggressor.agent_id,
        resting_agent: resting.agent_id,
        price: price,
        size: size as u32,
        aggressor_side: aggressor.side,
        time: now,
    }
}

pub open spec fn add_filled(o: Order, fq: int) -> Order {
    Order { filled: (o.filled + fq) as u32, ..o }
}

/// An iceberg aggressor whose shown slice is used up takes its next slice from its hidden
/// reserve: `min(display, hidden)` shares move from hidden to shown. Any other order is left as
/// it is.
pub open spec fn refill(o: Order) -> Order {
    match o.order_type {
        OrderType::Iceberg { display_qty, hidden_qty } => {
            if o.rem() <= 0 && hidden_qty > 0 {
                let r = min_int(display_qty as int, hidden_qty as int);
                Order {
                    quantity: r as u32,
                    filled: 0,
                    order_type: OrderType::Iceberg { display_qty, hidden_qty: (hidden_qty - r) as u32 },
                    ..o
                }
            } else {
                o
            }
        },
        _ => o,
    }
}

/// `b` is a later state of the order `a`: the same order, with only its fills and, for an
/// iceberg, its slice and hidden reserve changed.
pub open spec fn continues(a: Order, b: Order) -> bool {
    &&& b.id == a.id
    &&& b.agent_id == a.agent_id
    &&& b.side == a.side
    &&& b.price == a.price
    &&& b.submitted_at == a.submitted_at
    &&& b.gtc == a.gtc
    &&& match a.order_type {
        OrderType::Iceberg { display_qty, .. } => match b.order_type {
            OrderType::Iceberg { display_qty: d, .. } => d == display_qty,
            _ => false,
        },
        _ => b.order_type == a.order_type && b.quantity == a.quantity && a.filled <= b.filled,
    }
}

pub proof fn lemma_continues_trans(a: Order, b: Order, c: Order)
    requires
        continues(a, b),
        continues(b, c),
    ensures
        continues(a, c),
{
}

/// Matches `order` against the queue of one level at `price`, oldest resting order first,
/// until the order is used up (an iceberg aggressor's hidden reserve included) or the level is
/// empty. Returns the order, the queue left and the trades, in the order they happened.
pub open spec fn fill_level(order: Order, queue: Seq<Order>, price: Price, now: SimTime) -> (Order, Seq<Order>, Seq<Trade>)
    decreases order.effective(), queue_measure(queue)
    when order.valid() && queue_valid(queue)
{
    let o = refill(order);
    if o.rem() <= 0 || queue.len() == 0 {
        (o, queue, seq![])
    } else {
        let resting = queue[0];
        let fq = min_int(o.rem(), resting.rem());
        let o2 = add_filled(o, fq);
        let r2 = add_filled(resting, fq);
        let t = make_trade(o, resting, price, fq, now);
        let q2 = if r2.rem() == 0 {
            queue.drop_first() + replenish(r2)
        } else {
            queue.update(0, r2)
        };
        proof {
            lemma_refill(order);
            lemma_fill_step_measure(o, queue);
        }
        let (o3, q3, ts) = fill_level(o2, q2, price, now);
        (o3, q3, seq![t] + ts)
    }
}

/// Refilling keeps a valid order valid and the same order, keeps its effective quantity, and
/// leaves nothing more to refill.
pub proof fn lemma_refill(o: Order)
    requires
        o.valid(),
    ensures
        refill(o).valid(),
        continues(o, refill(o)),
        refill(o).effective() == o.effective(),
        refill(refill(o)) == refill(o),
        refill(o).rem() <= 0 ==> refill(o).effective() == 0,
        o.rem() > 0 ==> refill(o) == o,
        !(o.order_type is Iceberg) ==> refill(o) == o,
{
}

pub proof fn lemma_queue_measure_add(a: Seq<Order>, b: Seq<Order>)
    ensures
        queue_measure(a + b) == queue_measure(a) + queue_measure(b),
    decreases a.len(),
{
    if a.len() > 0 {
        lemma_queue_measure_add(a.drop_first(), b);
        assert((a + b).drop_first() =~= a.drop_first() + b);
    } else {
        assert(a + b =~= b);
    }
}

pub proof fn lemma_queue_measure_update(q: Seq<Order>, r: Order)
    requires
        q.len() > 0,
        r.hidden() == q[0].hidden(),
    ensures
        queue_measure(q.update(0, r)) == queue_measure(q),
{
    assert(q.update(0, r).drop_first() =~= q.drop_first());
}

/// One step of `fill_level` keeps the validity of the order and the queue, takes from both the
/// size of the fill, and decreases the termination measure.
pub proof fn lemma_fill_step_measure(order: Order, queue: Seq<Order>)
    requires
        order.valid(),
        queue_valid(queue),
        order.rem() > 0,
        queue.len() > 0,
    ensures
        ({
            let resting = queue[0];
            let fq = min_int(order.rem(), resting.rem());
            let o2 = add_filled(order, fq);
            let r2 = add_filled(resting, fq);
            let q2 = if r2.rem() == 0 {
                queue.drop_first() + replenish(r2)
            } else {
                queue.update(0, r2)
            };
            &&& o2.valid()
            &&& continues(order, o2)
            &&& o2.effective() == order.effective() - fq
            &&& 0 <= fq
            &&& queue_valid(q2)
            &&& queue_effective(q2) == queue_effective(queue) - fq
            &&& (fq > 0 || queue_measure(q2) < queue_measure(queue))
        }),
{
    let resting = queue[0];
    assert(resting.valid());
    let fq = min_int(order.rem(), resting.rem());
    let o2 = add_filled(order, fq);
    let r2 = add_filled(resting, fq);
    if r2.rem() == 0 {
        let q2 = queue.drop_first() + replenish(r2);
        lemma_queue_measure_add(queue.drop_first(), replenish(r2));
        lemma_queue_effective_add(queue.drop_first(), replenish(r2));
        let rep = replenish(r2);
        assert(r2.hidden() == resting.hidden());
        if rep.len() > 0 {
            assert(rep.drop_first() =~= Seq::<Order>::empty());
            assert(queue_measure(rep.drop_first()) == 0);
            assert(queue_effective(rep.drop_first()) == 0);
            assert(queue_measure(rep) == rep[0].hidden() + 1);
            assert(queue_effective(rep) == rep[0].effective());
            assert(rep[0].hidden() < resting.hidden());
            assert(rep[0].valid());
        } else {
            assert(queue_measure(rep) == 0);
            assert(queue_effective(rep) == 0);
        }
        assert(queue_measure(queue) == resting.hidden() + 1 + queue_measure(queue.drop_first()));
        assert(queue_effective(queue) == resting.effective() + queue_effective(queue.drop_first()));
        assert forall|k: int| 0 <= k < q2.len() implies #[trigger] q2[k].valid() by {
            if k < queue.len() - 1 {
                assert(q2[k] == queue[k + 1]);
            }
        }
    } else {
        let q2 = queue.update(0, r2);
        lemma_queue_measure_update(queue, r2);
        assert(q2.drop_first() =~= queue.drop_first());
        assert forall|k: int| 0 <= k < q2.len() implies #[trigger] q2[k].valid() by {
            if k > 0 {
                assert(q2[k] == queue[k]);
            }
        }
    }
}

/// Prices strictly ascending, no empty level, every order valid.
pub open spec fn levels_wf(levels: Seq<Level>) -> bool {
    &&& forall|i: int, j: int| 0 <= i < j < levels.len() ==> levels[i].price < levels[j].price
    &&& forall|i: int| 0 <= i < levels.len() ==> (#[trigger] levels[i]).orders.len() > 0
    &&& forall|i: int| 0 <= i < levels.len() ==> queue_valid((#[trigger] levels[i]).orders)
}

/// The four sides of a limit order book, each a list of levels in ascending price order.
#[verifier::ext_equal]
pub struct BookModel {
    /// Resting buy orders; the best bid is the last level.
    pub bids: Seq<Level>,
    /// Resting sell orders; the best ask is the first level.
    pub asks: Seq<Level>,
    /// Buy stops, keyed by stop price; they trigger when a buy trades at or above their price.
    pub stop_asks: Seq<Level>,
    /// Sell stops, keyed by stop price; they trigger when a sell trades at or below their price.
    pub stop_bids: Seq<Level>,
}

impl BookModel {
    pub open spec fn wf(self) -> bool {
        &&& levels_wf(self.bids)
        &&& levels_wf(self.asks)
        &&& levels_wf(self.stop_asks)
        &&& levels_wf(self.stop_bids)
    }

    pub open spec fn empty() -> BookModel {
        BookModel { bids: seq![], asks: seq![], stop_asks: seq![], stop_bids: seq![] }
    }

    pub open spec fn best_bid(self) -> Option<Price> {
        if self.bids.len() == 0 { None } else { Some(self.bids.last().price) }
    }

    pub open spec fn best_ask(self) -> Option<Price> {
        if self.asks.len() == 0 { None } else { Some(self.asks[0].price) }
    }
}

/// Whether an order may trade at `price`: market, IOC and FOK orders take any price, limit and
/// iceberg orders only prices at least as good as their limit; stops never trade directly.
pub open spec fn crosses(order: Order, price: Price) -> bool {
    match order.order_type {
        OrderType::Market | OrderType::Ioc | OrderType::Fok => true,
        OrderType::Limit | OrderType::Iceberg { .. } => match order.side {
            Side::Bid => order.price >= price,
            Side::Ask => order.price <= price,
        },
        _ => false,
    }
}

/// Index of the best level of the side that an order of `aggressor` side trades against:
/// the lowest ask for a buy, the highest bid for a sell.
pub open spec fn best_index(levels: Seq<Level>, aggressor: Side) -> int {
    match aggressor {
        Side::Bid => 0,
        Side::Ask => levels.len() - 1,
    }
}

/// Sweeps `order` through the opposite side, best level first, while it has quantity left (an
/// iceberg taking new slices from its reserve) and crosses the best price. Emptied levels leave
/// the side.
pub open spec fn sweep_levels(order: Order, levels: Seq<Level>, now: SimTime) -> (Order, Seq<Level>, Seq<Trade>)
    decreases levels.len(),
{
    let o = refill(order);
    if o.rem() <= 0 || levels.len() == 0 {
        (o, levels, seq![])
    } else {
        let i = best_index(levels, o.side);
        let lvl = levels[i];
        if !crosses(o, lvl.price) {
            (o, levels, seq![])
        } else {
            let (o2, q2, t) = fill_level(o, lvl.orders, lvl.price, now);
            if q2.len() == 0 {
                let (o3, l3, t3) = sweep_levels(o2, levels.remove(i), now);
                (o3, l3, t + t3)
            } else {
                (o2, levels.update(i, Level { price: lvl.price, orders: q2 }), t)
            }
        }
    }
}

/// Sweeps an order against the opposite side of the book.
pub open spec fn sweep_book(book: BookModel, order: Order, now: SimTime) -> (Order, BookModel, Seq<Trade>) {
    match order.side {
        Side::Bid => {
            let (o, l, t) = sweep_levels(order, book.asks, now);
            (o, BookModel { asks: l, ..book }, t)
        },
        Side::Ask => {
            let (o, l, t) = sweep_levels(order, book.bids, now);
            (o, BookModel { bids: l, ..book }, t)
        },
    }
}

/// Adds `order` at the back of the level at `price`, creating the level in its place if absent.
pub open spec fn insert_level(levels: Seq<Level>, price: Price, order: Order) -> Seq<Level>
    decreases levels.len(),
{
    if levels.len() == 0 {
        seq![Level { price, orders: seq![order] }]
    } else if levels[0].price == price {
        levels.update(0, Level { price, orders: levels[0].orders.push(order) })
    } else if levels[0].price > price {
        seq![Level { price, orders: seq![order] }] + levels
    } else {
        seq![levels[0]] + insert_level(levels.drop_first(), price, order)
    }
}

/// Rests a limit order on its own side at its limit price.
pub open spec fn insert_limit_spec(book: BookModel, order: Order) -> BookModel {
    match order.side {
        Side::Bid => BookModel { bids: insert_level(book.bids, order.price, order), ..book },
        Side::Ask => BookModel { asks: insert_level(book.asks, order.price, order), ..book },
    }
}

pub open spec fn is_stop(o: Order) -> bool {
    o.order_type is Stop || o.order_type is StopLimit
}

pub open spec fn stop_price(o: Order) -> Price {
    match o.order_type {
        OrderType::Stop { stop_price } => stop_price,
        OrderType::StopLimit { stop_price } => stop_price,
        _ => 0,
    }
}

/// Files a stop order at its stop price: buy stops with the stop asks, sell stops with the
/// stop bids.
pub open spec fn insert_stop_spec(book: BookModel, order: Order) -> BookModel {
    match order.side {
        Side::Bid => BookModel { stop_asks: insert_level(book.stop_asks, stop_price(order), order), ..book },
        Side::Ask => BookModel { stop_bids: insert_level(book.stop_bids, stop_price(order), order), ..book },
    }
}

/// Takes the leading levels whose price is at most `p`: their orders in ascending price order,
/// and the levels left.
pub open spec fn take_at_or_below(levels: Seq<Level>, p: Price) -> (Seq<Order>, Seq<Level>)
    decreases levels.len(),
{
    if levels.len() == 0 || levels[0].price > p {
        (seq![], levels)
    } else {
        let (t, r) = take_at_or_below(levels.drop_first(), p);
        (levels[0].orders + t, r)
    }
}

/// Takes the trailing levels whose price is at least `p`: their orders in ascending price
/// order, and the levels left.
pub open spec fn take_at_or_above(levels: Seq<Level>, p: Price) -> (Seq<Order>, Seq<Level>)
    decreases levels.len(),
{
    if levels.len() == 0 || levels.last().price < p {
        (seq![], levels)
    } else {
        let (t, r) = take_at_or_above(levels.drop_last(), p);
        (t + levels.last().orders, r)
    }
}

/// Removes and returns the stops that a trade at `price` by an `aggressor` triggers: after a
/// buy, the buy stops at or below the price; after a sell, the sell stops at or above it.
pub open spec fn collect_triggered_spec(book: BookModel, price: Price, aggressor: Side) -> (BookModel, Seq<Order>) {
    match aggressor {
        Side::Bid => {
            let (t, r) = take_at_or_below(book.stop_asks, price);
            (BookModel { stop_asks: r, ..book }, t)
        },
        Side::Ask => {
            let (t, r) = take_at_or_above(book.stop_bids, price);
            (BookModel { stop_bids: r, ..book }, t)
        },
    }
}

/// A triggered stop becomes a market order, a stop-limit a limit order.
pub open spec fn convert_stop_spec(o: Order) -> Order {
    match o.order_type {
        OrderType::Stop { .. } => Order { order_type: OrderType::Market, ..o },
        OrderType::StopLimit { .. } => Order { order_type: OrderType::Limit, ..o },
        _ => o,
    }
}

/// Effective quantity available to a sell, from the best (highest) bid down, over the levels
/// at or above `limit` when `limit > 0`.
pub open spec fn available_bids(levels: Seq<Level>, limit: Price) -> int
    decreases levels.len(),
{
    if levels.len() == 0 || (limit > 0 && levels.last().price < limit) {
        0
    } else {
        queue_effective(levels.last().orders) + available_bids(levels.drop_last(), limit)
    }
}

/// Effective quantity available to a buy, from the best (lowest) ask up, over the levels at or
/// below `limit` when `limit > 0`.
pub open spec fn available_asks(levels: Seq<Level>, limit: Price) -> int
    decreases levels.len(),
{
    if levels.len() == 0 || (limit > 0 && levels[0].price > limit) {
        0
    } else {
        queue_effective(levels[0].orders) + available_asks(levels.drop_first(), limit)
    }
}

/// Whether the opposite side holds enough quantity (hidden reserves included) within the
/// order's limit, if it has one, to fill what remains of the order.
pub open spec fn can_fill_fully_spec(book: BookModel, order: Order) -> bool {
    match order.side {
        Side::Bid => order.rem() <= available_asks(book.asks, order.price),
        Side::Ask => order.rem() <= available_bids(book.bids, order.price),
    }
}

/// Limit and iceberg orders rest what they could not fill.
pub open spec fn restable(o: Order) -> bool {
    o.order_type is Limit || o.order_type is Iceberg
}

pub const MAX_STOP_DEPTH: usize = 64;

/// Matches an order at cascade depth `depth`: a FOK that cannot be filled entirely does
/// nothing; otherwise the order sweeps the opposite side, a limit or iceberg remainder rests,
/// and if the sweep traded, the stops its last trade price triggers are converted and matched
/// in turn, one level deeper. Past depth `MAX_STOP_DEPTH` an order is dropped.
pub open spec fn match_order_spec(book: BookModel, order: Order, now: SimTime, depth: nat) -> (BookModel, Seq<Trade>)
    decreases MAX_STOP_DEPTH + 1 - depth, 0nat,
{
    if depth > MAX_STOP_DEPTH {
        (book, seq![])
    } else if order.order_type is Fok && !can_fill_fully_spec(book, order) {
        (book, seq![])
    } else {
        let (o2, b2, trades) = sweep_book(book, order, now);
        let b3 = if restable(order) && o2.rem() > 0 { insert_limit_spec(b2, o2) } else { b2 };
        if trades.len() > 0 {
            let (b4, triggered) = collect_triggered_spec(b3, trades.last().price, order.side);
            let (b5, t5) = run_stops(b4, triggered, now, depth + 1);
            (b5, trades + t5)
        } else {
            (b3, trades)
        }
    }
}

/// Matches triggered stops one after the other, each converted, at cascade depth `depth`.
pub open spec fn run_stops(book: BookModel, stops: Seq<Order>, now: SimTime, depth: nat) -> (BookModel, Seq<Trade>)
    decreases MAX_STOP_DEPTH + 1 - depth, stops.len(),
{
    if stops.len() == 0 {
        (book, seq![])
    } else {
        let (b1, t1) = match_order_spec(book, convert_stop_spec(stops[0]), now, depth);
        let (b2, t2) = run_stops(b1, stops.drop_first(), now, depth);
        (b2, t1 + t2)
    }
}

/// Submitting an order: stops are filed, everything else is matched at depth 0.
pub open spec fn submit_spec(book: BookModel, order: Order, now: SimTime) -> (BookModel, Seq<Trade>) {
    if is_stop(order) {
        (insert_stop_spec(book, order), seq![])
    } else {
        match_order_spec(book, order, now, 0)
    }
}

/// Whether some order of the queue has this id.
pub open spec fn queue_has_id(q: Seq<Order>, id: u64) -> bool {
    exists|k: int| 0 <= k < q.len() && (#[trigger] q[k]).id == id
}

/// The queue without its first order that has this id.
pub open spec fn remove_first_id(q: Seq<Order>, id: u64) -> Seq<Order>
    decreases q.len(),
{
    if q.len() == 0 {
        q
    } else if q[0].id == id {
        q.drop_first()
    } else {
        seq![q[0]] + remove_first_id(q.drop_first(), id)
    }
}

/// Removes the first order with this id from the lowest-priced level that holds one, dropping
/// the level if it empties; also says whether an order was removed.
pub open spec fn cancel_levels(levels: Seq<Level>, id: u64) -> (Seq<Level>, bool)
    decreases levels.len(),
{
    if levels.len() == 0 {
        (levels, false)
    } else if queue_has_id(levels[0].orders, id) {
        let q = remove_first_id(levels[0].orders, id);
        if q.len() == 0 {
            (levels.drop_first(), true)
        } else {
            (levels.update(0, Level { price: levels[0].price, orders: q }), true)
        }
    } else {
        let (r, found) = cancel_levels(levels.drop_first(), id);
        (seq![levels[0]] + r, found)
    }
}

/// Cancels an order by id: bids are searched first, then asks, sell stops and buy stops.
pub open spec fn cancel_spec(book: BookModel, id: u64) -> (BookModel, bool) {
    let (bids, fb) = cancel_levels(book.bids, id);
    if fb {
        (BookModel { bids, ..book }, true)
    } else {
        let (asks, fa) = cancel_levels(book.asks, id);
        if fa {
            (BookModel { asks, ..book }, true)
        } else {
            let (stop_bids, fsb) = cancel_levels(book.stop_bids, id);
            if fsb {
                (BookModel { stop_bids, ..book }, true)
            } else {
                let (stop_asks, fsa) = cancel_levels(book.stop_asks, id);
                (BookModel { stop_asks, ..book }, fsa)
            }
        }
    }
}

/// Where `insert_level` puts an order: `k` is the first level whose price is at least `price`.
pub proof fn lemma_insert_level_at(levels: Seq<Level>, price: Price, order: Order, k: int)
    requires
        0 <= k <= levels.len(),
        forall|i: int| 0 <= i < k ==> (#[trigger] levels[i]).price < price,
        k < levels.len() ==> levels[k].price >= price,
    ensures
        insert_level(levels, price, order) == if k < levels.len() && levels[k].price == price {
            levels.update(k, Level { price, orders: levels[k].orders.push(order) })
        } else {
            levels.insert(k, Level { price, orders: seq![order] })
        },
    decreases k,
{
    if k == 0 {
        if levels.len() == 0 {
            assert(levels.insert(0, Level { price, orders: seq![order] }) =~= seq![Level { price, orders: seq![order] }]);
        } else if levels[0].price > price {
            assert(levels.insert(0, Level { price, orders: seq![order] }) =~= seq![Level { price, orders: seq![order] }] + levels);
        }
    } else {
        let rest = levels.drop_first();
        assert forall|i: int| 0 <= i < k - 1 implies (#[trigger] rest[i]).price < price by {
            assert(rest[i] == levels[i + 1]);
        }
        lemma_insert_level_at(rest, price, order, k - 1);
        if k < levels.len() && levels[k].price == price {
            assert(seq![levels[0]] + rest.update(k - 1, Level { price, orders: rest[k - 1].orders.push(order) })
                =~= levels.update(k, Level { price, orders: levels[k].orders.push(order) }));
        } else {
            assert(seq![levels[0]] + rest.insert(k - 1, Level { price, orders: seq![order] })
                =~= levels.insert(k, Level { price, orders: seq![order] }));
        }
    }
}

/// Inserting a valid order keeps a side well formed.
pub proof fn lemma_insert_level_wf(levels: Seq<Level>, price: Price, order: Order, k: int)
    requires
        levels_wf(levels),
        order.valid(),
        0 <= k <= levels.len(),
        forall|i: int| 0 <= i < k ==> (#[trigger] levels[i]).price < price,
        k < levels.len() ==> levels[k].price >= price,
    ensures
        levels_wf(insert_level(levels, price, order)),
{
    lemma_insert_level_at(levels, price, order, k);
    let r = insert_level(levels, price, order);
    if k < levels.len() && levels[k].price == price {
        assert forall|i: int| 0 <= i < r.len() implies queue_valid((#[trigger] r[i]).orders) by {
            if i == k {
                assert forall|j: int| 0 <= j < r[i].orders.len() implies #[trigger] r[i].orders[j].valid() by {
                    if j < levels[k].orders.len() {
                        assert(r[i].orders[j] == levels[k].orders[j]);
                    }
                }
            }
        }
    } else {
        assert forall|i: int, j: int| 0 <= i < j < r.len() implies r[i].price < r[j].price by {
            if i < k && j > k {
                assert(r[j] == levels[j - 1]);
            } else if i == k && j > k {
                assert(r[j] == levels[j - 1]);
            } else if i > k {
                assert(r[i] == levels[i - 1]);
                assert(r[j] == levels[j - 1]);
            }
        }
        assert forall|i: int| 0 <= i < r.len() implies (#[trigger] r[i]).orders.len() > 0 by {
            if i > k {
                assert(r[i] == levels[i - 1]);
            }
        }
        assert forall|i: int| 0 <= i < r.len() implies queue_valid((#[trigger] r[i]).orders) by {
            if i > k {
                assert(r[i] == levels[i - 1]);
            } else if i == k {
                assert(r[i].orders =~= seq![order]);
            }
        }
    }
}

/// Sum of the sizes of a list of trades.
pub open spec fn total_size(ts: Seq<Trade>) -> int
    decreases ts.len(),
{
    if ts.len() == 0 {
        0
    } else {
        ts[0].size + total_size(ts.drop_first())
    }
}

pub proof fn lemma_total_size_add(a: Seq<Trade>, b: Seq<Trade>)
    ensures
        total_size(a + b) == total_size(a) + total_size(b),
    decreases a.len(),
{
    if a.len() > 0 {
        lemma_total_size_add(a.drop_first(), b);
        assert((a + b).drop_first() =~= a.drop_first() + b);
    } else {
        assert(a + b =~= b);
    }
}

/// Every order of the queue still has shares to trade.
pub open spec fn queue_live(q: Seq<Order>) -> bool {
    forall|k: int| 0 <= k < q.len() ==> (#[trigger] q[k]).rem() > 0
}

/// `t` is a trade of the aggressor `order` at `price` and time `now`.
pub open spec fn trade_of(t: Trade, order: Order, price: Price, now: SimTime) -> bool {
    &&& t.price == price
    &&& t.aggressor_order_id == order.id
    &&& t.aggressor_agent == order.agent_id
    &&& t.aggressor_side == order.side
    &&& t.time == now
}

/// What draining one level does: the aggressor stays the same order and valid; its effective
/// quantity (hidden reserve included) and the level's drop by the total size of the trades; it
/// stops when the aggressor is used up or the level is empty; every trade is the aggressor's at
/// this price and time, and of positive size when every resting order has shares left.
pub proof fn lemma_fill_level_props(order: Order, queue: Seq<Order>, price: Price, now: SimTime)
    requires
        order.valid(),
        queue_valid(queue),
    ensures
        ({
            let (o3, q3, ts) = fill_level(order, queue, price, now);
            &&& o3.rem() <= 0 || q3.len() == 0
            &&& o3.rem() <= 0 ==> o3.effective() == 0
            &&& refill(o3) == o3
            &&& continues(order, o3)
            &&& o3.valid()
            &&& queue_valid(q3)
            &&& 0 <= o3.effective() <= order.effective()
            &&& total_size(ts) == order.effective() - o3.effective()
            &&& queue_effective(q3) + total_size(ts) == queue_effective(queue)
            &&& forall|k: int| 0 <= k < ts.len() ==> trade_of(#[trigger] ts[k], order, price, now)
            &&& queue_live(queue) ==> queue_live(q3) && forall|k: int| 0 <= k < ts.len() ==> (#[trigger] ts[k]).size > 0
        }),
    decreases order.effective(), queue_measure(queue),
{
    lemma_refill(order);
    let o = refill(order);
    if o.rem() <= 0 || queue.len() == 0 {
        assert(total_size(Seq::<Trade>::empty()) == 0);
    } else {
        let resting = queue[0];
        assert(resting.valid());
        let fq = min_int(o.rem(), resting.rem());
        let o2 = add_filled(o, fq);
        let r2 = add_filled(resting, fq);
        let t = make_trade(o, resting, price, fq, now);
        let q2 = if r2.rem() == 0 {
            queue.drop_first() + replenish(r2)
        } else {
            queue.update(0, r2)
        };
        lemma_fill_step_measure(o, queue);
        lemma_fill_level_props(o2, q2, price, now);
        let (o3, q3, ts) = fill_level(o2, q2, price, now);
        assert(fill_level(order, queue, price, now) == (o3, q3, seq![t] + ts));
        lemma_continues_trans(order, o, o2);
        lemma_continues_trans(order, o2, o3);
        lemma_total_size_add(seq![t], ts);
        assert((seq![t]).drop_first() =~= Seq::<Trade>::empty());
        assert(total_size(Seq::<Trade>::empty()) == 0);
        assert(total_size(seq![t]) == fq);
        assert forall|k: int| 0 <= k < (seq![t] + ts).len() implies trade_of(#[trigger] (seq![t] + ts)[k], order, price, now) by {
            if k > 0 {
                assert((seq![t] + ts)[k] == ts[k - 1]);
            }
        }
        if queue_live(queue) {
            assert(resting.rem() > 0);
            assert(queue_live(q2)) by {
                assert forall|k: int| 0 <= k < q2.len() implies (#[trigger] q2[k]).rem() > 0 by {
                    if r2.rem() == 0 {
                        if k < queue.len() - 1 {
                            assert(q2[k] == queue[k + 1]);
                        }
                    } else if k > 0 {
                        assert(q2[k] == queue[k]);
                    }
                }
            }
            assert forall|k: int| 0 <= k < (seq![t] + ts).len() implies (#[trigger] (seq![t] + ts)[k]).size > 0 by {
                if k > 0 {
                    assert((seq![t] + ts)[k] == ts[k - 1]);
                }
            }
        }
    }
}

pub proof fn lemma_levels_wf_remove(levels: Seq<Level>, i: int)
    requires
        levels_wf(levels),
        0 <= i < levels.len(),
    ensures
        levels_wf(levels.remove(i)),
{
    let r = levels.remove(i);
    assert forall|a: int| 0 <= a < r.len() implies #[trigger] r[a] == (if a < i { levels[a] } else { levels[a + 1] }) by {}
    assert forall|a: int, b: int| 0 <= a < b < r.len() implies r[a].price < r[b].price by {
        assert(r[a] == (if a < i { levels[a] } else { levels[a + 1] }));
        assert(r[b] == (if b < i { levels[b] } else { levels[b + 1] }));
    }
}

pub proof fn lemma_levels_wf_update(levels: Seq<Level>, i: int, q: Seq<Order>)
    requires
        levels_wf(levels),
        0 <= i < levels.len(),
        q.len() > 0,
        queue_valid(q),
    ensures
        levels_wf(levels.update(i, Level { price: levels[i].price, orders: q })),
{
    let r = levels.update(i, Level { price: levels[i].price, orders: q });
    assert forall|a: int| 0 <= a < r.len() && a != i implies #[trigger] r[a] == levels[a] by {}
    assert forall|a: int, b: int| 0 <= a < b < r.len() implies r[a].price < r[b].price by {
        assert(r[a].price == levels[a].price);
        assert(r[b].price == levels[b].price);
    }
}

pub proof fn lemma_queue_effective_nonneg(q: Seq<Order>)
    requires
        queue_valid(q),
    ensures
        queue_effective(q) >= 0,
    decreases q.len(),
{
    if q.len() > 0 {
        assert(q[0].valid());
        assert forall|k: int| 0 <= k < q.drop_first().len() implies #[trigger] q.drop_first()[k].valid() by {
            assert(q.drop_first()[k] == q[k + 1]);
        }
        lemma_queue_effective_nonneg(q.drop_first());
    }
}

pub open spec fn all_queues_valid(levels: Seq<Level>) -> bool {
    forall|i: int| 0 <= i < levels.len() ==> queue_valid((#[trigger] levels[i]).orders)
}

pub proof fn lemma_available_asks_nonneg(levels: Seq<Level>, limit: Price)
    requires
        all_queues_valid(levels),
    ensures
        available_asks(levels, limit) >= 0,
    decreases levels.len(),
{
    if levels.len() > 0 {
        assert(queue_valid(levels[0].orders));
        lemma_queue_effective_nonneg(levels[0].orders);
        assert forall|i: int| 0 <= i < levels.drop_first().len() implies queue_valid((#[trigger] levels.drop_first()[i]).orders) by {
            assert(levels.drop_first()[i] == levels[i + 1]);
        }
        lemma_available_asks_nonneg(levels.drop_first(), limit);
    }
}

pub proof fn lemma_available_bids_nonneg(levels: Seq<Level>, limit: Price)
    requires
        all_queues_valid(levels),
    ensures
        available_bids(levels, limit) >= 0,
    decreases levels.len(),
{
    if levels.len() > 0 {
        assert(queue_valid(levels[levels.len() - 1].orders));
        lemma_queue_effective_nonneg(levels.last().orders);
        assert forall|i: int| 0 <= i < levels.drop_last().len() implies queue_valid((#[trigger] levels.drop_last()[i]).orders) by {
            assert(levels.drop_last()[i] == levels[i]);
        }
        lemma_available_bids_nonneg(levels.drop_last(), limit);
    }
}

/// The orders of a list of levels, level after level.
pub open spec fn flatten_levels(ls: Seq<Level>) -> Seq<Order>
    decreases ls.len(),
{
    if ls.len() == 0 {
        seq![]
    } else {
        flatten_levels(ls.drop_last()) + ls.last().orders
    }
}

/// On an ascending side, the levels `take_at_or_above` takes are those from `k` on.
pub proof fn lemma_take_at_or_above_split(m: Seq<Level>, p: Price, k: int)
    requires
        0 <= k <= m.len(),
        forall|i: int| k <= i < m.len() ==> (#[trigger] m[i]).price >= p,
        k > 0 ==> m[k - 1].price < p,
    ensures
        take_at_or_above(m, p) == (flatten_levels(m.subrange(k, m.len() as int)), m.subrange(0, k)),
    decreases m.len(),
{
    if m.len() == k {
        assert(m.subrange(k, m.len() as int) =~= Seq::<Level>::empty());
        assert(m.subrange(0, k) =~= m);
    } else {
        let d = m.drop_last();
        assert forall|i: int| k <= i < d.len() implies (#[trigger] d[i]).price >= p by {
            assert(d[i] == m[i]);
        }
        lemma_take_at_or_above_split(d, p, k);
        assert(m.subrange(k, m.len() as int).drop_last() =~= d.subrange(k, d.len() as int));
        assert(d.subrange(0, k) =~= m.subrange(0, k));
    }
}

pub open spec fn orders_valid(s: Seq<Order>) -> bool {
    forall|j: int| 0 <= j < s.len() ==> (#[trigger] s[j]).valid()
}

pub proof fn lemma_orders_valid_add(a: Seq<Order>, b: Seq<Order>)
    requires
        orders_valid(a),
        orders_valid(b),
    ensures
        orders_valid(a + b),
{
    assert forall|j: int| 0 <= j < (a + b).len() implies (#[trigger] (a + b)[j]).valid() by {
        if j >= a.len() {
            assert((a + b)[j] == b[j - a.len()]);
        } else {
            assert((a + b)[j] == a[j]);
        }
    }
}

/// The stops that a trade triggers are valid orders.
pub proof fn lemma_take_valid(m: Seq<Level>, p: Price)
    requires
        all_queues_valid(m),
    ensures
        orders_valid(take_at_or_below(m, p).0),
        orders_valid(take_at_or_above(m, p).0),
    decreases m.len(),
{
    if m.len() > 0 {
        assert(queue_valid(m[0].orders));
        assert(queue_valid(m[m.len() - 1].orders));
        assert forall|i: int| 0 <= i < m.drop_first().len() implies queue_valid((#[trigger] m.drop_first()[i]).orders) by {
            assert(m.drop_first()[i] == m[i + 1]);
        }
        assert forall|i: int| 0 <= i < m.drop_last().len() implies queue_valid((#[trigger] m.drop_last()[i]).orders) by {
            assert(m.drop_last()[i] == m[i]);
        }
        lemma_take_valid(m.drop_first(), p);
        lemma_take_valid(m.drop_last(), p);
        if m[0].price <= p {
            lemma_orders_valid_add(m[0].orders, take_at_or_below(m.drop_first(), p).0);
        }
        if m.last().price >= p {
            lemma_orders_valid_add(take_at_or_above(m.drop_last(), p).0, m.last().orders);
        }
    }
}

pub proof fn lemma_remove_first_id_at(q: Seq<Order>, id: u64, pos: int)
    requires
        0 <= pos < q.len(),
        q[pos].id == id,
        forall|k: int| 0 <= k < pos ==> (#[trigger] q[k]).id != id,
    ensures
        remove_first_id(q, id) == q.remove(pos),
    decreases pos,
{
    if pos == 0 {
        assert(q.remove(0) =~= q.drop_first());
    } else {
        let d = q.drop_first();
        assert forall|k: int| 0 <= k < pos - 1 implies (#[trigger] d[k]).id != id by {
            assert(d[k] == q[k + 1]);
        }
        lemma_remove_first_id_at(d, id, pos - 1);
        assert(seq![q[0]] + d.remove(pos - 1) =~= q.remove(pos));
    }
}

/// `cancel_levels` acts on the first level `i` that holds the id.
pub proof fn lemma_cancel_levels_at(levels: Seq<Level>, id: u64, i: int)
    requires
        0 <= i < levels.len(),
        queue_has_id(levels[i].orders, id),
        forall|j: int| 0 <= j < i ==> !queue_has_id((#[trigger] levels[j]).orders, id),
    ensures
        cancel_levels(levels, id) == ({
            let q = remove_first_id(levels[i].orders, id);
            if q.len() == 0 {
                (levels.remove(i), true)
            } else {
                (levels.update(i, Level { price: levels[i].price, orders: q }), true)
            }
        }),
    decreases i,
{
    if i == 0 {
        assert(levels.remove(0) =~= levels.drop_first());
    } else {
        let d = levels.drop_first();
        assert forall|j: int| 0 <= j < i - 1 implies !queue_has_id((#[trigger] d[j]).orders, id) by {
            assert(d[j] == levels[j + 1]);
        }
        assert(!queue_has_id(levels[0].orders, id));
        lemma_cancel_levels_at(d, id, i - 1);
        let q = remove_first_id(levels[i].orders, id);
        assert(seq![levels[0]] + d.remove(i - 1) =~= levels.remove(i));
        assert(seq![levels[0]] + d.update(i - 1, Level { price: levels[i].price, orders: q })
            =~= levels.update(i, Level { price: levels[i].price, orders: q }));
    }
}

pub proof fn lemma_cancel_levels_none(levels: Seq<Level>, id: u64)
    requires
        forall|j: int| 0 <= j < levels.len() ==> !queue_has_id((#[trigger] levels[j]).orders, id),
    ensures
        cancel_levels(levels, id) == (levels, false),
    decreases levels.len(),
{
    if levels.len() > 0 {
        let d = levels.drop_first();
        assert forall|j: int| 0 <= j < d.len() implies !queue_has_id((#[trigger] d[j]).orders, id) by {
            assert(d[j] == levels[j + 1]);
        }
        assert(!queue_has_id(levels[0].orders, id));
        lemma_cancel_levels_none(d, id);
        assert(seq![levels[0]] + d =~= levels);
    }
}

/// Every level's orders still have shares to trade.
pub open spec fn levels_live(levels: Seq<Level>) -> bool {
    forall|i: int| 0 <= i < levels.len() ==> queue_live((#[trigger] levels[i]).orders)
}

/// `t` is a trade of the aggressor `order` at time `now`.
pub open spec fn trade_by(t: Trade, order: Order, now: SimTime) -> bool {
    &&& t.aggressor_order_id == order.id
    &&& t.aggressor_agent == order.agent_id
    &&& t.aggressor_side == order.side
    &&& t.time == now
}

pub proof fn lemma_continues_crosses(a: Order, b: Order, p: Price)
    requires
        continues(a, b),
    ensures
        crosses(a, p) == crosses(b, p),
        restable(a) == restable(b),
{
}

/// What a sweep does to the aggressor and the side: the aggressor stays the same order and
/// valid, and its effective quantity (hidden reserve included) drops by the total size of the
/// trades; the side stays well formed; every trade is the aggressor's, at a price it crosses;
/// and the sweep stops only when the order is used up, the side is empty, or the best price no
/// longer crosses.
pub proof fn lemma_sweep_levels_props(order: Order, levels: Seq<Level>, now: SimTime)
    requires
        order.valid(),
        levels_wf(levels),
    ensures
        ({
            let (o3, l3, ts) = sweep_levels(order, levels, now);
            &&& continues(order, o3)
            &&& o3.valid()
            &&& refill(o3) == o3
            &&& o3.rem() <= 0 ==> o3.effective() == 0
            &&& 0 <= o3.effective() <= order.effective()
            &&& levels_wf(l3)
            &&& total_size(ts) == order.effective() - o3.effective()
            &&& forall|k: int| 0 <= k < ts.len() ==> crosses(order, (#[trigger] ts[k]).price)
            &&& forall|k: int| 0 <= k < ts.len() ==> trade_by(#[trigger] ts[k], order, now)
            &&& (o3.rem() > 0 && l3.len() > 0 ==> !crosses(order, l3[best_index(l3, order.side)].price))
            &&& levels_live(levels) ==> levels_live(l3) && forall|k: int| 0 <= k < ts.len() ==> (#[trigger] ts[k]).size > 0
        }),
    decreases levels.len(),
{
    lemma_refill(order);
    let o = refill(order);
    if o.rem() <= 0 || levels.len() == 0 {
        assert(total_size(Seq::<Trade>::empty()) == 0);
    } else {
        let i = best_index(levels, order.side);
        let lvl = levels[i];
        lemma_continues_crosses(order, o, lvl.price);
        if !crosses(o, lvl.price) {
            assert(total_size(Seq::<Trade>::empty()) == 0);
        } else {
            assert(queue_valid(lvl.orders));
            lemma_fill_level_props(o, lvl.orders, lvl.price, now);
            let (o2, q2, t) = fill_level(o, lvl.orders, lvl.price, now);
            lemma_continues_trans(order, o, o2);
            if q2.len() == 0 {
                lemma_levels_wf_remove(levels, i);
                let rest = levels.remove(i);
                lemma_sweep_levels_props(o2, rest, now);
                let (o3, l3, t3) = sweep_levels(o2, rest, now);
                lemma_continues_trans(order, o2, o3);
                lemma_total_size_add(t, t3);
                assert forall|k: int| 0 <= k < (t + t3).len() implies
                    #[trigger] (t + t3)[k] == (if k < t.len() { t[k] } else { t3[k - t.len()] }) by {}
                assert forall|k: int| 0 <= k < t3.len() implies crosses(order, (#[trigger] t3[k]).price) by {
                    lemma_continues_crosses(order, o2, t3[k].price);
                }
                if l3.len() > 0 {
                    lemma_continues_crosses(order, o2, l3[best_index(l3, order.side)].price);
                }
                if levels_live(levels) {
                    assert forall|a: int| 0 <= a < rest.len() implies queue_live((#[trigger] rest[a]).orders) by {
                        if a < i { assert(rest[a] == levels[a]); } else { assert(rest[a] == levels[a + 1]); }
                    }
                }
            } else {
                lemma_levels_wf_update(levels, i, q2);
                let l3 = levels.update(i, Level { price: lvl.price, orders: q2 });
                if levels_live(levels) {
                    assert forall|a: int| 0 <= a < l3.len() implies queue_live((#[trigger] l3[a]).orders) by {
                        if a != i { assert(l3[a] == levels[a]); }
                    }
                }
            }
        }
    }
}

pub open spec fn all_above(levels: Seq<Level>, q: Price) -> bool {
    forall|i: int| 0 <= i < levels.len() ==> (#[trigger] levels[i]).price > q
}

pub open spec fn all_below(levels: Seq<Level>, q: Price) -> bool {
    forall|i: int| 0 <= i < levels.len() ==> (#[trigger] levels[i]).price < q
}

pub open spec fn trades_above(ts: Seq<Trade>, q: Price) -> bool {
    forall|k: int| 0 <= k < ts.len() ==> (#[trigger] ts[k]).price > q
}

pub open spec fn trades_below(ts: Seq<Trade>, q: Price) -> bool {
    forall|k: int| 0 <= k < ts.len() ==> (#[trigger] ts[k]).price < q
}

/// A sweep introduces no new price: bounds on the prices of a side bound the levels left and the
/// prices traded.
pub proof fn lemma_sweep_levels_bounds(order: Order, levels: Seq<Level>, now: SimTime, q: Price)
    requires
        order.valid(),
        levels_wf(levels),
    ensures
        ({
            let (o3, l3, ts) = sweep_levels(order, levels, now);
            &&& all_above(levels, q) ==> all_above(l3, q) && trades_above(ts, q)
            &&& all_below(levels, q) ==> all_below(l3, q) && trades_below(ts, q)
        }),
    decreases levels.len(),
{
    lemma_refill(order);
    let o = refill(order);
    if o.rem() <= 0 || levels.len() == 0 {
    } else {
        let i = best_index(levels, order.side);
        let lvl = levels[i];
        if crosses(o, lvl.price) {
            assert(queue_valid(lvl.orders));
            lemma_fill_level_props(o, lvl.orders, lvl.price, now);
            let (o2, q2, t) = fill_level(o, lvl.orders, lvl.price, now);
            if q2.len() == 0 {
                let rest = levels.remove(i);
                lemma_levels_wf_remove(levels, i);
                lemma_sweep_levels_bounds(o2, rest, now, q);
                let (o3, l3, t3) = sweep_levels(o2, rest, now);
                assert(all_above(levels, q) ==> all_above(rest, q)) by {
                    if all_above(levels, q) {
                        assert forall|a: int| 0 <= a < rest.len() implies (#[trigger] rest[a]).price > q by {
                            if a < i { assert(rest[a] == levels[a]); } else { assert(rest[a] == levels[a + 1]); }
                        }
                    }
                }
                assert(all_below(levels, q) ==> all_below(rest, q)) by {
                    if all_below(levels, q) {
                        assert forall|a: int| 0 <= a < rest.len() implies (#[trigger] rest[a]).price < q by {
                            if a < i { assert(rest[a] == levels[a]); } else { assert(rest[a] == levels[a + 1]); }
                        }
                    }
                }
                assert forall|k: int| 0 <= k < (t + t3).len() implies
                    #[trigger] (t + t3)[k] == (if k < t.len() { t[k] } else { t3[k - t.len()] }) by {}
            } else {
                let l3 = levels.update(i, Level { price: lvl.price, orders: q2 });
                assert forall|a: int| 0 <= a < l3.len() implies #[trigger] l3[a].price == levels[a].price by {}
            }
        }
    }
}

/// Trades of one sweep come in price priority: rising prices for a buy, falling for a sell.
pub open spec fn prices_in_priority(ts: Seq<Trade>, side: Side) -> bool {
    forall|i: int, j: int| 0 <= i < j < ts.len() ==> match side {
        Side::Bid => ts[i].price <= ts[j].price,
        Side::Ask => ts[i].price >= ts[j].price,
    }
}

pub proof fn lemma_sweep_levels_priority(order: Order, levels: Seq<Level>, now: SimTime)
    requires
        order.valid(),
        levels_wf(levels),
    ensures
        prices_in_priority(sweep_levels(order, levels, now).2, order.side),
    decreases levels.len(),
{
    lemma_refill(order);
    let o = refill(order);
    if o.rem() <= 0 || levels.len() == 0 {
    } else {
        let i = best_index(levels, order.side);
        let lvl = levels[i];
        if crosses(o, lvl.price) {
            assert(queue_valid(lvl.orders));
            lemma_fill_level_props(o, lvl.orders, lvl.price, now);
            let (o2, q2, t) = fill_level(o, lvl.orders, lvl.price, now);
            if q2.len() == 0 {
                let rest = levels.remove(i);
                lemma_levels_wf_remove(levels, i);
                lemma_sweep_levels_priority(o2, rest, now);
                lemma_sweep_levels_bounds(o2, rest, now, lvl.price);
                let (o3, l3, t3) = sweep_levels(o2, rest, now);
                let all = t + t3;
                match order.side {
                    Side::Bid => {
                        assert(all_above(rest, lvl.price)) by {
                            assert forall|a: int| 0 <= a < rest.len() implies (#[trigger] rest[a]).price > lvl.price by {
                                assert(rest[a] == levels[a + 1]);
                            }
                        }
                    },
                    Side::Ask => {
                        assert(all_below(rest, lvl.price)) by {
                            assert forall|a: int| 0 <= a < rest.len() implies (#[trigger] rest[a]).price < lvl.price by {
                                assert(rest[a] == levels[a]);
                            }
                        }
                    },
                }
                assert forall|a: int, b: int| 0 <= a < b < all.len() implies match order.side {
                    Side::Bid => all[a].price <= all[b].price,
                    Side::Ask => all[a].price >= all[b].price,
                } by {
                    if b < t.len() {
                        assert(all[a] == t[a] && all[b] == t[b]);
                    } else if a < t.len() {
                        assert(all[a] == t[a] && all[b] == t3[b - t.len()]);
                    } else {
                        assert(all[a] == t3[a - t.len()] && all[b] == t3[b - t.len()]);
                    }
                }
            }
        }
    }
}

/// How many leading levels are priced below `p`.
pub open spec fn count_below(levels: Seq<Level>, p: Price) -> nat
    decreases levels.len(),
{
    if levels.len() == 0 || levels[0].price >= p {
        0
    } else {
        1 + count_below(levels.drop_first(), p)
    }
}

pub proof fn lemma_count_below(levels: Seq<Level>, p: Price)
    requires
        levels_wf(levels),
    ensures
        count_below(levels, p) <= levels.len(),
        forall|i: int| 0 <= i < count_below(levels, p) ==> (#[trigger] levels[i]).price < p,
        count_below(levels, p) < levels.len() ==> levels[count_below(levels, p) as int].price >= p,
    decreases levels.len(),
{
    if levels.len() > 0 && levels[0].price < p {
        lemma_levels_wf_remove(levels, 0);
        assert(levels.remove(0) =~= levels.drop_first());
        lemma_count_below(levels.drop_first(), p);
        let k = count_below(levels, p);
        assert forall|i: int| 0 <= i < k implies (#[trigger] levels[i]).price < p by {
            if i > 0 {
                assert(levels[i] == levels.drop_first()[i - 1]);
            }
        }
    }
}

/// Inserting a valid order keeps a side well formed, and keeps it below (above) any bound that
/// the new price is below (above).
pub proof fn lemma_insert_level_props(levels: Seq<Level>, price: Price, order: Order, q: Price)
    requires
        levels_wf(levels),
        order.valid(),
    ensures
        levels_wf(insert_level(levels, price, order)),
        all_below(levels, q) && price < q ==> all_below(insert_level(levels, price, order), q),
        all_above(levels, q) && price > q ==> all_above(insert_level(levels, price, order), q),
{
    lemma_count_below(levels, price);
    let k = count_below(levels, price) as int;
    lemma_insert_level_at(levels, price, order, k);
    lemma_insert_level_wf(levels, price, order, k);
    let r = insert_level(levels, price, order);
    if k < levels.len() && levels[k].price == price {
        assert forall|a: int| 0 <= a < r.len() implies #[trigger] r[a].price == levels[a].price by {}
    } else {
        assert forall|a: int| 0 <= a < r.len() implies #[trigger] r[a].price == (if a < k { levels[a].price } else if a == k { price } else { levels[a - 1].price }) by {}
    }
}

/// What taking triggered buy stops leaves: a well-formed side priced strictly above the trade.
pub proof fn lemma_take_at_or_below_rest(levels: Seq<Level>, p: Price)
    requires
        levels_wf(levels),
    ensures
        levels_wf(take_at_or_below(levels, p).1),
        all_above(take_at_or_below(levels, p).1, p),
    decreases levels.len(),
{
    if levels.len() == 0 || levels[0].price > p {
        assert forall|i: int| 0 <= i < levels.len() implies (#[trigger] levels[i]).price > p by {
            if i > 0 {
                assert(levels[0].price < levels[i].price);
            }
        }
    } else {
        lemma_levels_wf_remove(levels, 0);
        assert(levels.remove(0) =~= levels.drop_first());
        lemma_take_at_or_below_rest(levels.drop_first(), p);
    }
}

/// What taking triggered sell stops leaves: a well-formed side priced strictly below the trade.
pub proof fn lemma_take_at_or_above_rest(levels: Seq<Level>, p: Price)
    requires
        levels_wf(levels),
    ensures
        levels_wf(take_at_or_above(levels, p).1),
        all_below(take_at_or_above(levels, p).1, p),
    decreases levels.len(),
{
    if levels.len() == 0 || levels.last().price < p {
        assert forall|i: int| 0 <= i < levels.len() implies (#[trigger] levels[i]).price < p by {
            if i < levels.len() - 1 {
                assert(levels[i].price < levels[levels.len() - 1].price);
            }
        }
    } else {
        lemma_levels_wf_remove(levels, levels.len() - 1);
        assert(levels.remove(levels.len() - 1) =~= levels.drop_last());
        lemma_take_at_or_above_rest(levels.drop_last(), p);
    }
}

/// Every resting bid is priced below every resting ask.
pub open spec fn uncrossed(book: BookModel) -> bool {
    forall|i: int, j: int|
        0 <= i < book.bids.len() && 0 <= j < book.asks.len() ==> #[trigger] book.bids[i].price < #[trigger] book.asks[j].price
}

proof fn lemma_sweep_book_invariant(book: BookModel, order: Order, now: SimTime)
    requires
        book.wf(),
        uncrossed(book),
        order.valid(),
    ensures
        ({
            let (o2, b2, ts) = sweep_book(book, order, now);
            let b3 = if restable(order) && o2.rem() > 0 { insert_limit_spec(b2, o2) } else { b2 };
            &&& o2.valid()
            &&& b2.wf()
            &&& b3.wf()
            &&& uncrossed(b3)
            &&& b3.stop_asks == book.stop_asks
            &&& b3.stop_bids == book.stop_bids
        }),
{
    let (o2, b2, ts) = sweep_book(book, order, now);
    match order.side {
        Side::Bid => {
            lemma_sweep_levels_props(order, book.asks, now);
            let l3 = b2.asks;
            assert forall|i: int, j: int| 0 <= i < b2.bids.len() && 0 <= j < b2.asks.len() implies
                #[trigger] b2.bids[i].price < #[trigger] b2.asks[j].price by {
                lemma_sweep_levels_bounds(order, book.asks, now, book.bids[i].price);
                assert(all_above(book.asks, book.bids[i].price));
            }
            if restable(order) && o2.rem() > 0 {
                let b3 = insert_limit_spec(b2, o2);
                if l3.len() > 0 {
                    assert(order.price < l3[0].price);
                }
                assert forall|i: int, j: int| 0 <= i < b3.bids.len() && 0 <= j < b3.asks.len() implies
                    #[trigger] b3.bids[i].price < #[trigger] b3.asks[j].price by {
                    let q = l3[j].price;
                    if j > 0 {
                        assert(l3[0].price < l3[j].price);
                    }
                    assert(all_below(b2.bids, q));
                    lemma_insert_level_props(b2.bids, o2.price, o2, q);
                }
                lemma_insert_level_props(b2.bids, o2.price, o2, 0);
            }
        },
        Side::Ask => {
            lemma_sweep_levels_props(order, book.bids, now);
            let l3 = b2.bids;
            assert forall|i: int, j: int| 0 <= i < b2.bids.len() && 0 <= j < b2.asks.len() implies
                #[trigger] b2.bids[i].price < #[trigger] b2.asks[j].price by {
                lemma_sweep_levels_bounds(order, book.bids, now, book.asks[j].price);
                assert(all_below(book.bids, book.asks[j].price));
            }
            if restable(order) && o2.rem() > 0 {
                let b3 = insert_limit_spec(b2, o2);
                if l3.len() > 0 {
                    assert(order.price > l3[l3.len() - 1].price);
                }
                assert forall|i: int, j: int| 0 <= i < b3.bids.len() && 0 <= j < b3.asks.len() implies
                    #[trigger] b3.bids[i].price < #[trigger] b3.asks[j].price by {
                    let q = l3[i].price;
                    if i < l3.len() - 1 {
                        assert(l3[i].price < l3[l3.len() - 1].price);
                    }
                    assert(all_above(b2.asks, q));
                    lemma_insert_level_props(b2.asks, o2.price, o2, q);
                }
                lemma_insert_level_props(b2.asks, o2.price, o2, 0);
            }
        },
    }
}

proof fn lemma_collect_invariant(book: BookModel, price: Price, side: Side)
    requires
        book.wf(),
        uncrossed(book),
    ensures
        collect_triggered_spec(book, price, side).0.wf(),
        uncrossed(collect_triggered_spec(book, price, side).0),
        orders_valid(collect_triggered_spec(book, price, side).1),
{
    lemma_take_at_or_below_rest(book.stop_asks, price);
    lemma_take_at_or_above_rest(book.stop_bids, price);
    lemma_take_valid(book.stop_asks, price);
    lemma_take_valid(book.stop_bids, price);
}

/// Matching keeps the book well formed and uncrossed.
pub proof fn lemma_match_order_invariant(book: BookModel, order: Order, now: SimTime, depth: nat)
    requires
        book.wf(),
        uncrossed(book),
        order.valid(),
    ensures
        match_order_spec(book, order, now, depth).0.wf(),
        uncrossed(match_order_spec(book, order, now, depth).0),
    decreases MAX_STOP_DEPTH + 1 - depth, 0nat,
{
    if depth > MAX_STOP_DEPTH {
    } else if order.order_type is Fok && !can_fill_fully_spec(book, order) {
    } else {
        lemma_sweep_book_invariant(book, order, now);
        let (o2, b2, trades) = sweep_book(book, order, now);
        let b3 = if restable(order) && o2.rem() > 0 { insert_limit_spec(b2, o2) } else { b2 };
        if trades.len() > 0 {
            lemma_collect_invariant(b3, trades.last().price, order.side);
            let (b4, triggered) = collect_triggered_spec(b3, trades.last().price, order.side);
            lemma_run_stops_invariant(b4, triggered, now, depth + 1);
        }
    }
}

/// Matching a list of triggered stops keeps the book well formed and uncrossed.
pub proof fn lemma_run_stops_invariant(book: BookModel, stops: Seq<Order>, now: SimTime, depth: nat)
    requires
        book.wf(),
        uncrossed(book),
        orders_valid(stops),
    ensures
        run_stops(book, stops, now, depth).0.wf(),
        uncrossed(run_stops(book, stops, now, depth).0),
    decreases MAX_STOP_DEPTH + 1 - depth, stops.len(),
{
    if stops.len() > 0 {
        assert(stops[0].valid());
        lemma_match_order_invariant(book, convert_stop_spec(stops[0]), now, depth);
        let (b1, t1) = match_order_spec(book, convert_stop_spec(stops[0]), now, depth);
        assert forall|j: int| 0 <= j < stops.drop_first().len() implies (#[trigger] stops.drop_first()[j]).valid() by {
            assert(stops.drop_first()[j] == stops[j + 1]);
        }
        lemma_run_stops_invariant(b1, stops.drop_first(), now, depth);
    }
}

pub proof fn lemma_queue_effective_add(a: Seq<Order>, b: Seq<Order>)
    ensures
        queue_effective(a + b) == queue_effective(a) + queue_effective(b),
    decreases a.len(),
{
    if a.len() > 0 {
        lemma_queue_effective_add(a.drop_first(), b);
        assert((a + b).drop_first() =~= a.drop_first() + b);
    } else {
        assert(a + b =~= b);
    }
}

pub proof fn lemma_available_asks_le_total(levels: Seq<Level>, limit: Price)
    requires
        all_queues_valid(levels),
    ensures
        available_asks(levels, limit) <= available_asks(levels, 0),
    decreases levels.len(),
{
    if levels.len() > 0 {
        assert(queue_valid(levels[0].orders));
        lemma_queue_effective_nonneg(levels[0].orders);
        assert forall|i: int| 0 <= i < levels.drop_first().len() implies queue_valid((#[trigger] levels.drop_first()[i]).orders) by {
            assert(levels.drop_first()[i] == levels[i + 1]);
        }
        lemma_available_asks_nonneg(levels.drop_first(), 0);
        lemma_available_asks_le_total(levels.drop_first(), limit);
    }
}

pub proof fn lemma_available_bids_le_total(levels: Seq<Level>, limit: Price)
    requires
        all_queues_valid(levels),
    ensures
        available_bids(levels, limit) <= available_bids(levels, 0),
    decreases levels.len(),
{
    if levels.len() > 0 {
        assert(queue_valid(levels[levels.len() - 1].orders));
        lemma_queue_effective_nonneg(levels.last().orders);
        assert forall|i: int| 0 <= i < levels.drop_last().len() implies queue_valid((#[trigger] levels.drop_last()[i]).orders) by {
            assert(levels.drop_last()[i] == levels[i]);
        }
        lemma_available_bids_nonneg(levels.drop_last(), 0);
        lemma_available_bids_le_total(levels.drop_last(), limit);
    }
}

/// An order that takes any price fills entirely when the side it sweeps holds enough.
pub proof fn lemma_sweep_fills_when_available(order: Order, levels: Seq<Level>, now: SimTime)
    requires
        order.valid(),
        levels_wf(levels),
        order.order_type is Market || order.order_type is Ioc || order.order_type is Fok,
        order.side is Bid ==> order.rem() <= available_asks(levels, 0),
        order.side is Ask ==> order.rem() <= available_bids(levels, 0),
    ensures
        sweep_levels(order, levels, now).0.rem() <= 0,
    decreases levels.len(),
{
    lemma_refill(order);
    if order.rem() <= 0 || levels.len() == 0 {
    } else {
        let i = best_index(levels, order.side);
        let lvl = levels[i];
        assert(queue_valid(lvl.orders));
        lemma_fill_level_props(order, lvl.orders, lvl.price, now);
        let (o2, q2, t) = fill_level(order, lvl.orders, lvl.price, now);
        if q2.len() == 0 {
            assert(queue_effective(q2) == 0);
            let rest = levels.remove(i);
            lemma_levels_wf_remove(levels, i);
            match order.side {
                Side::Bid => {
                    assert(rest =~= levels.drop_first());
                },
                Side::Ask => {
                    assert(rest =~= levels.drop_last());
                },
            }
            lemma_sweep_fills_when_available(o2, rest, now);
        }
    }
}

/// Effective quantity (hidden reserves included) of the levels an order crosses, taken best
/// level first as a sweep takes them.
pub open spec fn crossing_available(order: Order, levels: Seq<Level>) -> int
    decreases levels.len(),
{
    if levels.len() == 0 {
        0
    } else {
        let i = best_index(levels, order.side);
        if !crosses(order, levels[i].price) {
            0
        } else {
            queue_effective(levels[i].orders) + crossing_available(order, levels.remove(i))
        }
    }
}

pub proof fn lemma_crossing_available_props(a: Order, b: Order, levels: Seq<Level>)
    requires
        continues(a, b),
        all_queues_valid(levels),
    ensures
        crossing_available(a, levels) == crossing_available(b, levels),
        crossing_available(a, levels) >= 0,
    decreases levels.len(),
{
    if levels.len() > 0 {
        let i = best_index(levels, a.side);
        lemma_continues_crosses(a, b, levels[i].price);
        assert(queue_valid(levels[i].orders));
        lemma_queue_effective_nonneg(levels[i].orders);
        let rest = levels.remove(i);
        assert forall|j: int| 0 <= j < rest.len() implies queue_valid((#[trigger] rest[j]).orders) by {
            if j < i { assert(rest[j] == levels[j]); } else { assert(rest[j] == levels[j + 1]); }
        }
        lemma_crossing_available_props(a, b, rest);
    }
}

/// A sweep trades exactly the smaller of what the order has left (hidden reserve included) and
/// what the levels it crosses hold: it never stops early.
pub proof fn lemma_sweep_fills_min(order: Order, levels: Seq<Level>, now: SimTime)
    requires
        order.valid(),
        levels_wf(levels),
    ensures
        total_size(sweep_levels(order, levels, now).2) == min_int(order.effective(), crossing_available(order, levels)),
    decreases levels.len(),
{
    lemma_refill(order);
    lemma_crossing_available_props(order, order, levels);
    let o = refill(order);
    if o.rem() <= 0 || levels.len() == 0 {
        assert(total_size(Seq::<Trade>::empty()) == 0);
    } else {
        let i = best_index(levels, order.side);
        let lvl = levels[i];
        lemma_continues_crosses(order, o, lvl.price);
        if !crosses(o, lvl.price) {
            assert(total_size(Seq::<Trade>::empty()) == 0);
        } else {
            assert(queue_valid(lvl.orders));
            lemma_fill_level_props(o, lvl.orders, lvl.price, now);
            lemma_queue_effective_nonneg(lvl.orders);
            let (o2, q2, t) = fill_level(o, lvl.orders, lvl.price, now);
            lemma_continues_trans(order, o, o2);
            let rest = levels.remove(i);
            assert forall|j: int| 0 <= j < rest.len() implies queue_valid((#[trigger] rest[j]).orders) by {
                if j < i { assert(rest[j] == levels[j]); } else { assert(rest[j] == levels[j + 1]); }
            }
            lemma_crossing_available_props(order, o2, rest);
            if q2.len() == 0 {
                assert(queue_effective(q2) == 0);
                lemma_levels_wf_remove(levels, i);
                lemma_sweep_fills_min(o2, rest, now);
                let (o3, l3, t3) = sweep_levels(o2, rest, now);
                lemma_total_size_add(t, t3);
            } else {
                lemma_queue_effective_nonneg(q2);
            }
        }
    }
}

/// A sweep leaves no better price behind: a buy's trades are at or below every ask left, a
/// sell's at or above every bid left.
pub proof fn lemma_sweep_no_better_price_left(order: Order, levels: Seq<Level>, now: SimTime)
    requires
        order.valid(),
        levels_wf(levels),
    ensures
        ({
            let (o3, l3, ts) = sweep_levels(order, levels, now);
            forall|k: int, j: int| 0 <= k < ts.len() && 0 <= j < l3.len() ==> match order.side {
                Side::Bid => ts[k].price <= l3[j].price,
                Side::Ask => ts[k].price >= l3[j].price,
            }
        }),
    decreases levels.len(),
{
    lemma_refill(order);
    let o = refill(order);
    if o.rem() <= 0 || levels.len() == 0 {
    } else {
        let i = best_index(levels, order.side);
        let lvl = levels[i];
        if crosses(o, lvl.price) {
            assert(queue_valid(lvl.orders));
            lemma_fill_level_props(o, lvl.orders, lvl.price, now);
            let (o2, q2, t) = fill_level(o, lvl.orders, lvl.price, now);
            if q2.len() == 0 {
                let rest = levels.remove(i);
                lemma_levels_wf_remove(levels, i);
                lemma_sweep_no_better_price_left(o2, rest, now);
                lemma_sweep_levels_bounds(o2, rest, now, lvl.price);
                let (o3, l3, t3) = sweep_levels(o2, rest, now);
                match order.side {
                    Side::Bid => {
                        assert(all_above(rest, lvl.price)) by {
                            assert forall|a: int| 0 <= a < rest.len() implies (#[trigger] rest[a]).price > lvl.price by {
                                assert(rest[a] == levels[a + 1]);
                            }
                        }
                    },
                    Side::Ask => {
                        assert(all_below(rest, lvl.price)) by {
                            assert forall|a: int| 0 <= a < rest.len() implies (#[trigger] rest[a]).price < lvl.price by {
                                assert(rest[a] == levels[a]);
                            }
                        }
                    },
                }
                assert forall|k: int| 0 <= k < (t + t3).len() implies
                    #[trigger] (t + t3)[k] == (if k < t.len() { t[k] } else { t3[k - t.len()] }) by {}
            } else {
                let l3 = levels.update(i, Level { price: lvl.price, orders: q2 });
                assert forall|j: int| 0 <= j < l3.len() implies match order.side {
                    Side::Bid => lvl.price <= (#[trigger] l3[j]).price,
                    Side::Ask => lvl.price >= l3[j].price,
                } by {
                    assert(l3[j].price == levels[j].price);
                }
            }
        }
    }
}

} // verus!
