use vstd::prelude::*;

use std::collections::VecDeque;

use crate::shared::types::{AgentId, Order, OrderId, OrderType, Price, Side, SimTime, Trade};
use crate::sim::book_model::{
    available_asks, available_bids, best_index, can_fill_fully_spec, cancel_levels, cancel_spec,
    collect_triggered_spec, convert_stop_spec, crosses, fill_level, flatten_levels, insert_level,
    insert_limit_spec, insert_stop_spec, is_stop, lemma_available_asks_nonneg,
    lemma_available_bids_nonneg, lemma_cancel_levels_at, lemma_cancel_levels_none,
    lemma_fill_level_props, lemma_fill_step_measure, lemma_refill, refill, lemma_insert_level_at, lemma_insert_level_wf,
    lemma_levels_wf_remove, lemma_levels_wf_update, lemma_queue_effective_nonneg,
    lemma_remove_first_id_at, lemma_take_at_or_above_split, lemma_take_valid, levels_wf,
    match_order_spec, orders_valid, queue_effective, queue_has_id, queue_measure, queue_valid,
    run_stops, submit_spec, sweep_levels, take_at_or_above, take_at_or_below, BookModel, Level,
    MAX_STOP_DEPTH,
};

verus! {

/// A level of resting orders, oldest first.
struct PriceLevel {
    price: Price,
    orders: VecDeque<Order>,
}

/// A level of waiting stop orders, oldest first.
struct StopLevel {
    price: Price,
    orders: Vec<Order>,
}

spec fn price_levels(v: Seq<PriceLevel>) -> Seq<Level> {
    v.map_values(|l: PriceLevel| Level { price: l.price, orders: l.orders@ })
}

spec fn stop_levels(v: Seq<StopLevel>) -> Seq<Level> {
    v.map_values(|l: StopLevel| Level { price: l.price, orders: l.orders@ })
}

/// A limit order book with stop buckets. Each side is a list of levels in ascending price order,
/// so the best bid is the last bid level and the best ask the first ask level. A sorted vector
/// is used rather than a `BTreeMap`: the map calls a book needs (`entry`, `get_mut`, the first
/// and last key, reverse iteration) have no specification in vstd, whose map model is unordered,
/// while the ascending order of a vector is an invariant that the proofs read directly.
pub struct LimitOrderBook {
    bids: Vec<PriceLevel>,
    asks: Vec<PriceLevel>,
    stop_asks: Vec<StopLevel>,
    stop_bids: Vec<StopLevel>,
}

impl View for LimitOrderBook {
    type V = BookModel;

    closed spec fn view(&self) -> BookModel {
        BookModel {
            bids: price_levels(self.bids@),
            asks: price_levels(self.asks@),
            stop_asks: stop_levels(self.stop_asks@),
            stop_bids: stop_levels(self.stop_bids@),
        }
    }
}

/// Finds the first level whose price is at least `price`.
fn find_price_level(levels: &Vec<PriceLevel>, price: Price) -> (k: usize)
    requires
        levels_wf(price_levels(levels@)),
    ensures
        k <= levels.len(),
        forall|i: int| 0 <= i < k ==> (#[trigger] price_levels(levels@)[i]).price < price,
        k < levels.len() ==> price_levels(levels@)[k as int].price >= price,
{
    let mut k: usize = 0;
    while k < levels.len() && levels[k].price < price
        invariant
            k <= levels.len(),
            forall|i: int| 0 <= i < k ==> (#[trigger] price_levels(levels@)[i]).price < price,
        decreases levels.len() - k,
    {
        k = k + 1;
    }
    k
}

fn find_stop_level(levels: &Vec<StopLevel>, price: Price) -> (k: usize)
    requires
        levels_wf(stop_levels(levels@)),
    ensures
        k <= levels.len(),
        forall|i: int| 0 <= i < k ==> (#[trigger] stop_levels(levels@)[i]).price < price,
        k < levels.len() ==> stop_levels(levels@)[k as int].price >= price,
{
    let mut k: usize = 0;
    while k < levels.len() && levels[k].price < price
        invariant
            k <= levels.len(),
            forall|i: int| 0 <= i < k ==> (#[trigger] stop_levels(levels@)[i]).price < price,
        decreases levels.len() - k,
    {
        k = k + 1;
    }
    k
}

fn insert_price_level(levels: &mut Vec<PriceLevel>, price: Price, order: Order)
    requires
        levels_wf(price_levels(old(levels)@)),
        order.valid(),
    ensures
        price_levels(final(levels)@) == insert_level(price_levels(old(levels)@), price, order),
        levels_wf(price_levels(final(levels)@)),
{
    let ghost m = price_levels(levels@);
    let k = find_price_level(levels, price);
    proof {
        lemma_insert_level_at(m, price, order, k as int);
        lemma_insert_level_wf(m, price, order, k as int);
    }
    if k < levels.len() && levels[k].price == price {
        let mut lvl = levels.remove(k);
        lvl.orders.push_back(order);
        levels.insert(k, lvl);
        assert(price_levels(levels@) =~= m.update(k as int, Level { price, orders: m[k as int].orders.push(order) }));
    } else {
        let mut orders = VecDeque::new();
        orders.push_back(order);
        levels.insert(k, PriceLevel { price, orders });
        assert(orders@ =~= seq![order]);
        assert(price_levels(levels@) =~= m.insert(k as int, Level { price, orders: seq![order] }));
    }
}

fn insert_stop_level(levels: &mut Vec<StopLevel>, price: Price, order: Order)
    requires
        levels_wf(stop_levels(old(levels)@)),
        order.valid(),
    ensures
        stop_levels(final(levels)@) == insert_level(stop_levels(old(levels)@), price, order),
        levels_wf(stop_levels(final(levels)@)),
{
    let ghost m = stop_levels(levels@);
    let k = find_stop_level(levels, price);
    proof {
        lemma_insert_level_at(m, price, order, k as int);
        lemma_insert_level_wf(m, price, order, k as int);
    }
    if k < levels.len() && levels[k].price == price {
        let mut lvl = levels.remove(k);
        lvl.orders.push(order);
        levels.insert(k, lvl);
        assert(stop_levels(levels@) =~= m.update(k as int, Level { price, orders: m[k as int].orders.push(order) }));
    } else {
        let mut orders = Vec::new();
        orders.push(order);
        levels.insert(k, StopLevel { price, orders });
        assert(orders@ =~= seq![order]);
        assert(stop_levels(levels@) =~= m.insert(k as int, Level { price, orders: seq![order] }));
    }
}

/// Position of the first order with this id in a queue, or the queue's length.
fn position_in_deque(q: &VecDeque<Order>, id: OrderId) -> (k: usize)
    ensures
        k <= q.len(),
        forall|j: int| 0 <= j < k ==> (#[trigger] q@[j]).id != id,
        k < q.len() ==> q@[k as int].id == id,
        (k < q.len()) == queue_has_id(q@, id),
{
    let mut k: usize = 0;
    while k < q.len() && q[k].id != id
        invariant
            k <= q.len(),
            forall|j: int| 0 <= j < k ==> (#[trigger] q@[j]).id != id,
        decreases q.len() - k,
    {
        k = k + 1;
    }
    k
}

fn position_in_vec(q: &Vec<Order>, id: OrderId) -> (k: usize)
    ensures
        k <= q.len(),
        forall|j: int| 0 <= j < k ==> (#[trigger] q@[j]).id != id,
        k < q.len() ==> q@[k as int].id == id,
        (k < q.len()) == queue_has_id(q@, id),
{
    let mut k: usize = 0;
    while k < q.len() && q[k].id != id
        invariant
            k <= q.len(),
            forall|j: int| 0 <= j < k ==> (#[trigger] q@[j]).id != id,
        decreases q.len() - k,
    {
        k = k + 1;
    }
    k
}

/// Removing one order from a level keeps the side well formed.
proof fn lemma_cancel_wf(m: Seq<Level>, i: int, pos: int)
    requires
        levels_wf(m),
        0 <= i < m.len(),
        0 <= pos < m[i].orders.len(),
    ensures
        m[i].orders.remove(pos).len() == 0 ==> levels_wf(m.remove(i)),
        m[i].orders.remove(pos).len() > 0 ==> levels_wf(m.update(i, Level { price: m[i].price, orders: m[i].orders.remove(pos) })),
{
    let q = m[i].orders.remove(pos);
    if q.len() == 0 {
        lemma_levels_wf_remove(m, i);
    } else {
        assert(queue_valid(m[i].orders));
        assert forall|k: int| 0 <= k < q.len() implies #[trigger] q[k].valid() by {
            if k < pos {
                assert(q[k] == m[i].orders[k]);
            } else {
                assert(q[k] == m[i].orders[k + 1]);
            }
        }
        lemma_levels_wf_update(m, i, q);
    }
}

/// Removes the first order with this id from the lowest-priced level holding one.
fn cancel_from_deque(levels: &mut Vec<PriceLevel>, id: OrderId) -> (found: bool)
    requires
        levels_wf(price_levels(old(levels)@)),
    ensures
        levels_wf(price_levels(final(levels)@)),
        (price_levels(final(levels)@), found) == cancel_levels(price_levels(old(levels)@), id),
        !found ==> final(levels)@ == old(levels)@,
{
    let ghost m = price_levels(levels@);
    let mut i: usize = 0;
    while i < levels.len()
        invariant
            i <= levels.len(),
            m == price_levels(levels@),
            m == price_levels(old(levels)@),
            levels@ == old(levels)@,
            levels_wf(m),
            forall|j: int| 0 <= j < i ==> !queue_has_id((#[trigger] m[j]).orders, id),
        decreases levels.len() - i,
    {
        let pos = position_in_deque(&levels[i].orders, id);
        if pos < levels[i].orders.len() {
            proof {
                lemma_cancel_levels_at(m, id, i as int);
                lemma_remove_first_id_at(m[i as int].orders, id, pos as int);
                lemma_cancel_wf(m, i as int, pos as int);
            }
            let mut lvl = levels.remove(i);
            let _ = lvl.orders.remove(pos);
            if lvl.orders.len() > 0 {
                levels.insert(i, lvl);
                assert(price_levels(levels@) =~= m.update(i as int, Level { price: m[i as int].price, orders: m[i as int].orders.remove(pos as int) }));
            } else {
                assert(price_levels(levels@) =~= m.remove(i as int));
            }
            return true;
        }
        i = i + 1;
    }
    proof {
        lemma_cancel_levels_none(m, id);
    }
    false
}

fn cancel_from_vec(levels: &mut Vec<StopLevel>, id: OrderId) -> (found: bool)
    requires
        levels_wf(stop_levels(old(levels)@)),
    ensures
        levels_wf(stop_levels(final(levels)@)),
        (stop_levels(final(levels)@), found) == cancel_levels(stop_levels(old(levels)@), id),
        !found ==> final(levels)@ == old(levels)@,
{
    let ghost m = stop_levels(levels@);
    let mut i: usize = 0;
    while i < levels.len()
        invariant
            i <= levels.len(),
            m == stop_levels(levels@),
            m == stop_levels(old(levels)@),
            levels@ == old(levels)@,
            levels_wf(m),
            forall|j: int| 0 <= j < i ==> !queue_has_id((#[trigger] m[j]).orders, id),
        decreases levels.len() - i,
    {
        let pos = position_in_vec(&levels[i].orders, id);
        if pos < levels[i].orders.len() {
            proof {
                lemma_cancel_levels_at(m, id, i as int);
                lemma_remove_first_id_at(m[i as int].orders, id, pos as int);
                lemma_cancel_wf(m, i as int, pos as int);
            }
            let mut lvl = levels.remove(i);
            let _ = lvl.orders.remove(pos);
            if lvl.orders.len() > 0 {
                levels.insert(i, lvl);
                assert(stop_levels(levels@) =~= m.update(i as int, Level { price: m[i as int].price, orders: m[i as int].orders.remove(pos as int) }));
            } else {
                assert(stop_levels(levels@) =~= m.remove(i as int));
            }
            return true;
        }
        i = i + 1;
    }
    proof {
        lemma_cancel_levels_none(m, id);
    }
    false
}

/// Whether `order` may trade at `best_price`.
fn price_crosses(order: &Order, best_price: Price) -> (r: bool)
    ensures
        r == crosses(*order, best_price),
{
    match order.order_type {
        OrderType::Market | OrderType::Ioc | OrderType::Fok => true,
        OrderType::Limit | OrderType::Iceberg { .. } => match order.side {
            Side::Bid => order.price >= best_price,
            Side::Ask => order.price <= best_price,
        },
        _ => false,
    }
}

/// An iceberg aggressor whose shown slice is used up takes its next slice from its reserve.
fn refill_order(order: &mut Order)
    requires
        old(order).valid(),
    ensures
        *final(order) == refill(*old(order)),
{
    if order.filled >= order.quantity {
        match order.order_type {
            OrderType::Iceberg { display_qty, hidden_qty } => {
                if hidden_qty > 0 {
                    let r = if display_qty < hidden_qty { display_qty } else { hidden_qty };
                    order.quantity = r;
                    order.filled = 0;
                    order.order_type = OrderType::Iceberg { display_qty, hidden_qty: hidden_qty - r };
                }
            },
            _ => {},
        }
    }
}

/// Matches `order` against one level's queue at `price`, oldest first; an exhausted iceberg
/// slice, resting or aggressing, is replenished from its reserve (a resting one at the back of
/// the queue).
fn fill_queue(
    order: &mut Order,
    queue: &mut VecDeque<Order>,
    price: Price,
    now: SimTime,
    trades: &mut Vec<Trade>,
)
    requires
        old(order).valid(),
        queue_valid(old(queue)@),
    ensures
        ({
            let (o, q, t) = fill_level(*old(order), old(queue)@, price, now);
            &&& *final(order) == o
            &&& final(queue)@ == q
            &&& final(trades)@ == old(trades)@ + t
        }),
{
    let ghost target = fill_level(*order, queue@, price, now);
    let ghost trades0 = trades@;
    proof {
        lemma_fill_level_props(*order, queue@, price, now);
        lemma_refill(*order);
    }
    refill_order(order);
    assert(fill_level(*order, queue@, price, now) == target);
    while order.filled < order.quantity && queue.len() > 0
        invariant
            order.valid(),
            refill(*order) == *order,
            queue_valid(queue@),
            fill_level(*order, queue@, price, now).0 == target.0,
            fill_level(*order, queue@, price, now).1 == target.1,
            trades0 + target.2 == trades@ + fill_level(*order, queue@, price, now).2,
        decreases order.effective(), queue_measure(queue@),
    {
        let ghost o0 = *order;
        let ghost q0 = queue@;
        proof {
            lemma_fill_step_measure(o0, q0);
            assert(q0[0].valid());
        }
        let mut resting = queue.pop_front().unwrap();
        let rem_o = order.quantity - order.filled;
        let rem_r = resting.quantity - resting.filled;
        let fq = if rem_o < rem_r { rem_o } else { rem_r };
        order.filled = order.filled + fq;
        resting.filled = resting.filled + fq;
        trades.push(Trade {
            aggressor_order_id: order.id,
            resting_order_id: resting.id,
            aggressor_agent: order.agent_id,
            resting_agent: resting.agent_id,
            price,
            size: fq,
            aggressor_side: order.side,
            time: now,
        });
        if resting.filled == resting.quantity {
            match resting.order_type {
                OrderType::Iceberg { display_qty, hidden_qty } => {
                    if hidden_qty > 0 {
                        let r = if display_qty < hidden_qty { display_qty } else { hidden_qty };
                        queue.push_back(Order {
                            quantity: r,
                            filled: 0,
                            order_type: OrderType::Iceberg { display_qty, hidden_qty: hidden_qty - r },
                            ..resting
                        });
                    }
                },
                _ => {},
            }
        } else {
            queue.push_front(resting);
        }
        let ghost o2 = *order;
        proof {
            lemma_refill(o2);
        }
        refill_order(order);
        proof {
            assert(fill_level(*order, queue@, price, now) == fill_level(o2, queue@, price, now));
            let (o3, q3, ts) = fill_level(o2, queue@, price, now);
            assert(queue@ =~= (if resting.rem() == 0 {
                q0.drop_first() + crate::sim::book_model::replenish(resting)
            } else {
                q0.update(0, resting)
            }));
            assert(fill_level(o0, q0, price, now).2 == seq![trades@.last()] + ts);
            assert(trades0 + target.2 =~= trades@ + ts);
        }
    }
    proof {
        assert(fill_level(*order, queue@, price, now).2 =~= Seq::<Trade>::empty());
        assert(trades@ =~= trades0 + target.2);
    }
}

/// Sweeps `order` through one side of the book, best level first, removing emptied levels.
fn sweep_side(order: &mut Order, levels: &mut Vec<PriceLevel>, now: SimTime, trades: &mut Vec<Trade>)
    requires
        old(order).valid(),
        levels_wf(price_levels(old(levels)@)),
    ensures
        ({
            let (o, l, t) = sweep_levels(*old(order), price_levels(old(levels)@), now);
            &&& *final(order) == o
            &&& price_levels(final(levels)@) == l
            &&& final(trades)@ == old(trades)@ + t
        }),
        final(order).valid(),
        levels_wf(price_levels(final(levels)@)),
{
    let ghost target = sweep_levels(*order, price_levels(levels@), now);
    let ghost trades0 = trades@;
    proof {
        lemma_refill(*order);
    }
    refill_order(order);
    assert(sweep_levels(*order, price_levels(levels@), now) == target);
    let mut stop = false;
    while !stop && order.filled < order.quantity && levels.len() > 0
        invariant
            order.valid(),
            refill(*order) == *order,
            levels_wf(price_levels(levels@)),
            sweep_levels(*order, price_levels(levels@), now).0 == target.0,
            sweep_levels(*order, price_levels(levels@), now).1 == target.1,
            trades0 + target.2 == trades@ + sweep_levels(*order, price_levels(levels@), now).2,
            stop ==> sweep_levels(*order, price_levels(levels@), now) == (*order, price_levels(levels@), Seq::<Trade>::empty()),
        decreases levels.len() + (if order.filled < order.quantity { 1int } else { 0 }) + (if stop { 0int } else { 1 }),
    {
        let ghost o0 = *order;
        let ghost m0 = price_levels(levels@);
        let i: usize = match order.side {
            Side::Bid => 0,
            Side::Ask => levels.len() - 1,
        };
        assert(i == best_index(m0, o0.side));
        let p = levels[i].price;
        if !price_crosses(order, p) {
            stop = true;
        } else {
            let mut lvl = levels.remove(i);
            assert(price_levels(levels@) =~= m0.remove(i as int));
            assert(lvl.orders@ == m0[i as int].orders);
            proof {
                lemma_fill_level_props(o0, m0[i as int].orders, p, now);
            }
            fill_queue(order, &mut lvl.orders, p, now, trades);
            if lvl.orders.len() > 0 {
                levels.insert(i, lvl);
                assert(price_levels(levels@) =~= m0.update(i as int, Level { price: p, orders: lvl.orders@ }));
                proof {
                    lemma_levels_wf_update(m0, i as int, lvl.orders@);
                }
            } else {
                proof {
                    lemma_levels_wf_remove(m0, i as int);
                }
            }
            proof {
                let (_o3, _l3, t3) = sweep_levels(*order, price_levels(levels@), now);
                assert(trades0 + target.2 =~= trades@ + t3);
            }
        }
    }
    proof {
        assert(sweep_levels(*order, price_levels(levels@), now).2 =~= Seq::<Trade>::empty());
        assert(trades@ =~= trades0 + target.2);
    }
}

/// Shares a resting order can still trade: what remains shown plus an iceberg's hidden reserve.
fn effective_remaining(order: &Order) -> (r: u64)
    requires
        order.valid(),
    ensures
        r == order.effective(),
{
    let base = (order.quantity - order.filled) as u64;
    match order.order_type {
        OrderType::Iceberg { hidden_qty, .. } => base + hidden_qty as u64,
        _ => base,
    }
}

/// Takes up to `needed` from the orders of one queue; returns what is still needed.
fn take_from_queue(q: &VecDeque<Order>, needed: u32) -> (r: u32)
    requires
        queue_valid(q@),
    ensures
        r <= needed,
        r == 0 || r == needed - queue_effective(q@),
        (needed <= queue_effective(q@)) == (r == 0),
{
    let mut needed = needed;
    let ghost n0 = needed;
    let mut k: usize = 0;
    proof {
        assert(q@.skip(0) =~= q@);
    }
    while k < q.len() && needed > 0
        invariant
            k <= q.len(),
            queue_valid(q@),
            needed <= n0,
            needed == 0 || needed == n0 - (queue_effective(q@) - queue_effective(q@.skip(k as int))),
            (n0 <= queue_effective(q@)) == (needed <= queue_effective(q@.skip(k as int))),
        decreases q.len() - k,
    {
        let ghost rest = q@.skip(k as int);
        proof {
            assert(rest[0] == q@[k as int]);
            assert(rest.drop_first() =~= q@.skip(k + 1));
            assert forall|j: int| 0 <= j < q@.skip(k + 1).len() implies #[trigger] q@.skip(k + 1)[j].valid() by {
                assert(q@.skip(k + 1)[j] == q@[k + 1 + j]);
            }
            lemma_queue_effective_nonneg(q@.skip(k + 1));
            assert(q@[k as int].valid());
        }
        let avail = effective_remaining(&q[k]);
        let fill: u32 = if (needed as u64) < avail { needed } else { avail as u32 };
        needed = needed - fill;
        k = k + 1;
    }
    proof {
        if needed > 0 {
            assert(q@.skip(k as int) =~= Seq::<Order>::empty());
        } else {
            assert forall|j: int| 0 <= j < q@.skip(k as int).len() implies #[trigger] q@.skip(k as int)[j].valid() by {
                assert(q@.skip(k as int)[j] == q@[k + j]);
            }
            lemma_queue_effective_nonneg(q@.skip(k as int));
        }
    }
    needed
}

impl LimitOrderBook {
    /// The book's model is well formed: on each side prices strictly ascend, no level is
    /// empty, and every order is valid.
    pub open spec fn wf(&self) -> bool {
        self@.wf()
    }

    pub fn new() -> (book: Self)
        ensures
            book.wf(),
            book@ == BookModel::empty(),
    {
        let book = LimitOrderBook { bids: Vec::new(), asks: Vec::new(), stop_asks: Vec::new(), stop_bids: Vec::new() };
        assert(book@ =~= BookModel::empty());
        book
    }

    /// The highest bid price, if any bid rests.
    pub fn best_bid(&self) -> (r: Option<Price>)
        ensures
            r == self@.best_bid(),
    {
        if self.bids.len() == 0 {
            None
        } else {
            Some(self.bids[self.bids.len() - 1].price)
        }
    }

    /// The lowest ask price, if any ask rests.
    pub fn best_ask(&self) -> (r: Option<Price>)
        ensures
            r == self@.best_ask(),
    {
        if self.asks.len() == 0 {
            None
        } else {
            Some(self.asks[0].price)
        }
    }

    /// Whether the opposite side holds enough (hidden reserves included) within the order's
    /// limit, if it has a positive one, to fill the order entirely.
    fn can_fill_fully(&self, order: &Order) -> (r: bool)
        requires
            self.wf(),
            order.valid(),
        ensures
            r == can_fill_fully_spec(self@, *order),
    {
        let mut needed = order.quantity - order.filled;
        let limit = order.price;
        match order.side {
            Side::Bid => {
                let ghost m = price_levels(self.asks@);
                let ghost total = available_asks(m, limit);
                let mut i: usize = 0;
                let mut stop = false;
                proof {
                    assert(m.skip(0) =~= m);
                }
                while !stop && i < self.asks.len() && needed > 0
                    invariant
                        i <= self.asks.len(),
                        m == price_levels(self.asks@),
                        levels_wf(m),
                        (order.rem() <= total) == (needed <= available_asks(m.skip(i as int), limit)),
                        stop ==> available_asks(m.skip(i as int), limit) == 0,
                    decreases self.asks.len() - i + (if stop { 0int } else { 1 }),
                {
                    let ghost rest = m.skip(i as int);
                    proof {
                        assert(rest[0] == m[i as int]);
                        assert(rest.drop_first() =~= m.skip(i + 1));
                        assert forall|j: int| 0 <= j < m.skip(i + 1).len() implies queue_valid((#[trigger] m.skip(i + 1)[j]).orders) by {
                            assert(m.skip(i + 1)[j] == m[i + 1 + j]);
                        }
                        lemma_available_asks_nonneg(m.skip(i + 1), limit);
                        assert(queue_valid(m[i as int].orders));
                    }
                    if limit > 0 && self.asks[i].price > limit {
                        stop = true;
                    } else {
                        needed = take_from_queue(&self.asks[i].orders, needed);
                        i = i + 1;
                    }
                }
                proof {
                    if !stop && needed > 0 {
                        assert(m.skip(i as int) =~= Seq::<Level>::empty());
                    }
                    assert forall|j: int| 0 <= j < m.skip(i as int).len() implies queue_valid((#[trigger] m.skip(i as int)[j]).orders) by {
                        assert(m.skip(i as int)[j] == m[i + j]);
                    }
                    lemma_available_asks_nonneg(m.skip(i as int), limit);
                }
            },
            Side::Ask => {
                let ghost m = price_levels(self.bids@);
                let ghost total = available_bids(m, limit);
                let mut i: usize = self.bids.len();
                let mut stop = false;
                proof {
                    assert(m.take(m.len() as int) =~= m);
                }
                while !stop && i > 0 && needed > 0
                    invariant
                        i <= self.bids.len(),
                        m == price_levels(self.bids@),
                        levels_wf(m),
                        (order.rem() <= total) == (needed <= available_bids(m.take(i as int), limit)),
                        stop ==> available_bids(m.take(i as int), limit) == 0,
                    decreases i + (if stop { 0int } else { 1 }),
                {
                    let ghost rest = m.take(i as int);
                    proof {
                        assert(rest.last() == m[i - 1]);
                        assert(rest.drop_last() =~= m.take(i - 1));
                        assert forall|j: int| 0 <= j < m.take(i - 1).len() implies queue_valid((#[trigger] m.take(i - 1)[j]).orders) by {
                            assert(m.take(i - 1)[j] == m[j]);
                        }
                        lemma_available_bids_nonneg(m.take(i - 1), limit);
                        assert(queue_valid(m[i - 1].orders));
                    }
                    if limit > 0 && self.bids[i - 1].price < limit {
                        stop = true;
                    } else {
                        needed = take_from_queue(&self.bids[i - 1].orders, needed);
                        i = i - 1;
                    }
                }
                proof {
                    if !stop && needed > 0 {
                        assert(m.take(i as int) =~= Seq::<Level>::empty());
                    }
                    assert forall|j: int| 0 <= j < m.take(i as int).len() implies queue_valid((#[trigger] m.take(i as int)[j]).orders) by {
                        assert(m.take(i as int)[j] == m[j]);
                    }
                    lemma_available_bids_nonneg(m.take(i as int), limit);
                }
            },
        }
        needed == 0
    }

    /// Removes and returns the stops that a trade at `trade_price` by `aggressor_side` triggers.
    fn collect_triggered_stops(&mut self, trade_price: Price, aggressor_side: Side) -> (triggered: Vec<Order>)
        requires
            old(self).wf(),
        ensures
            final(self).wf(),
            (final(self)@, triggered@) == collect_triggered_spec(old(self)@, trade_price, aggressor_side),
            orders_valid(triggered@),
    {
        proof {
            lemma_take_valid(self@.stop_asks, trade_price);
            lemma_take_valid(self@.stop_bids, trade_price);
        }
        let mut triggered: Vec<Order> = Vec::new();
        match aggressor_side {
            Side::Bid => {
                let ghost m0 = stop_levels(self.stop_asks@);
                while self.stop_asks.len() > 0 && self.stop_asks[0].price <= trade_price
                    invariant
                        self.bids@ == old(self).bids@,
                        self.asks@ == old(self).asks@,
                        self.stop_bids@ == old(self).stop_bids@,
                        levels_wf(stop_levels(self.stop_asks@)),
                        take_at_or_below(m0, trade_price).0 == triggered@ + take_at_or_below(stop_levels(self.stop_asks@), trade_price).0,
                        take_at_or_below(m0, trade_price).1 == take_at_or_below(stop_levels(self.stop_asks@), trade_price).1,
                        forall|j: int| 0 <= j < triggered@.len() ==> (#[trigger] triggered@[j]).valid(),
                    decreases self.stop_asks.len(),
                {
                    let ghost cur = stop_levels(self.stop_asks@);
                    let ghost tr0 = triggered@;
                    let mut lvl = self.stop_asks.remove(0);
                    proof {
                        assert(stop_levels(self.stop_asks@) =~= cur.drop_first());
                        assert(lvl.orders@ == cur[0].orders);
                        lemma_levels_wf_remove(cur, 0);
                        assert(cur.remove(0) =~= cur.drop_first());
                        assert(queue_valid(cur[0].orders));
                    }
                    triggered.append(&mut lvl.orders);
                    proof {
                        assert(triggered@ =~= tr0 + cur[0].orders);
                        assert forall|j: int| 0 <= j < triggered@.len() implies (#[trigger] triggered@[j]).valid() by {
                            if j >= tr0.len() {
                                assert(triggered@[j] == cur[0].orders[j - tr0.len()]);
                            }
                        }
                        let (t, r) = take_at_or_below(cur.drop_first(), trade_price);
                        assert(take_at_or_below(cur, trade_price) == (cur[0].orders + t, r));
                        assert(tr0 + (cur[0].orders + t) =~= triggered@ + t);
                    }
                }
                proof {
                    let cur = stop_levels(self.stop_asks@);
                    assert(take_at_or_below(cur, trade_price) == (Seq::<Order>::empty(), cur));
                    assert(triggered@ + Seq::<Order>::empty() =~= triggered@);
                    assert(self@ =~= BookModel { stop_asks: take_at_or_below(m0, trade_price).1, ..old(self)@ });
                }
            },
            Side::Ask => {
                let ghost m0 = stop_levels(self.stop_bids@);
                let mut k: usize = self.stop_bids.len();
                while k > 0 && self.stop_bids[k - 1].price >= trade_price
                    invariant
                        k <= self.stop_bids.len(),
                        m0 == stop_levels(self.stop_bids@),
                        forall|i: int| k <= i < m0.len() ==> (#[trigger] m0[i]).price >= trade_price,
                    decreases k,
                {
                    k = k - 1;
                }
                proof {
                    lemma_take_at_or_above_split(m0, trade_price, k as int);
                }
                let n = self.stop_bids.len();
                while self.stop_bids.len() > k
                    invariant
                        self.bids@ == old(self).bids@,
                        self.asks@ == old(self).asks@,
                        self.stop_asks@ == old(self).stop_asks@,
                        k <= self.stop_bids.len() <= n,
                        n == m0.len(),
                        levels_wf(m0),
                        stop_levels(self.stop_bids@) == m0.subrange(0, k as int) + m0.subrange(k + (n - self.stop_bids.len()), n as int),
                        triggered@ == flatten_levels(m0.subrange(k as int, k + (n - self.stop_bids.len()))),
                    decreases self.stop_bids.len(),
                {
                    let ghost j = n - self.stop_bids.len();
                    let ghost cur = stop_levels(self.stop_bids@);
                    let ghost tr0 = triggered@;
                    let mut lvl = self.stop_bids.remove(k);
                    assert(cur[k as int] == m0[k + j]);
                    assert(lvl.orders@ == m0[k + j].orders);
                    triggered.append(&mut lvl.orders);
                    proof {
                        assert(stop_levels(self.stop_bids@) =~= cur.remove(k as int));
                        assert(cur.remove(k as int) =~= m0.subrange(0, k as int) + m0.subrange(k + j + 1, n as int));
                        let s1 = m0.subrange(k as int, k + j + 1);
                        assert(s1.drop_last() =~= m0.subrange(k as int, k + j));
                        assert(s1.last() == m0[k + j]);
                        assert(triggered@ =~= flatten_levels(s1));
                    }
                }
                proof {
                    assert(stop_levels(self.stop_bids@) =~= m0.subrange(0, k as int));
                    assert forall|i: int, j: int| 0 <= i < j < stop_levels(self.stop_bids@).len() implies
                        stop_levels(self.stop_bids@)[i].price < stop_levels(self.stop_bids@)[j].price by {
                        assert(stop_levels(self.stop_bids@)[i] == m0[i]);
                        assert(stop_levels(self.stop_bids@)[j] == m0[j]);
                    }
                    assert forall|i: int| 0 <= i < stop_levels(self.stop_bids@).len() implies
                        (#[trigger] stop_levels(self.stop_bids@)[i]).orders.len() > 0 && queue_valid(stop_levels(self.stop_bids@)[i].orders) by {
                        assert(stop_levels(self.stop_bids@)[i] == m0[i]);
                    }
                    assert(self@ =~= BookModel { stop_bids: take_at_or_above(m0, trade_price).1, ..old(self)@ });
                }
            },
        }
        triggered
    }

    /// A triggered stop becomes a market order, a stop-limit a limit order.
    fn convert_stop(&self, order: Order) -> (r: Order)
        ensures
            r == convert_stop_spec(order),
    {
        let mut order = order;
        order.order_type = match order.order_type {
            OrderType::Stop { .. } => OrderType::Market,
            OrderType::StopLimit { .. } => OrderType::Limit,
            other => other,
        };
        order
    }

    /// Matches an order at stop-cascade depth `depth`, appending its trades and those of the
    /// stops it triggers to `all_trades`.
    fn match_order(&mut self, order: Order, now: SimTime, depth: usize, all_trades: &mut Vec<Trade>)
        requires
            old(self).wf(),
            order.valid(),
        ensures
            final(self).wf(),
            ({
                let (b, t) = match_order_spec(old(self)@, order, now, depth as nat);
                &&& final(self)@ == b
                &&& final(all_trades)@ == old(all_trades)@ + t
            }),
        decreases MAX_STOP_DEPTH + 1 - depth,
    {
        if depth > MAX_STOP_DEPTH {
            assert(all_trades@ =~= old(all_trades)@ + Seq::<Trade>::empty());
            return;
        }
        let is_fok = match order.order_type {
            OrderType::Fok => true,
            _ => false,
        };
        if is_fok && !self.can_fill_fully(&order) {
            assert(all_trades@ =~= old(all_trades)@ + Seq::<Trade>::empty());
            return;
        }
        let aggressor_side = order.side;
        let is_ioc = match order.order_type {
            OrderType::Ioc => true,
            _ => false,
        };
        let is_restable = match order.order_type {
            OrderType::Limit | OrderType::Iceberg { .. } => true,
            _ => false,
        };
        let ghost b0 = self@;
        let mut order = order;
        let mut trades: Vec<Trade> = Vec::new();
        match order.side {
            Side::Bid => sweep_side(&mut order, &mut self.asks, now, &mut trades),
            Side::Ask => sweep_side(&mut order, &mut self.bids, now, &mut trades),
        }
        let sweep_produced = trades.len() > 0;
        let last_price: Price = if sweep_produced { trades[trades.len() - 1].price } else { 0 };
        let ghost sweep_trades = trades@;
        all_trades.append(&mut trades);
        if !is_ioc && is_restable && order.filled < order.quantity {
            self.insert_limit(order);
        }
        if sweep_produced {
            let triggered = self.collect_triggered_stops(last_price, aggressor_side);
            let ghost b4 = self@;
            let ghost target = run_stops(b4, triggered@, now, (depth + 1) as nat);
            let ghost at0 = all_trades@;
            let mut i: usize = 0;
            proof {
                assert(triggered@.skip(0) =~= triggered@);
            }
            while i < triggered.len()
                invariant
                    i <= triggered.len(),
                    depth < MAX_STOP_DEPTH + 1,
                    self.wf(),
                    orders_valid(triggered@),
                    run_stops(self@, triggered@.skip(i as int), now, (depth + 1) as nat).0 == target.0,
                    at0 + target.1 == all_trades@ + run_stops(self@, triggered@.skip(i as int), now, (depth + 1) as nat).1,
                decreases triggered.len() - i,
            {
                let ghost cur = self@;
                let ghost prev = all_trades@;
                proof {
                    assert(triggered@.skip(i as int)[0] == triggered@[i as int]);
                    assert(triggered@.skip(i as int).drop_first() =~= triggered@.skip(i + 1));
                    assert(triggered@[i as int].valid());
                }
                let converted = self.convert_stop(triggered[i]);
                self.match_order(converted, now, depth + 1, all_trades);
                proof {
                    let (b1, t1) = match_order_spec(cur, convert_stop_spec(triggered@[i as int]), now, (depth + 1) as nat);
                    let (b2, t2) = run_stops(b1, triggered@.skip(i + 1), now, (depth + 1) as nat);
                    assert(run_stops(cur, triggered@.skip(i as int), now, (depth + 1) as nat) == (b2, t1 + t2));
                    assert(prev + (t1 + t2) =~= all_trades@ + t2);
                }
                i = i + 1;
            }
            proof {
                assert(triggered@.skip(i as int) =~= Seq::<Order>::empty());
                assert(all_trades@ =~= at0 + target.1);
            }
        }
    }

    /// Submits an order: stops are filed at their stop price; every other order is matched at
    /// once, and the trades it causes, those of triggered stops included, are returned.
    pub fn submit(&mut self, order: Order, now: SimTime) -> (trades: Vec<Trade>)
        requires
            old(self).wf(),
            order.valid(),
        ensures
            final(self).wf(),
            (final(self)@, trades@) == submit_spec(old(self)@, order, now),
    {
        match order.order_type {
            OrderType::Stop { .. } | OrderType::StopLimit { .. } => {
                self.insert_stop(order);
                Vec::new()
            },
            _ => {
                let mut all_trades = Vec::new();
                self.match_order(order, now, 0, &mut all_trades);
                assert(all_trades@ =~= Seq::<Trade>::empty() + match_order_spec(old(self)@, order, now, 0).1);
                all_trades
            },
        }
    }

    /// Cancels the order with this id, searching bids, asks, sell stops and buy stops in turn;
    /// returns whether one was found and removed.
    pub fn cancel(&mut self, id: OrderId) -> (found: bool)
        requires
            old(self).wf(),
        ensures
            final(self).wf(),
            (final(self)@, found) == cancel_spec(old(self)@, id),
    {
        if cancel_from_deque(&mut self.bids, id) {
            return true;
        }
        if cancel_from_deque(&mut self.asks, id) {
            return true;
        }
        if cancel_from_vec(&mut self.stop_bids, id) {
            return true;
        }
        if cancel_from_vec(&mut self.stop_asks, id) {
            return true;
        }
        false
    }

    /// Rests an order at the back of the level at its price, on its own side.
    pub fn insert_limit(&mut self, order: Order)
        requires
            old(self).wf(),
            order.valid(),
        ensures
            final(self).wf(),
            final(self)@ == insert_limit_spec(old(self)@, order),
    {
        match order.side {
            Side::Bid => insert_price_level(&mut self.bids, order.price, order),
            Side::Ask => insert_price_level(&mut self.asks, order.price, order),
        }
    }

    /// Files a stop or stop-limit order at its stop price.
    pub fn insert_stop(&mut self, order: Order)
        requires
            old(self).wf(),
            order.valid(),
            is_stop(order),
        ensures
            final(self).wf(),
            final(self)@ == insert_stop_spec(old(self)@, order),
    {
        let stop_price = match order.order_type {
            OrderType::Stop { stop_price } => stop_price,
            OrderType::StopLimit { stop_price } => stop_price,
            _ => 0,
        };
        match order.side {
            Side::Bid => insert_stop_level(&mut self.stop_asks, stop_price, order),
            Side::Ask => insert_stop_level(&mut self.stop_bids, stop_price, order),
        }
    }
}

impl Default for LimitOrderBook {
    fn default() -> (book: Self)
        ensures
            book.wf(),
            book@ == BookModel::empty(),
    {
        LimitOrderBook::new()
    }
}

/// Builds a fresh order: nothing filled, submitted at time 0, not good-till-cancelled.
pub fn make_order(
    id: OrderId,
    agent_id: AgentId,
    side: Side,
    order_type: OrderType,
    price: Price,
    quantity: u32,
) -> (o: Order)
    ensures
        o == (Order {
            id,
            agent_id,
            side,
            order_type,
            price,
            quantity,
            filled: 0,
            submitted_at: 0,
            gtc: false,
        }),
{
    Order { id, agent_id, side, order_type, price, quantity, filled: 0, submitted_at: 0, gtc: false }
}

} // verus!
