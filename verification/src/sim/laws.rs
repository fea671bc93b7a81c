use vstd::prelude::*;

use crate::shared::types::{AgentId, Candle, Order, OrderType, Price, Side, SimTime, Trade};
use crate::sim::book_model::{
    add_filled, make_trade, is_stop, available_asks, available_bids, convert_stop_spec, run_stops, take_at_or_below, take_at_or_above, lemma_fill_step_measure, lemma_refill, queue_measure, refill, replenish,
    restable, stop_price, MAX_STOP_DEPTH, lemma_fill_level_props, match_order_spec,
    count_below, insert_level, insert_limit_spec, lemma_count_below, lemma_insert_level_at,
    continues, crossing_available, lemma_sweep_fills_min, lemma_sweep_no_better_price_left, levels_live,
    min_int, trade_by,
    all_above, all_below, lemma_cancel_levels_at, lemma_levels_wf_remove, lemma_levels_wf_update,
    lemma_remove_first_id_at, remove_first_id, best_index, fill_level, levels_wf, queue_valid, sweep_levels, can_fill_fully_spec, cancel_levels, cancel_spec, collect_triggered_spec,
    crosses, lemma_available_asks_le_total, lemma_available_bids_le_total,
    lemma_insert_level_props, lemma_match_order_invariant, lemma_sweep_fills_when_available,
    lemma_sweep_levels_priority, lemma_sweep_levels_props, lemma_take_at_or_above_rest,
    lemma_take_at_or_below_rest, prices_in_priority, queue_has_id,
    submit_spec, sweep_book, total_size, uncrossed, insert_stop_spec, BookModel, Level,
};
use crate::sim::engine::{
    apply_event, book_of, candle_after, candles_fit, on_current_candle, candles_after, candles_of, event_outcome, events_valid,
    minute_start, run_events, SimModel,
};
use crate::sim::event_queue::{OrderAction, OrderEvent};

verus! {

/// Submitting any valid order to a well-formed book whose every bid is below every ask leaves a
/// well-formed book with the same property: the matching engine never leaves a crossed book.
pub proof fn law_submit_keeps_book_uncrossed(book: BookModel, order: Order, now: SimTime)
    requires
        book.wf(),
        uncrossed(book),
        order.valid(),
    ensures
        submit_spec(book, order, now).0.wf(),
        uncrossed(submit_spec(book, order, now).0),
{
    if order.order_type is Stop || order.order_type is StopLimit {
        let stop_price = match order.order_type {
            OrderType::Stop { stop_price } => stop_price,
            OrderType::StopLimit { stop_price } => stop_price,
            _ => 0,
        };
        lemma_insert_level_props(book.stop_asks, stop_price, order, 0);
        lemma_insert_level_props(book.stop_bids, stop_price, order, 0);
    } else {
        lemma_match_order_invariant(book, order, now, 0);
    }
}

/// The opposite side of the book, the one an order of this side trades against.
pub open spec fn opposite(book: BookModel, side: Side) -> Seq<Level> {
    match side {
        Side::Bid => book.asks,
        Side::Ask => book.bids,
    }
}

/// One sweep of an order through the opposite side: the order stays the same order, and what it
/// trades is exactly the smaller of what it has left (an iceberg's hidden reserve included) and
/// what the levels it crosses hold, taken off its effective quantity; every trade is the
/// order's, at the time of the sweep, at a price it accepts (a limit or iceberg buy at or below
/// its limit, a sell at or above); the trades come best price first and no better price is
/// left behind; it stops only when the order is used up (reserve included), the opposite side
/// is empty, or its best price is beyond the limit of a limit or iceberg order (a market, IOC
/// or FOK order takes any price); and against
/// orders that all have shares left, every trade has a positive size.
pub proof fn law_sweep_conserves_and_prioritizes(book: BookModel, order: Order, now: SimTime)
    requires
        book.wf(),
        order.valid(),
    ensures
        ({
            let (o2, b2, ts) = sweep_book(book, order, now);
            &&& continues(order, o2)
            &&& 0 <= o2.effective() <= order.effective()
            &&& total_size(ts) == order.effective() - o2.effective()
            &&& total_size(ts) == min_int(order.effective(), crossing_available(order, opposite(book, order.side)))
            &&& forall|k: int| 0 <= k < ts.len() ==> crosses(order, (#[trigger] ts[k]).price) && trade_by(ts[k], order, now)
            &&& prices_in_priority(ts, order.side)
            &&& o2.rem() <= 0 ==> o2.effective() == 0
            &&& o2.rem() > 0 && opposite(b2, order.side).len() > 0 ==> !crosses(
                order,
                opposite(b2, order.side)[best_index(opposite(b2, order.side), order.side)].price,
            )
            &&& order.order_type is Limit || order.order_type is Iceberg ==> forall|k: int| 0 <= k < ts.len() ==> match order.side {
                Side::Bid => (#[trigger] ts[k]).price <= order.price,
                Side::Ask => ts[k].price >= order.price,
            }
            &&& o2.rem() > 0 && opposite(b2, order.side).len() > 0 ==> {
                let best = opposite(b2, order.side)[best_index(opposite(b2, order.side), order.side)].price;
                &&& !(order.order_type is Market || order.order_type is Ioc || order.order_type is Fok)
                &&& order.order_type is Limit || order.order_type is Iceberg ==> match order.side {
                    Side::Bid => best > order.price,
                    Side::Ask => best < order.price,
                }
            }
            &&& forall|k: int, j: int| 0 <= k < ts.len() && 0 <= j < opposite(b2, order.side).len() ==> match order.side {
                Side::Bid => ts[k].price <= opposite(b2, order.side)[j].price,
                Side::Ask => ts[k].price >= opposite(b2, order.side)[j].price,
            }
            &&& levels_live(opposite(book, order.side)) ==> forall|k: int| 0 <= k < ts.len() ==> (#[trigger] ts[k]).size > 0
        }),
{
    let levels = opposite(book, order.side);
    lemma_sweep_levels_props(order, levels, now);
    lemma_sweep_levels_priority(order, levels, now);
    lemma_sweep_fills_min(order, levels, now);
    lemma_sweep_no_better_price_left(order, levels, now);
}

/// Time priority within one price level: for an aggressor that is not an iceberg, the k-th
/// trade against the level is with the k-th order of its queue (its id and its agent), and
/// every order hit before the
/// last one is filled for its whole remainder before the next one is touched.
pub proof fn law_level_fifo(order: Order, queue: Seq<Order>, price: Price, now: SimTime)
    requires
        order.valid(),
        queue_valid(queue),
        !(order.order_type is Iceberg),
    ensures
        ({
            let ts = fill_level(order, queue, price, now).2;
            &&& forall|k: int| 0 <= k < ts.len() && k < queue.len() ==> (#[trigger] ts[k]).resting_order_id == queue[k].id
                && ts[k].resting_agent == queue[k].agent_id
            &&& forall|k: int| 0 <= k < ts.len() - 1 && k < queue.len() ==> (#[trigger] ts[k]).size == queue[k].rem()
        }),
    decreases order.effective(), queue_measure(queue),
{
    lemma_refill(order);
    let o = refill(order);
    if o.rem() > 0 && queue.len() > 0 {
        let resting = queue[0];
        assert(resting.valid());
        let fq = min_int(o.rem(), resting.rem());
        let o2 = add_filled(o, fq);
        let r2 = add_filled(resting, fq);
        let t = make_trade(o, resting, price, fq, now);
        let q2 = if r2.rem() == 0 {
            queue.drop_first() + replenish(r2)
        } else {
            queue.update(0, r2)
        };
        lemma_fill_step_measure(o, queue);
        law_level_fifo(o2, q2, price, now);
        let (o3, q3, ts) = fill_level(o2, q2, price, now);
        assert(fill_level(order, queue, price, now) == (o3, q3, seq![t] + ts));
        let all = seq![t] + ts;
        if r2.rem() == 0 {
            assert(t.size == queue[0].rem());
            assert forall|k: int| 1 <= k < all.len() && k < queue.len() implies all[k].resting_order_id
                == queue[k].id && (k < all.len() - 1 ==> all[k].size == queue[k].rem()) by {
                assert(all[k] == ts[k - 1]);
                assert(q2[k - 1] == queue[k]);
            }
            assert(all[0].resting_agent == queue[0].agent_id);
        } else {
            lemma_refill(o2);
            assert(ts.len() == 0);
        }
    }
}

/// A sweep by an aggressor that is not an iceberg begins at the best opposite level, when its
/// price is acceptable: its first trades are those of draining that level, all at its price,
/// with the level's resting orders in queue order, each filled in full before the next.
pub proof fn law_sweep_fifo_within_level(book: BookModel, order: Order, now: SimTime)
    requires
        book.wf(),
        order.valid(),
        !(order.order_type is Iceberg),
    ensures
        ({
            let levels = opposite(book, order.side);
            let ts = sweep_book(book, order, now).2;
            let lvl = levels[best_index(levels, order.side)];
            let q = lvl.orders;
            let n = fill_level(order, q, lvl.price, now).2.len();
            order.rem() > 0 && levels.len() > 0 && crosses(order, lvl.price) ==> {
                &&& n <= ts.len()
                &&& ts.take(n as int) == fill_level(order, q, lvl.price, now).2
                &&& forall|k: int| 0 <= k < n ==> (#[trigger] ts[k]).price == lvl.price
                &&& forall|k: int| 0 <= k < n && k < q.len() ==> (#[trigger] ts[k]).resting_order_id == q[k].id
                &&& forall|k: int| 0 <= k < n - 1 && k < q.len() ==> (#[trigger] ts[k]).size == q[k].rem()
            }
        }),
{
    let levels = opposite(book, order.side);
    lemma_refill(order);
    if order.rem() > 0 && levels.len() > 0 {
        let i = best_index(levels, order.side);
        let lvl = levels[i];
        if crosses(order, lvl.price) {
            assert(queue_valid(lvl.orders));
            let (o2, q2, t) = fill_level(order, lvl.orders, lvl.price, now);
            lemma_fill_level_props(order, lvl.orders, lvl.price, now);
            law_level_fifo(order, lvl.orders, lvl.price, now);
            let ts = sweep_levels(order, levels, now).2;
            assert(ts == sweep_book(book, order, now).2);
            assert(ts.take(t.len() as int) =~= t);
            assert forall|k: int| 0 <= k < t.len() implies (#[trigger] ts[k]) == t[k] by {
                assert(ts.take(t.len() as int)[k] == ts[k]);
            }
        }
    }
}

/// Fill-or-kill, at any depth of a stop cascade: a FOK order that the book cannot fill entirely
/// trades nothing and leaves the book as it was; one that it can fill is filled entirely by its
/// own sweep, whose trades open the list of trades (stops it triggers may trade after them).
pub proof fn law_fok_all_or_nothing(book: BookModel, order: Order, now: SimTime, depth: nat)
    requires
        book.wf(),
        order.valid(),
        order.order_type is Fok,
        depth <= MAX_STOP_DEPTH,
    ensures
        !can_fill_fully_spec(book, order) ==> match_order_spec(book, order, now, depth) == (book, Seq::<Trade>::empty()),
        can_fill_fully_spec(book, order) ==> ({
            let (o2, b2, ts) = sweep_book(book, order, now);
            &&& o2.rem() == 0
            &&& total_size(ts) == order.rem()
            &&& match_order_spec(book, order, now, depth).1.take(ts.len() as int) == ts
        }),
{
    if can_fill_fully_spec(book, order) {
        let (o2, b2, ts) = sweep_book(book, order, now);
        match order.side {
            Side::Bid => {
                lemma_available_asks_le_total(book.asks, order.price);
                lemma_sweep_fills_when_available(order, book.asks, now);
                lemma_sweep_levels_props(order, book.asks, now);
            },
            Side::Ask => {
                lemma_available_bids_le_total(book.bids, order.price);
                lemma_sweep_fills_when_available(order, book.bids, now);
                lemma_sweep_levels_props(order, book.bids, now);
            },
        }
        let all = match_order_spec(book, order, now, depth).1;
        assert(all.take(ts.len() as int) =~= ts);
    }
}

/// The stop cascade is bounded: an order reached past depth `MAX_STOP_DEPTH` is dropped, neither
/// executed nor rested, and the book is left as it was.
pub proof fn law_cascade_depth_cap(book: BookModel, order: Order, now: SimTime, depth: nat)
    requires
        depth > MAX_STOP_DEPTH,
    ensures
        match_order_spec(book, order, now, depth) == (book, Seq::<Trade>::empty()),
{
}

/// With no stops in the book, matching is the order's own sweep and, for a limit or iceberg
/// remainder, its resting: nothing else trades.
proof fn lemma_no_stops_no_cascade(book: BookModel, order: Order, now: SimTime, depth: nat)
    requires
        book.wf(),
        order.valid(),
        depth <= MAX_STOP_DEPTH,
        book.stop_asks.len() == 0,
        book.stop_bids.len() == 0,
        !(order.order_type is Fok && !can_fill_fully_spec(book, order)),
    ensures
        ({
            let (o2, b2, ts) = sweep_book(book, order, now);
            let b3 = if restable(order) && o2.rem() > 0 { insert_limit_spec(b2, o2) } else { b2 };
            match_order_spec(book, order, now, depth) == (b3, ts)
        }),
{
    let (o2, b2, ts) = sweep_book(book, order, now);
    let b3 = if restable(order) && o2.rem() > 0 { insert_limit_spec(b2, o2) } else { b2 };
    if ts.len() > 0 {
        let (b4, triggered) = collect_triggered_spec(b3, ts.last().price, order.side);
        assert(b4 =~= b3);
        assert(triggered =~= Seq::<Order>::empty());
        assert(ts + Seq::<Trade>::empty() =~= ts);
    }
}

proof fn lemma_fill_level_ids(order: Order, queue: Seq<Order>, price: Price, now: SimTime, id: u64)
    requires
        order.valid(),
        queue_valid(queue),
    ensures
        queue_has_id(fill_level(order, queue, price, now).1, id) ==> queue_has_id(queue, id),
    decreases order.effective(), queue_measure(queue),
{
    lemma_refill(order);
    let o = refill(order);
    if o.rem() > 0 && queue.len() > 0 {
        let resting = queue[0];
        let fq = min_int(o.rem(), resting.rem());
        let o2 = add_filled(o, fq);
        let r2 = add_filled(resting, fq);
        let q2 = if r2.rem() == 0 {
            queue.drop_first() + replenish(r2)
        } else {
            queue.update(0, r2)
        };
        lemma_fill_step_measure(o, queue);
        lemma_fill_level_ids(o2, q2, price, now, id);
        if queue_has_id(q2, id) {
            let k = choose|k: int| 0 <= k < q2.len() && (#[trigger] q2[k]).id == id;
            if r2.rem() == 0 {
                if k < queue.len() - 1 {
                    assert(q2[k] == queue[k + 1]);
                } else {
                    assert(q2[k].id == resting.id);
                    assert(queue[0].id == id);
                }
            } else if k > 0 {
                assert(q2[k] == queue[k]);
            } else {
                assert(queue[0].id == id);
            }
        }
    }
}

/// A sweep brings no new order id into the side it sweeps.
proof fn lemma_sweep_ids(order: Order, levels: Seq<Level>, now: SimTime, id: u64)
    requires
        order.valid(),
        levels_wf(levels),
    ensures
        side_has_id(sweep_levels(order, levels, now).1, id) ==> side_has_id(levels, id),
    decreases levels.len(),
{
    lemma_refill(order);
    let o = refill(order);
    if o.rem() > 0 && levels.len() > 0 {
        let i = best_index(levels, order.side);
        let lvl = levels[i];
        if crosses(o, lvl.price) {
            assert(queue_valid(lvl.orders));
            lemma_fill_level_props(o, lvl.orders, lvl.price, now);
            lemma_fill_level_ids(o, lvl.orders, lvl.price, now, id);
            let (o2, q2, t) = fill_level(o, lvl.orders, lvl.price, now);
            if q2.len() == 0 {
                let rest = levels.remove(i);
                lemma_levels_wf_remove(levels, i);
                lemma_sweep_ids(o2, rest, now, id);
                if side_has_id(rest, id) {
                    let j = choose|j: int| 0 <= j < rest.len() && queue_has_id((#[trigger] rest[j]).orders, id);
                    if j < i { assert(rest[j] == levels[j]); } else { assert(rest[j] == levels[j + 1]); }
                }
            } else {
                let l3 = levels.update(i, Level { price: lvl.price, orders: q2 });
                if side_has_id(l3, id) {
                    let j = choose|j: int| 0 <= j < l3.len() && queue_has_id((#[trigger] l3[j]).orders, id);
                    if j != i { assert(l3[j] == levels[j]); }
                }
            }
        }
    }
}

/// The level that `insert_level` files an order into ends with that order.
proof fn lemma_insert_level_files(levels: Seq<Level>, price: Price, order: Order)
    requires
        levels_wf(levels),
    ensures
        exists|k: int| 0 <= k < insert_level(levels, price, order).len()
            && (#[trigger] insert_level(levels, price, order)[k]).price == price
            && insert_level(levels, price, order)[k].orders.len() > 0
            && insert_level(levels, price, order)[k].orders.last() == order,
        side_has_id(insert_level(levels, price, order), order.id),
{
    lemma_count_below(levels, price);
    let k = count_below(levels, price) as int;
    lemma_insert_level_at(levels, price, order, k);
    let r = insert_level(levels, price, order);
    assert(r[k].price == price && r[k].orders.last() == order);
    let q = r[k].orders;
    assert(q[q.len() - 1].id == order.id);
    assert(queue_has_id(r[k].orders, order.id));
}

/// What rests after matching, when the book holds no stops: the order's id is found in the book
/// afterwards, and a cancel of that id succeeds, exactly when it is a limit or iceberg order with
/// shares left after its sweep; it
/// rests that remainder, at its own price, and a limit order rests what it did not trade.
/// Market, IOC and FOK remainders never rest.
pub proof fn law_what_rests(book: BookModel, order: Order, now: SimTime, depth: nat)
    requires
        book.wf(),
        order.valid(),
        !is_stop(order),
        depth <= MAX_STOP_DEPTH,
        book.stop_asks.len() == 0,
        book.stop_bids.len() == 0,
        !book_has_id(book, order.id),
        !(order.order_type is Fok && !can_fill_fully_spec(book, order)),
    ensures
        ({
            let (o2, b2, ts) = sweep_book(book, order, now);
            let (b, t) = match_order_spec(book, order, now, depth);
            let rests = (order.order_type is Limit || order.order_type is Iceberg) && o2.rem() > 0;
            &&& t == ts
            &&& book_has_id(b, order.id) <==> rests
            &&& cancel_spec(b, order.id).1 <==> rests
            &&& rests ==> b == insert_limit_spec(b2, o2) && o2.price == order.price
            &&& !rests ==> b == b2
            &&& order.order_type is Limit ==> o2.rem() == order.rem() - total_size(ts)
        }),
{
    lemma_no_stops_no_cascade(book, order, now, depth);
    let (o2, b2, ts) = sweep_book(book, order, now);
    lemma_sweep_levels_props(order, opposite(book, order.side), now);
    lemma_sweep_ids(order, opposite(book, order.side), now, order.id);
    assert(!side_has_id(b2.stop_asks, order.id) && !side_has_id(b2.stop_bids, order.id));
    assert(!book_has_id(b2, order.id));
    if restable(order) && o2.rem() > 0 {
        match order.side {
            Side::Bid => lemma_insert_level_files(b2.bids, o2.price, o2),
            Side::Ask => lemma_insert_level_files(b2.asks, o2.price, o2),
        }
    }
    law_cancel_finds_exactly_present(match_order_spec(book, order, now, depth).0, order.id);
}

/// With no stops in the book, every trade a submission causes is the submitted order's: its id,
/// agent and side, at the time of submission, at a price it accepts (at or below a buy limit,
/// at or above a sell limit), against an order (its id and its agent) that rested on the
/// opposite side, of positive size when every resting order has shares left, and
/// together no more than what the order had left, hidden reserve included. Unless it is a FOK
/// the book cannot fill, the order trades exactly the smaller of what it had left (an iceberg
/// its shown slice and its whole hidden reserve) and what rests at prices it accepts.
pub proof fn law_submit_trades_belong_to_order(book: BookModel, order: Order, now: SimTime)
    requires
        book.wf(),
        order.valid(),
        !is_stop(order),
        book.stop_asks.len() == 0,
        book.stop_bids.len() == 0,
    ensures
        ({
            let ts = submit_spec(book, order, now).1;
            &&& forall|k: int| 0 <= k < ts.len() ==> trade_by(#[trigger] ts[k], order, now) && crosses(order, ts[k].price)
            &&& levels_live(opposite(book, order.side)) ==> forall|k: int| 0 <= k < ts.len() ==> (#[trigger] ts[k]).size > 0
            &&& total_size(ts) <= order.effective()
            &&& forall|k: int| 0 <= k < ts.len() ==> side_holds(opposite(book, order.side), (#[trigger] ts[k]).resting_order_id, ts[k].resting_agent)
            &&& !(order.order_type is Fok && !can_fill_fully_spec(book, order)) ==> total_size(ts) == min_int(
                order.effective(),
                crossing_available(order, opposite(book, order.side)),
            )
        }),
{
    law_sweep_conserves_and_prioritizes(book, order, now);
    law_sweep_trades_name_resting_orders(book, order, now);
    if !(order.order_type is Fok && !can_fill_fully_spec(book, order)) {
        lemma_no_stops_no_cascade(book, order, now, 0);
    } else {
        assert(total_size(Seq::<Trade>::empty()) == 0);
    }
}

/// A stop or stop-limit order is not executed on submission: it trades nothing, leaves the
/// resting bids and asks as they were, and waits filed at the stop price that its order type
/// carries, not its limit price (buy stops with the
/// buy stops, sell stops with the sell stops), last in its level, where a cancel can find it.
pub proof fn law_stop_waits(book: BookModel, order: Order, now: SimTime)
    requires
        book.wf(),
        is_stop(order),
    ensures
        ({
            let (b, t) = submit_spec(book, order, now);
            let sp = if order.order_type is Stop {
                order.order_type->Stop_stop_price
            } else {
                order.order_type->StopLimit_stop_price
            };
            &&& t.len() == 0
            &&& b.bids == book.bids
            &&& b.asks == book.asks
            &&& order.side is Bid ==> b.stop_bids == book.stop_bids && exists|k: int| 0 <= k < b.stop_asks.len()
                && (#[trigger] b.stop_asks[k]).price == sp && b.stop_asks[k].orders.len() > 0
                && b.stop_asks[k].orders.last() == order
            &&& order.side is Ask ==> b.stop_asks == book.stop_asks && exists|k: int| 0 <= k < b.stop_bids.len()
                && (#[trigger] b.stop_bids[k]).price == sp && b.stop_bids[k].orders.len() > 0
                && b.stop_bids[k].orders.last() == order
            &&& book_has_id(b, order.id)
            &&& cancel_spec(b, order.id).1
        }),
{
    let (b, t) = submit_spec(book, order, now);
    assert(b == insert_stop_spec(book, order));
    assert(stop_price(order) == if order.order_type is Stop {
        order.order_type->Stop_stop_price
    } else {
        order.order_type->StopLimit_stop_price
    });
    match order.side {
        Side::Bid => {
            lemma_insert_level_files(book.stop_asks, stop_price(order), order);
            assert(b.stop_asks == insert_level(book.stop_asks, stop_price(order), order));
        },
        Side::Ask => {
            lemma_insert_level_files(book.stop_bids, stop_price(order), order);
            assert(b.stop_bids == insert_level(book.stop_bids, stop_price(order), order));
        },
    }
    law_cancel_finds_exactly_present(b, order.id);
}

proof fn lemma_sweep_no_trades_no_change(order: Order, levels: Seq<Level>, now: SimTime)
    requires
        order.valid(),
        levels_wf(levels),
    ensures
        sweep_levels(order, levels, now).2.len() == 0 ==> sweep_levels(order, levels, now).1 == levels,
{
    if order.rem() > 0 && levels.len() > 0 {
        let i = best_index(levels, order.side);
        let lvl = levels[i];
        if crosses(order, lvl.price) {
            assert(queue_valid(lvl.orders));
            assert(lvl.orders.len() > 0);
            let (o2, q2, t) = fill_level(order, lvl.orders, lvl.price, now);
            assert(t.len() > 0);
            if q2.len() == 0 {
                let (o3, l3, t3) = sweep_levels(o2, levels.remove(i), now);
                assert((t + t3).len() > 0);
            }
        }
    }
}

/// An order that does not rest (market, IOC, FOK) and trades nothing leaves the book exactly as
/// it was: what it could not fill is dropped.
pub proof fn law_unfilled_nonresting_order_leaves_book(book: BookModel, order: Order, now: SimTime)
    requires
        book.wf(),
        order.valid(),
        order.order_type is Market || order.order_type is Ioc || order.order_type is Fok,
    ensures
        submit_spec(book, order, now).1.len() == 0 ==> submit_spec(book, order, now).0 == book,
{
    match order.side {
        Side::Bid => lemma_sweep_no_trades_no_change(order, book.asks, now),
        Side::Ask => lemma_sweep_no_trades_no_change(order, book.bids, now),
    }
    let (o2, b2, ts) = sweep_book(book, order, now);
    if ts.len() == 0 {
        assert(b2 =~= book);
    }
}

/// Some level of the side holds an order with this id.
pub open spec fn side_has_id(levels: Seq<Level>, id: u64) -> bool {
    exists|i: int| 0 <= i < levels.len() && queue_has_id((#[trigger] levels[i]).orders, id)
}

pub open spec fn book_has_id(book: BookModel, id: u64) -> bool {
    side_has_id(book.bids, id) || side_has_id(book.asks, id) || side_has_id(book.stop_bids, id)
        || side_has_id(book.stop_asks, id)
}

proof fn lemma_cancel_levels_found(levels: Seq<Level>, id: u64)
    ensures
        cancel_levels(levels, id).1 == side_has_id(levels, id),
        !cancel_levels(levels, id).1 ==> cancel_levels(levels, id).0 == levels,
    decreases levels.len(),
{
    if levels.len() > 0 {
        let d = levels.drop_first();
        lemma_cancel_levels_found(d, id);
        if !queue_has_id(levels[0].orders, id) {
            if side_has_id(d, id) {
                let i = choose|i: int| 0 <= i < d.len() && queue_has_id((#[trigger] d[i]).orders, id);
                assert(levels[i + 1] == d[i]);
            }
            if side_has_id(levels, id) {
                let i = choose|i: int| 0 <= i < levels.len() && queue_has_id((#[trigger] levels[i]).orders, id);
                assert(i > 0);
                assert(d[i - 1] == levels[i]);
            }
            assert(seq![levels[0]] + d =~= levels);
        }
    }
}

/// Cancelling reports success exactly when some side of the book holds an order with that id; a
/// cancel that finds nothing leaves the book as it was.
pub proof fn law_cancel_finds_exactly_present(book: BookModel, id: u64)
    ensures
        cancel_spec(book, id).1 == book_has_id(book, id),
        !cancel_spec(book, id).1 ==> cancel_spec(book, id).0 == book,
{
    lemma_cancel_levels_found(book.bids, id);
    lemma_cancel_levels_found(book.asks, id);
    lemma_cancel_levels_found(book.stop_bids, id);
    lemma_cancel_levels_found(book.stop_asks, id);
    if !cancel_spec(book, id).1 {
        assert(cancel_spec(book, id).0 =~= book);
    }
}

/// After a trade at `price`, no stop that it should have triggered is left waiting: after a buy,
/// every remaining buy stop is priced above the trade; after a sell, every remaining sell stop
/// is priced below it.
pub proof fn law_triggered_stops_leave_none_behind(book: BookModel, price: Price, aggressor: Side)
    requires
        book.wf(),
    ensures
        aggressor is Bid ==> all_above(collect_triggered_spec(book, price, aggressor).0.stop_asks, price),
        aggressor is Ask ==> all_below(collect_triggered_spec(book, price, aggressor).0.stop_bids, price),
{
    lemma_take_at_or_below_rest(book.stop_asks, price);
    lemma_take_at_or_above_rest(book.stop_bids, price);
}

/// Cancelling keeps a side well formed and introduces no new price.
proof fn lemma_cancel_levels_props(levels: Seq<Level>, id: u64, q: Price)
    requires
        levels_wf(levels),
    ensures
        levels_wf(cancel_levels(levels, id).0),
        all_above(levels, q) ==> all_above(cancel_levels(levels, id).0, q),
        all_below(levels, q) ==> all_below(cancel_levels(levels, id).0, q),
{
    lemma_cancel_levels_found(levels, id);
    if side_has_id(levels, id) {
        let i0 = choose|i: int| 0 <= i < levels.len() && queue_has_id((#[trigger] levels[i]).orders, id);
        let i = first_level_with_id(levels, id, i0);
        lemma_cancel_levels_at(levels, id, i);
        let qu = levels[i].orders;
        let pos = choose|k: int| 0 <= k < qu.len() && (#[trigger] qu[k]).id == id;
        let first = first_order_with_id(qu, id, pos);
        lemma_remove_first_id_at(qu, id, first);
        let r = remove_first_id(qu, id);
        if r.len() == 0 {
            lemma_levels_wf_remove(levels, i);
            let res = levels.remove(i);
            assert forall|a: int| 0 <= a < res.len() implies #[trigger] res[a] == (if a < i { levels[a] } else { levels[a + 1] }) by {}
        } else {
            assert(queue_valid(qu));
            assert forall|k: int| 0 <= k < r.len() implies #[trigger] r[k].valid() by {
                if k < first { assert(r[k] == qu[k]); } else { assert(r[k] == qu[k + 1]); }
            }
            lemma_levels_wf_update(levels, i, r);
            let res = levels.update(i, Level { price: levels[i].price, orders: r });
            assert forall|a: int| 0 <= a < res.len() implies #[trigger] res[a].price == levels[a].price by {}
        }
    }
}

/// The first level at or before `i` that holds the id.
proof fn first_level_with_id(levels: Seq<Level>, id: u64, i: int) -> (f: int)
    requires
        0 <= i < levels.len(),
        queue_has_id(levels[i].orders, id),
    ensures
        0 <= f <= i,
        queue_has_id(levels[f].orders, id),
        forall|j: int| 0 <= j < f ==> !queue_has_id((#[trigger] levels[j]).orders, id),
    decreases i,
{
    if exists|j: int| 0 <= j < i && queue_has_id((#[trigger] levels[j]).orders, id) {
        let j = choose|j: int| 0 <= j < i && queue_has_id((#[trigger] levels[j]).orders, id);
        first_level_with_id(levels, id, j)
    } else {
        i
    }
}

/// The first order at or before `k` that has the id.
proof fn first_order_with_id(q: Seq<Order>, id: u64, k: int) -> (f: int)
    requires
        0 <= k < q.len(),
        q[k].id == id,
    ensures
        0 <= f <= k,
        q[f].id == id,
        forall|j: int| 0 <= j < f ==> (#[trigger] q[j]).id != id,
    decreases k,
{
    if exists|j: int| 0 <= j < k && (#[trigger] q[j]).id == id {
        let j = choose|j: int| 0 <= j < k && (#[trigger] q[j]).id == id;
        first_order_with_id(q, id, j)
    } else {
        k
    }
}

/// Cancelling keeps a book well formed and uncrossed.
pub proof fn law_cancel_keeps_book_uncrossed(book: BookModel, id: u64)
    requires
        book.wf(),
        uncrossed(book),
    ensures
        cancel_spec(book, id).0.wf(),
        uncrossed(cancel_spec(book, id).0),
{
    lemma_cancel_levels_props(book.bids, id, 0);
    lemma_cancel_levels_props(book.asks, id, 0);
    lemma_cancel_levels_props(book.stop_bids, id, 0);
    lemma_cancel_levels_props(book.stop_asks, id, 0);
    let b = cancel_spec(book, id).0;
    assert forall|i: int, j: int| 0 <= i < b.bids.len() && 0 <= j < b.asks.len() implies
        #[trigger] b.bids[i].price < #[trigger] b.asks[j].price by {
        if b.bids != book.bids {
            lemma_cancel_levels_props(book.bids, id, book.asks[j].price);
            assert(all_below(book.bids, book.asks[j].price));
        } else {
            lemma_cancel_levels_props(book.asks, id, book.bids[i].price);
            assert(all_above(book.asks, book.bids[i].price));
        }
    }
}

/// Every book of the model is well formed and uncrossed.
pub open spec fn books_sound(m: SimModel) -> bool {
    forall|s: u32| #[trigger] m.books.contains_key(s) ==> m.books[s].wf() && uncrossed(m.books[s])
}

/// Running a tick's events never leaves any stock's book crossed or ill formed.
pub proof fn law_events_keep_books_uncrossed(m: SimModel, events: Seq<OrderEvent>, now: SimTime)
    requires
        books_sound(m),
        events_valid(events),
    ensures
        books_sound(run_events(m, events, now)),
    decreases events.len(),
{
    if events.len() > 0 {
        let e = events[0];
        let book = book_of(m.books, e.stock_id);
        assert(book.wf() && uncrossed(book)) by {
            if !m.books.contains_key(e.stock_id) {
                assert(book == BookModel::empty());
            }
        }
        match e.action {
            OrderAction::Submit(o) => {
                assert(events_valid(events));
                assert(match events[0].action { OrderAction::Submit(o) => o.valid(), OrderAction::Cancel(_) => true });
                law_submit_keeps_book_uncrossed(book, o, now);
            },
            OrderAction::Cancel(id) => {
                law_cancel_keeps_book_uncrossed(book, id);
            },
        }
        let m1 = apply_event(m, e, now);
        assert(books_sound(m1));
        assert forall|i: int| 0 <= i < events.drop_first().len() implies match (#[trigger] events.drop_first()[i]).action {
            OrderAction::Submit(o) => o.valid(),
            OrderAction::Cancel(_) => true,
        } by {
            assert(events.drop_first()[i] == events[i + 1]);
        }
        law_events_keep_books_uncrossed(m1, events.drop_first(), now);
    }
}

/// A candle's open and close lie within its low and high.
pub open spec fn candle_ok(c: Candle) -> bool {
    c.low <= c.open <= c.high && c.low <= c.close <= c.high
}

pub open spec fn candles_ok(cs: Seq<Candle>) -> bool {
    forall|i: int| 0 <= i < cs.len() ==> candle_ok(#[trigger] cs[i])
}

pub open spec fn all_candles_ok(m: SimModel) -> bool {
    forall|s: u32| #[trigger] m.candles.contains_key(s) ==> candles_ok(m.candles[s])
}

proof fn lemma_candle_after_ok(cs: Seq<Candle>, t: Trade, ms: SimTime)
    requires
        candles_ok(cs),
    ensures
        candles_ok(candle_after(cs, t, ms)),
{
    let r = candle_after(cs, t, ms);
    assert forall|i: int| 0 <= i < r.len() implies candle_ok(#[trigger] r[i]) by {
        if i < cs.len() - 1 || (i == cs.len() - 1 && r.len() > cs.len()) {
            assert(r[i] == cs[i]);
        }
    }
}

proof fn lemma_candles_after_ok(cs: Seq<Candle>, ts: Seq<Trade>, ms: SimTime)
    requires
        candles_ok(cs),
    ensures
        candles_ok(candles_after(cs, ts, ms)),
    decreases ts.len(),
{
    if ts.len() > 0 {
        lemma_candle_after_ok(cs, ts[0], ms);
        lemma_candles_after_ok(candle_after(cs, ts[0], ms), ts.drop_first(), ms);
    }
}

/// Running a tick's events keeps every candle consistent: if each candle's open and close lie
/// within its low and high before, they do after, for every stock.
pub proof fn law_candles_stay_consistent(m: SimModel, events: Seq<OrderEvent>, now: SimTime)
    requires
        all_candles_ok(m),
    ensures
        all_candles_ok(run_events(m, events, now)),
    decreases events.len(),
{
    if events.len() > 0 {
        let m1 = apply_event(m, events[0], now);
        let stock = events[0].stock_id;
        assert(candles_ok(candles_of(m.candles, stock)));
        lemma_candles_after_ok(candles_of(m.candles, stock), event_outcome(m.books, events[0], now).1, minute_start(now));
        assert(all_candles_ok(m1));
        law_candles_stay_consistent(m1, events.drop_first(), now);
    }
}

/// The best bid is the highest price of any resting bid, the best ask the lowest price of any
/// resting ask; each is absent exactly when its side is empty.
pub proof fn law_best_prices_are_extremes(book: BookModel)
    requires
        book.wf(),
    ensures
        book.best_bid() is None <==> book.bids.len() == 0,
        book.best_ask() is None <==> book.asks.len() == 0,
        book.best_bid() matches Some(p) ==> (forall|i: int| 0 <= i < book.bids.len() ==> (#[trigger] book.bids[i]).price <= p)
            && book.bids[book.bids.len() - 1].price == p,
        book.best_ask() matches Some(p) ==> (forall|i: int| 0 <= i < book.asks.len() ==> (#[trigger] book.asks[i]).price >= p)
            && book.asks[0].price == p,
{
    if book.bids.len() > 0 {
        assert forall|i: int| 0 <= i < book.bids.len() implies (#[trigger] book.bids[i]).price <= book.bids[book.bids.len() - 1].price by {
            if i < book.bids.len() - 1 {
                assert(book.bids[i].price < book.bids[book.bids.len() - 1].price);
            }
        }
    }
    if book.asks.len() > 0 {
        assert forall|i: int| 0 <= i < book.asks.len() implies (#[trigger] book.asks[i]).price >= book.asks[0].price by {
            if i > 0 {
                assert(book.asks[0].price < book.asks[i].price);
            }
        }
    }
}

/// Resting a limit order makes its price the best on its side if it beats the old best: the
/// best bid becomes the higher of the old best bid and the price, the best ask the lower of the
/// old best ask and the price; the other side and the stops are untouched.
pub proof fn law_insert_limit_best_price(book: BookModel, order: Order)
    requires
        book.wf(),
        order.valid(),
    ensures
        ({
            let b = insert_limit_spec(book, order);
            &&& order.side is Bid ==> b.best_bid() == Some(match book.best_bid() {
                Some(p) => if p > order.price { p } else { order.price },
                None => order.price,
            }) && b.asks == book.asks
            &&& order.side is Ask ==> b.best_ask() == Some(match book.best_ask() {
                Some(p) => if p < order.price { p } else { order.price },
                None => order.price,
            }) && b.bids == book.bids
            &&& b.stop_asks == book.stop_asks
            &&& b.stop_bids == book.stop_bids
        }),
{
    let levels = if order.side is Bid { book.bids } else { book.asks };
    lemma_count_below(levels, order.price);
    let k = count_below(levels, order.price) as int;
    lemma_insert_level_at(levels, order.price, order, k);
    let r = insert_level(levels, order.price, order);
    let n = levels.len() as int;
    if n > 0 {
        if k < n && levels[k].price == order.price {
            if k < n - 1 {
                assert(levels[k].price < levels[n - 1].price);
            }
        } else if k < n {
            assert(r[0] == (if k == 0 { Level { price: order.price, orders: seq![order] } } else { levels[0] }));
            assert(r[n] == levels[n - 1]);
            if k < n - 1 {
                assert(levels[k].price < levels[n - 1].price);
            }
            if k > 0 {
                assert(levels[0].price < order.price);
            }
        } else {
            assert(r[n] == Level { price: order.price, orders: seq![order] });
            assert(levels[n - 1].price < order.price);
            assert(r[0] == levels[0]);
            if n > 1 {
                assert(levels[0].price < levels[n - 1].price);
            }
        }
    }
}

/// Taking the triggered buy stops keeps a bound below every level that was already there.
proof fn lemma_take_below_keeps_above(levels: Seq<Level>, x: Price, p: Price)
    requires
        all_above(levels, p),
    ensures
        all_above(take_at_or_below(levels, x).1, p),
    decreases levels.len(),
{
    if !(levels.len() == 0 || levels[0].price > x) {
        assert forall|i: int| 0 <= i < levels.drop_first().len() implies (#[trigger] levels.drop_first()[i]).price > p by {
            assert(levels.drop_first()[i] == levels[i + 1]);
        }
        lemma_take_below_keeps_above(levels.drop_first(), x, p);
    }
}

/// Taking the triggered sell stops keeps a bound above every level that was already there.
proof fn lemma_take_above_keeps_below(levels: Seq<Level>, x: Price, q: Price)
    requires
        all_below(levels, q),
    ensures
        all_below(take_at_or_above(levels, x).1, q),
    decreases levels.len(),
{
    if !(levels.len() == 0 || levels.last().price < x) {
        assert forall|i: int| 0 <= i < levels.drop_last().len() implies (#[trigger] levels.drop_last()[i]).price < q by {
            assert(levels.drop_last()[i] == levels[i]);
        }
        lemma_take_above_keeps_below(levels.drop_last(), x, q);
    }
}

/// Matching never files a stop: a bound that every waiting buy stop lies above, or every
/// waiting sell stop lies below, still holds afterwards.
proof fn lemma_match_keeps_stop_bounds(book: BookModel, order: Order, now: SimTime, depth: nat, p: Price, q: Price)
    ensures
        all_above(book.stop_asks, p) ==> all_above(match_order_spec(book, order, now, depth).0.stop_asks, p),
        all_below(book.stop_bids, q) ==> all_below(match_order_spec(book, order, now, depth).0.stop_bids, q),
    decreases MAX_STOP_DEPTH + 1 - depth, 0nat,
{
    if depth <= MAX_STOP_DEPTH && !(order.order_type is Fok && !can_fill_fully_spec(book, order)) {
        let (o2, b2, trades) = sweep_book(book, order, now);
        let b3 = if restable(order) && o2.rem() > 0 { insert_limit_spec(b2, o2) } else { b2 };
        assert(b3.stop_asks == book.stop_asks && b3.stop_bids == book.stop_bids);
        if trades.len() > 0 {
            let x = trades.last().price;
            if all_above(book.stop_asks, p) {
                lemma_take_below_keeps_above(b3.stop_asks, x, p);
            }
            if all_below(book.stop_bids, q) {
                lemma_take_above_keeps_below(b3.stop_bids, x, q);
            }
            let (b4, triggered) = collect_triggered_spec(b3, x, order.side);
            lemma_run_stops_keep_stop_bounds(b4, triggered, now, depth + 1, p, q);
        }
    }
}

proof fn lemma_run_stops_keep_stop_bounds(book: BookModel, stops: Seq<Order>, now: SimTime, depth: nat, p: Price, q: Price)
    ensures
        all_above(book.stop_asks, p) ==> all_above(run_stops(book, stops, now, depth).0.stop_asks, p),
        all_below(book.stop_bids, q) ==> all_below(run_stops(book, stops, now, depth).0.stop_bids, q),
    decreases MAX_STOP_DEPTH + 1 - depth, stops.len(),
{
    if stops.len() > 0 {
        lemma_match_keeps_stop_bounds(book, convert_stop_spec(stops[0]), now, depth, p, q);
        let (b1, t1) = match_order_spec(book, convert_stop_spec(stops[0]), now, depth);
        lemma_run_stops_keep_stop_bounds(b1, stops.drop_first(), now, depth, p, q);
    }
}

/// Stops fire on the last price of the sweep: once an order that traded has been matched, with
/// every cascade it set off, no buy stop is left waiting at or below the price of the last trade
/// of the order's own sweep, and no sell stop at or above it.
pub proof fn law_no_stop_left_behind_last_trade(book: BookModel, order: Order, now: SimTime, depth: nat)
    requires
        book.wf(),
    ensures
        ({
            let ts = sweep_book(book, order, now).2;
            let (b, t) = match_order_spec(book, order, now, depth);
            t.len() > 0 ==> {
                &&& ts.len() > 0
                &&& order.side is Bid ==> forall|i: int| 0 <= i < b.stop_asks.len() ==> (#[trigger] b.stop_asks[i]).price > ts.last().price
                &&& order.side is Ask ==> forall|i: int| 0 <= i < b.stop_bids.len() ==> (#[trigger] b.stop_bids[i]).price < ts.last().price
            }
        }),
{
    let (o2, b2, trades) = sweep_book(book, order, now);
    let (b, t) = match_order_spec(book, order, now, depth);
    if t.len() > 0 {
        let b3 = if restable(order) && o2.rem() > 0 { insert_limit_spec(b2, o2) } else { b2 };
        assert(b3.stop_asks == book.stop_asks && b3.stop_bids == book.stop_bids);
        assert(trades.len() > 0);
        let x = trades.last().price;
        lemma_take_at_or_below_rest(b3.stop_asks, x);
        lemma_take_at_or_above_rest(b3.stop_bids, x);
        let (b4, triggered) = collect_triggered_spec(b3, x, order.side);
        lemma_run_stops_keep_stop_bounds(b4, triggered, now, depth + 1, x, x);
    }
}

/// Fill-or-kill decided by liquidity: a FOK order trades its whole remaining quantity, by its own
/// sweep, exactly when what rests on the opposite side within its limit (every such level,
/// hidden iceberg reserves included; every level when it has no limit) covers it; otherwise it
/// trades nothing and leaves the book as it was.
pub proof fn law_fok_fills_iff_liquid(book: BookModel, order: Order, now: SimTime, depth: nat)
    requires
        book.wf(),
        order.valid(),
        order.order_type is Fok,
        depth <= MAX_STOP_DEPTH,
    ensures
        ({
            let available = match order.side {
                Side::Bid => available_asks(book.asks, order.price),
                Side::Ask => available_bids(book.bids, order.price),
            };
            let ts = sweep_book(book, order, now).2;
            let (b, t) = match_order_spec(book, order, now, depth);
            &&& order.rem() <= available ==> total_size(ts) == order.rem() && t.take(ts.len() as int) == ts
            &&& order.rem() > available ==> t.len() == 0 && b == book
        }),
{
    law_fok_all_or_nothing(book, order, now, depth);
}

/// Some order of the queue has this id and belongs to this agent.
pub open spec fn queue_holds(q: Seq<Order>, id: u64, agent: AgentId) -> bool {
    exists|j: int| 0 <= j < q.len() && (#[trigger] q[j]).id == id && q[j].agent_id == agent
}

/// Some level of the side holds an order with this id belonging to this agent.
pub open spec fn side_holds(levels: Seq<Level>, id: u64, agent: AgentId) -> bool {
    exists|i: int| 0 <= i < levels.len() && queue_holds((#[trigger] levels[i]).orders, id, agent)
}

/// One fill step keeps each order's id and agent: the queue after it holds no pair that the
/// queue before it did not.
proof fn lemma_fill_step_keeps_owners(queue: Seq<Order>, q2: Seq<Order>, r2: Order)
    requires
        queue.len() > 0,
        r2.id == queue[0].id,
        r2.agent_id == queue[0].agent_id,
        q2 == queue.drop_first() + replenish(r2) || q2 == queue.update(0, r2),
    ensures
        forall|id: u64, agent: AgentId| #[trigger] queue_holds(q2, id, agent) ==> queue_holds(queue, id, agent),
{
    assert forall|id: u64, agent: AgentId| #[trigger] queue_holds(q2, id, agent) implies queue_holds(queue, id, agent) by {
        let j = choose|j: int| 0 <= j < q2.len() && (#[trigger] q2[j]).id == id && q2[j].agent_id == agent;
        if q2 == queue.update(0, r2) {
            if j == 0 {
                assert(queue[0].id == id && queue[0].agent_id == agent);
            } else {
                assert(queue[j] == q2[j]);
            }
        } else {
            if j < queue.len() - 1 {
                assert(queue[j + 1] == q2[j]);
            } else {
                assert(queue[0].id == id && queue[0].agent_id == agent);
            }
        }
    }
}

/// Every trade against a level names, as its resting order and resting agent, the id and agent
/// of an order that rested in that level's queue.
pub proof fn law_level_trades_name_resting_orders(order: Order, queue: Seq<Order>, price: Price, now: SimTime)
    requires
        order.valid(),
        queue_valid(queue),
    ensures
        ({
            let ts = fill_level(order, queue, price, now).2;
            forall|k: int| 0 <= k < ts.len() ==> queue_holds(queue, (#[trigger] ts[k]).resting_order_id, ts[k].resting_agent)
        }),
    decreases order.effective(), queue_measure(queue),
{
    lemma_refill(order);
    let o = refill(order);
    if o.rem() > 0 && queue.len() > 0 {
        let resting = queue[0];
        assert(resting.valid());
        let fq = min_int(o.rem(), resting.rem());
        let o2 = add_filled(o, fq);
        let r2 = add_filled(resting, fq);
        let t = make_trade(o, resting, price, fq, now);
        let q2 = if r2.rem() == 0 {
            queue.drop_first() + replenish(r2)
        } else {
            queue.update(0, r2)
        };
        lemma_fill_step_measure(o, queue);
        law_level_trades_name_resting_orders(o2, q2, price, now);
        lemma_fill_step_keeps_owners(queue, q2, r2);
        let (o3, q3, ts) = fill_level(o2, q2, price, now);
        assert(fill_level(order, queue, price, now) == (o3, q3, seq![t] + ts));
        let all = seq![t] + ts;
        assert(queue_holds(queue, t.resting_order_id, t.resting_agent));
        assert forall|k: int| 0 <= k < all.len() implies queue_holds(queue, (#[trigger] all[k]).resting_order_id, all[k].resting_agent) by {
            if k > 0 {
                assert(all[k] == ts[k - 1]);
                assert(queue_holds(q2, ts[k - 1].resting_order_id, ts[k - 1].resting_agent));
            }
        }
    }
}

proof fn lemma_sweep_trades_name_resting_orders(order: Order, levels: Seq<Level>, now: SimTime)
    requires
        order.valid(),
        levels_wf(levels),
    ensures
        ({
            let ts = sweep_levels(order, levels, now).2;
            forall|k: int| 0 <= k < ts.len() ==> side_holds(levels, (#[trigger] ts[k]).resting_order_id, ts[k].resting_agent)
        }),
    decreases levels.len(),
{
    lemma_refill(order);
    let o = refill(order);
    if o.rem() > 0 && levels.len() > 0 {
        let i = best_index(levels, o.side);
        let lvl = levels[i];
        if crosses(o, lvl.price) {
            assert(queue_valid(lvl.orders));
            let (o2, q2, t) = fill_level(o, lvl.orders, lvl.price, now);
            law_level_trades_name_resting_orders(o, lvl.orders, lvl.price, now);
            lemma_fill_level_props(o, lvl.orders, lvl.price, now);
            if q2.len() == 0 {
                let rest = levels.remove(i);
                lemma_levels_wf_remove(levels, i);
                lemma_sweep_trades_name_resting_orders(o2, rest, now);
                let (o3, l3, t3) = sweep_levels(o2, rest, now);
                let all = t + t3;
                assert forall|k: int| 0 <= k < all.len() implies side_holds(levels, (#[trigger] all[k]).resting_order_id, all[k].resting_agent) by {
                    if k < t.len() {
                        assert(all[k] == t[k]);
                        assert(queue_holds(levels[i].orders, t[k].resting_order_id, t[k].resting_agent));
                    } else {
                        assert(all[k] == t3[k - t.len()]);
                        let tk = t3[k - t.len()];
                        assert(side_holds(rest, tk.resting_order_id, tk.resting_agent));
                        let m = choose|m: int| 0 <= m < rest.len() && queue_holds((#[trigger] rest[m]).orders, tk.resting_order_id, tk.resting_agent);
                        if m < i {
                            assert(rest[m] == levels[m]);
                        } else {
                            assert(rest[m] == levels[m + 1]);
                        }
                    }
                }
            } else {
                assert forall|k: int| 0 <= k < t.len() implies side_holds(levels, (#[trigger] t[k]).resting_order_id, t[k].resting_agent) by {
                    assert(queue_holds(levels[i].orders, t[k].resting_order_id, t[k].resting_agent));
                }
            }
        }
    }
}

/// Every trade of a sweep names, as its resting order and resting agent, the id and the agent
/// of an order that rested on the opposite side before the sweep.
pub proof fn law_sweep_trades_name_resting_orders(book: BookModel, order: Order, now: SimTime)
    requires
        book.wf(),
        order.valid(),
    ensures
        ({
            let ts = sweep_book(book, order, now).2;
            forall|k: int| 0 <= k < ts.len() ==> side_holds(opposite(book, order.side), (#[trigger] ts[k]).resting_order_id, ts[k].resting_agent)
        }),
{
    lemma_sweep_trades_name_resting_orders(order, opposite(book, order.side), now);
}

/// What recording a run of trades of one minute does to the candles: the earlier candles stay
/// as they were; the minute's candle (the last one, continued if it was already that minute's,
/// opened otherwise) opens at the first price it ever saw, closes at the last trade's price,
/// has a high that is the greatest and a low that is the least price it has seen (every trade
/// lies between them, and each bound is a trade's price or the bound the candle already had),
/// and adds up their sizes.
pub proof fn law_candle_spans_its_trades(cs: Seq<Candle>, ts: Seq<Trade>, ms: SimTime)
    requires
        ts.len() > 0,
    ensures
        ({
            let r = candles_after(cs, ts, ms);
            let cont = on_current_candle(cs, ms);
            let c = r.last();
            &&& r.len() == if cont { cs.len() } else { cs.len() + 1 }
            &&& r.drop_last() == if cont { cs.drop_last() } else { cs }
            &&& c.sim_time == ms
            &&& c.open == if cont { cs.last().open } else { ts[0].price }
            &&& c.close == ts.last().price
            &&& forall|k: int| 0 <= k < ts.len() ==> c.low <= (#[trigger] ts[k]).price <= c.high
            &&& cont ==> c.low <= cs.last().low && cs.last().high <= c.high
            &&& (exists|k: int| 0 <= k < ts.len() && (#[trigger] ts[k]).price == c.high) || (cont && c.high == cs.last().high)
            &&& (exists|k: int| 0 <= k < ts.len() && (#[trigger] ts[k]).price == c.low) || (cont && c.low == cs.last().low)
            &&& candles_fit(cs, ts, ms) ==> c.volume == (if cont { cs.last().volume as int } else { 0 }) + total_size(ts)
        }),
    decreases ts.len(),
{
    let cont = on_current_candle(cs, ms);
    let cs1 = candle_after(cs, ts[0], ms);
    let rest = ts.drop_first();
    let c1 = cs1.last();
    assert(on_current_candle(cs1, ms));
    assert(cs1.drop_last() =~= if cont { cs.drop_last() } else { cs });
    let r = candles_after(cs, ts, ms);
    assert(r == candles_after(cs1, rest, ms));
    if rest.len() == 0 {
        assert(r == cs1);
        assert(ts.last() == ts[0]);
        assert(total_size(rest) == 0);
        if c1.high == ts[0].price {
            assert(ts[0].price == c1.high);
        }
        if c1.low == ts[0].price {
            assert(ts[0].price == c1.low);
        }
    } else {
        law_candle_spans_its_trades(cs1, rest, ms);
        let c = r.last();
        assert(ts.last() == rest.last());
        assert forall|k: int| 0 <= k < ts.len() implies c.low <= (#[trigger] ts[k]).price <= c.high by {
            if k > 0 {
                assert(ts[k] == rest[k - 1]);
            }
        }
        if exists|k: int| 0 <= k < rest.len() && (#[trigger] rest[k]).price == c.high {
            let k = choose|k: int| 0 <= k < rest.len() && (#[trigger] rest[k]).price == c.high;
            assert(ts[k + 1] == rest[k]);
        } else if !(cont && c.high == cs.last().high) {
            assert(ts[0].price == c.high);
        }
        if exists|k: int| 0 <= k < rest.len() && (#[trigger] rest[k]).price == c.low {
            let k = choose|k: int| 0 <= k < rest.len() && (#[trigger] rest[k]).price == c.low;
            assert(ts[k + 1] == rest[k]);
        } else if !(cont && c.low == cs.last().low) {
            assert(ts[0].price == c.low);
        }
    }
}

/// `after` is `before` with exactly one order taken out: the order at position `pos` of level
/// `i`, which has this id; the level keeps its price, and leaves the side if it is left empty.
pub open spec fn removes_one(before: Seq<Level>, after: Seq<Level>, id: u64) -> bool {
    exists|i: int, pos: int|
        0 <= i < before.len() && 0 <= pos < before[i].orders.len() && (#[trigger] before[i].orders[pos]).id == id
            && after == if before[i].orders.remove(pos).len() == 0 {
                before.remove(i)
            } else {
                before.update(i, Level { price: before[i].price, orders: before[i].orders.remove(pos) })
            }
}

proof fn lemma_cancel_levels_removes_one(levels: Seq<Level>, id: u64)
    ensures
        cancel_levels(levels, id).1 ==> removes_one(levels, cancel_levels(levels, id).0, id),
{
    lemma_cancel_levels_found(levels, id);
    if cancel_levels(levels, id).1 {
        let i0 = choose|i: int| 0 <= i < levels.len() && queue_has_id((#[trigger] levels[i]).orders, id);
        let i = first_level_with_id(levels, id, i0);
        lemma_cancel_levels_at(levels, id, i);
        let qu = levels[i].orders;
        let k = choose|k: int| 0 <= k < qu.len() && (#[trigger] qu[k]).id == id;
        let pos = first_order_with_id(qu, id, k);
        lemma_remove_first_id_at(qu, id, pos);
        assert(levels[i].orders[pos].id == id);
    }
}

/// A cancel that succeeds takes out exactly one order with that id, from one side of the book:
/// every other order stays where it was, in its level and its place in the queue, and the other
/// sides are untouched. A cancel that fails changes nothing.
pub proof fn law_cancel_removes_one_order(book: BookModel, id: u64)
    ensures
        ({
            let (b, found) = cancel_spec(book, id);
            &&& found ==> {
                ||| removes_one(book.bids, b.bids, id) && b == (BookModel { bids: b.bids, ..book })
                ||| removes_one(book.asks, b.asks, id) && b == (BookModel { asks: b.asks, ..book })
                ||| removes_one(book.stop_bids, b.stop_bids, id) && b == (BookModel { stop_bids: b.stop_bids, ..book })
                ||| removes_one(book.stop_asks, b.stop_asks, id) && b == (BookModel { stop_asks: b.stop_asks, ..book })
            }
            &&& !found ==> b == book
        }),
{
    law_cancel_finds_exactly_present(book, id);
    lemma_cancel_levels_removes_one(book.bids, id);
    lemma_cancel_levels_removes_one(book.asks, id);
    lemma_cancel_levels_removes_one(book.stop_bids, id);
    lemma_cancel_levels_removes_one(book.stop_asks, id);
}

/// `after` is `before` with `order` added last to the queue of the level at `price`, or, where
/// no level has that price, with a new level holding only `order` put in among the others.
pub open spec fn joins_back(before: Seq<Level>, after: Seq<Level>, price: Price, order: Order) -> bool {
    ||| exists|i: int|
        0 <= i < before.len() && (#[trigger] before[i]).price == price
            && after == before.update(i, Level { price, orders: before[i].orders.push(order) })
    ||| (forall|i: int| 0 <= i < before.len() ==> (#[trigger] before[i]).price != price) && exists|k: int|
        0 <= k <= before.len() && after == (#[trigger] before.insert(k, Level { price, orders: seq![order] }))
}

/// Resting a limit order puts it last in the queue at its price on its own side (time
/// priority: behind every order already there), or opens a level for it; no other order or
/// level moves, and the other sides are untouched.
pub proof fn law_insert_limit_joins_back(book: BookModel, order: Order)
    requires
        book.wf(),
    ensures
        ({
            let b = insert_limit_spec(book, order);
            &&& order.side is Bid ==> joins_back(book.bids, b.bids, order.price, order) && b.asks == book.asks
            &&& order.side is Ask ==> joins_back(book.asks, b.asks, order.price, order) && b.bids == book.bids
            &&& b.stop_asks == book.stop_asks
            &&& b.stop_bids == book.stop_bids
        }),
{
    let levels = if order.side is Bid { book.bids } else { book.asks };
    lemma_count_below(levels, order.price);
    let k = count_below(levels, order.price) as int;
    lemma_insert_level_at(levels, order.price, order, k);
    let r = insert_level(levels, order.price, order);
    if k < levels.len() && levels[k].price == order.price {
        assert(levels[k].price == order.price);
    } else {
        assert forall|i: int| 0 <= i < levels.len() implies (#[trigger] levels[i]).price != order.price by {
            if i > k {
                assert(levels[k].price < levels[i].price);
            }
        }
        assert(r == levels.insert(k, Level { price: order.price, orders: seq![order] }));
    }
}

} // verus!
