use simmarket::shared::types::{Order, OrderType, Side};
use simmarket::sim::event_queue::{EventQueue, OrderAction, OrderEvent};

fn dummy_order(id: u64) -> Order {
    Order {
        id,
        agent_id: 1,
        side: Side::Bid,
        order_type: OrderType::Limit,
        price: 100_000,
        quantity: 100,
        filled: 0,
        submitted_at: 0,
        gtc: false,
    }
}

fn push_event(q: &mut EventQueue, offset: u32, order_id: u64) {
    q.push(OrderEvent {
        intra_tick_offset_us: offset,
        agent_id: 1,
        stock_id: 0,
        action: OrderAction::Submit(dummy_order(order_id)),
    });
}

fn drain_offsets(q: &mut EventQueue) -> Vec<u32> {
    q.drain_sorted()
        .iter()
        .map(|e| e.intra_tick_offset_us)
        .collect()
}

fn drain_order_ids(q: &mut EventQueue) -> Vec<u64> {
    q.drain_sorted()
        .into_iter()
        .map(|e| match e.action {
            OrderAction::Submit(o) => o.id,
            OrderAction::Cancel(id) => id,
        })
        .collect()
}

#[test]
fn drains_in_ascending_offset_order() {
    let mut q = EventQueue::new();
    for (offset, id) in [(300, 1), (100, 2), (500, 3), (200, 4), (400, 5)] {
        push_event(&mut q, offset, id);
    }
    assert_eq!(drain_offsets(&mut q), vec![100, 200, 300, 400, 500]);
}

#[test]
fn same_offset_drains_fifo() {
    let mut q = EventQueue::new();
    push_event(&mut q, 100, 10);
    push_event(&mut q, 100, 20);
    push_event(&mut q, 100, 30);
    assert_eq!(drain_order_ids(&mut q), vec![10, 20, 30]);
}

#[test]
fn drain_empties_queue() {
    let mut q = EventQueue::new();
    push_event(&mut q, 50, 1);
    push_event(&mut q, 50, 2);
    let first = q.drain_sorted();
    assert_eq!(first.len(), 2);
    let second = q.drain_sorted();
    assert!(second.is_empty());
}

#[test]
fn interleaved_offsets_keep_arrival_order_within_each_offset() {
    let mut q = EventQueue::default();
    push_event(&mut q, 200, 1);
    push_event(&mut q, 100, 2);
    push_event(&mut q, 200, 3);
    push_event(&mut q, 100, 4);
    push_event(&mut q, 0, 5);
    assert_eq!(drain_order_ids(&mut q), vec![5, 2, 4, 1, 3]);
}

#[test]
fn cancel_events_drain_like_submits() {
    let mut q = EventQueue::new();
    q.push(OrderEvent { intra_tick_offset_us: 9, agent_id: 1, stock_id: 0, action: OrderAction::Cancel(77) });
    push_event(&mut q, 3, 1);
    assert_eq!(drain_order_ids(&mut q), vec![1, 77]);
}
