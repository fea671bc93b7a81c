use vstd::prelude::*;

use crate::shared::types::{AgentId, Order, OrderId, StockId};

verus! {

#[derive(Debug, Clone, Copy, PartialEq, Eq, Structural)]
pub enum OrderAction {
    Submit(Order),
    Cancel(OrderId),
}

#[derive(Debug, Clone, Copy, PartialEq, Eq, Structural)]
pub struct OrderEvent {
    pub intra_tick_offset_us: u32,
    pub agent_id: AgentId,
    pub stock_id: StockId,
    pub action: OrderAction,
}

/// The events of `s` whose offset is `offset`, in the order they stand in `s`.
pub open spec fn at_offset(s: Seq<OrderEvent>, offset: u32) -> Seq<OrderEvent> {
    s.filter(|e: OrderEvent| e.intra_tick_offset_us == offset)
}

/// `s` is in ascending order of offset.
pub open spec fn sorted_by_offset(s: Seq<OrderEvent>) -> bool {
    forall|i: int, j: int|
        0 <= i <= j < s.len() ==> s[i].intra_tick_offset_us <= s[j].intra_tick_offset_us
}

/// `r` is `s` ordered by ascending offset, keeping arrival order among equal offsets.
pub open spec fn stable_sorted_by_offset(r: Seq<OrderEvent>, s: Seq<OrderEvent>) -> bool {
    &&& sorted_by_offset(r)
    &&& forall|offset: u32| #[trigger] at_offset(r, offset) == at_offset(s, offset)
}

/// Splits the events at one offset off the front of a sequence.
proof fn lemma_at_offset_prepend(x: OrderEvent, rest: Seq<OrderEvent>, offset: u32)
    ensures
        at_offset(seq![x] + rest, offset) == (if x.intra_tick_offset_us == offset {
            seq![x] + at_offset(rest, offset)
        } else {
            at_offset(rest, offset)
        }),
{
    let p = |e: OrderEvent| e.intra_tick_offset_us == offset;
    rest.lemma_filter_prepend(x, p);
    assert(at_offset(seq![x] + rest, offset) == (seq![x] + rest).filter(p));
    assert(at_offset(rest, offset) == rest.filter(p));
    if x.intra_tick_offset_us != offset {
        assert(Seq::<OrderEvent>::empty() + rest.filter(p) =~= rest.filter(p));
    }
}

/// An event of `s` appears among the events of `s` at its own offset.
proof fn lemma_at_offset_has(s: Seq<OrderEvent>, i: int)
    requires
        0 <= i < s.len(),
    ensures
        at_offset(s, s[i].intra_tick_offset_us).len() > 0,
{
    let p = |e: OrderEvent| e.intra_tick_offset_us == s[i].intra_tick_offset_us;
    s.lemma_filter_contains(p, i);
    assert(at_offset(s, s[i].intra_tick_offset_us) == s.filter(p));
}

proof fn lemma_at_offset_empty(offset: u32)
    ensures
        at_offset(Seq::<OrderEvent>::empty(), offset) =~= Seq::<OrderEvent>::empty(),
{
    reveal(Seq::filter);
}

/// Two sequences sorted by offset that agree, offset by offset, on their events in order are
/// the same sequence.
proof fn lemma_sorted_same_offsets_equal(r1: Seq<OrderEvent>, r2: Seq<OrderEvent>)
    requires
        sorted_by_offset(r1),
        sorted_by_offset(r2),
        forall|offset: u32| #[trigger] at_offset(r1, offset) == at_offset(r2, offset),
    ensures
        r1 == r2,
    decreases r1.len(),
{
    if r1.len() == 0 || r2.len() == 0 {
        if r2.len() > 0 {
            lemma_at_offset_has(r2, 0);
            lemma_at_offset_empty(r2[0].intra_tick_offset_us);
            assert(r1 =~= Seq::<OrderEvent>::empty());
            assert(at_offset(r1, r2[0].intra_tick_offset_us) == at_offset(r2, r2[0].intra_tick_offset_us));
        } else if r1.len() > 0 {
            lemma_at_offset_has(r1, 0);
            lemma_at_offset_empty(r1[0].intra_tick_offset_us);
            assert(r2 =~= Seq::<OrderEvent>::empty());
            assert(at_offset(r1, r1[0].intra_tick_offset_us) == at_offset(r2, r1[0].intra_tick_offset_us));
        } else {
            assert(r1 =~= r2);
        }
    } else {
        let x1 = r1[0];
        let x2 = r2[0];
        let o1 = x1.intra_tick_offset_us;
        let o2 = x2.intra_tick_offset_us;
        let d1 = r1.drop_first();
        let d2 = r2.drop_first();
        assert(r1 =~= seq![x1] + d1);
        assert(r2 =~= seq![x2] + d2);
        assert forall|o: u32| #[trigger] at_offset(r1, o) == (if x1.intra_tick_offset_us == o { seq![x1] + at_offset(d1, o) } else { at_offset(d1, o) }) by {
            lemma_at_offset_prepend(x1, d1, o);
        }
        assert forall|o: u32| #[trigger] at_offset(r2, o) == (if x2.intra_tick_offset_us == o { seq![x2] + at_offset(d2, o) } else { at_offset(d2, o) }) by {
            lemma_at_offset_prepend(x2, d2, o);
        }
        // the smallest offsets agree
        if o1 != o2 {
            if o1 < o2 {
                assert(at_offset(r1, o1) == at_offset(r2, o1));
                assert(at_offset(r1, o1).len() > 0);
                assert(at_offset(d2, o1).len() > 0);
                let p = |e: OrderEvent| e.intra_tick_offset_us == o1;
                assert(at_offset(d2, o1) == d2.filter(p));
                let y = d2.filter(p)[0];
                d2.lemma_filter_pred(p, 0);
                assert(d2.filter(p).contains(y));
                d2.lemma_filter_contains_rev(p, y);
                let j = choose|j: int| 0 <= j < d2.len() && d2[j] == y;
                assert(r2[j + 1] == y);
                assert(r2[0].intra_tick_offset_us <= r2[j + 1].intra_tick_offset_us);
            } else {
                assert(at_offset(r1, o2) == at_offset(r2, o2));
                assert(at_offset(d1, o2).len() > 0);
                let p = |e: OrderEvent| e.intra_tick_offset_us == o2;
                assert(at_offset(d1, o2) == d1.filter(p));
                let y = d1.filter(p)[0];
                d1.lemma_filter_pred(p, 0);
                assert(d1.filter(p).contains(y));
                d1.lemma_filter_contains_rev(p, y);
                let j = choose|j: int| 0 <= j < d1.len() && d1[j] == y;
                assert(r1[j + 1] == y);
                assert(r1[0].intra_tick_offset_us <= r1[j + 1].intra_tick_offset_us);
            }
        }
        assert(o1 == o2);
        assert(at_offset(r1, o1) == at_offset(r2, o1));
        assert((seq![x1] + at_offset(d1, o1))[0] == x1);
        assert((seq![x2] + at_offset(d2, o1))[0] == x2);
        assert(x1 == x2);
        assert forall|o: u32| #[trigger] at_offset(d1, o) == at_offset(d2, o) by {
            assert(at_offset(r1, o) == at_offset(r2, o));
            if o == o1 {
                assert(at_offset(d1, o) =~= (seq![x1] + at_offset(d1, o)).drop_first());
                assert(at_offset(d2, o) =~= (seq![x2] + at_offset(d2, o)).drop_first());
            }
        }
        lemma_sorted_same_offsets_equal(d1, d2);
    }
}

/// The order in which a queue drains is determined by what was pushed: there is exactly one
/// stable ordering by offset.
pub proof fn lemma_stable_sort_unique(r1: Seq<OrderEvent>, r2: Seq<OrderEvent>, s: Seq<OrderEvent>)
    requires
        stable_sorted_by_offset(r1, s),
        stable_sorted_by_offset(r2, s),
    ensures
        r1 == r2,
{
    assert forall|offset: u32| #[trigger] at_offset(r1, offset) == at_offset(r2, offset) by {
        assert(at_offset(r1, offset) == at_offset(s, offset));
        assert(at_offset(r2, offset) == at_offset(s, offset));
    }
    lemma_sorted_same_offsets_equal(r1, r2);
}

/// Every event of a stable ordering of `s` is an event of `s`.
pub proof fn lemma_sorted_member(r: Seq<OrderEvent>, s: Seq<OrderEvent>, i: int)
    requires
        stable_sorted_by_offset(r, s),
        0 <= i < r.len(),
    ensures
        s.contains(r[i]),
{
    let o = r[i].intra_tick_offset_us;
    let p = |e: OrderEvent| e.intra_tick_offset_us == o;
    r.lemma_filter_contains(p, i);
    assert(at_offset(r, o) == r.filter(p));
    assert(at_offset(s, o) == s.filter(p));
    assert(at_offset(r, o) == at_offset(s, o));
    s.lemma_filter_contains_rev(p, r[i]);
}

/// The order in which pending events `s` drain: the unique stable ordering by offset.
pub open spec fn drain_order(s: Seq<OrderEvent>) -> Seq<OrderEvent> {
    choose|r: Seq<OrderEvent>| stable_sorted_by_offset(r, s)
}

/// Intra-tick queue of order events; drains in ascending offset order, FIFO among equal offsets.
pub struct EventQueue {
    /// Held sorted by offset, each run of equal offsets in arrival order.
    entries: Vec<OrderEvent>,
    /// The pending events in arrival order.
    pending: Ghost<Seq<OrderEvent>>,
}

impl View for EventQueue {
    type V = Seq<OrderEvent>;

    /// The pending events in the order they were pushed.
    closed spec fn view(&self) -> Seq<OrderEvent> {
        self.pending@
    }
}

impl EventQueue {
    pub closed spec fn wf(&self) -> bool {
        stable_sorted_by_offset(self.entries@, self.pending@)
    }

    pub fn new() -> (q: Self)
        ensures
            q.wf(),
            q@ == Seq::<OrderEvent>::empty(),
    {
        let q = EventQueue { entries: Vec::new(), pending: Ghost(Seq::empty()) };
        proof {
            assert forall|offset: u32| #[trigger]
                at_offset(q.entries@, offset) == at_offset(q.pending@, offset) by {
                assert(q.entries@ =~= q.pending@);
            }
        }
        q
    }

    pub fn push(&mut self, event: OrderEvent)
        requires
            old(self).wf(),
        ensures
            final(self).wf(),
            final(self)@ == old(self)@.push(event),
    {
        let ghost old_entries = self.entries@;
        let offset = event.intra_tick_offset_us;
        let mut k: usize = 0;
        while k < self.entries.len() && self.entries[k].intra_tick_offset_us <= offset
            invariant
                k <= self.entries.len(),
                self.entries@ == old_entries,
                forall|i: int| 0 <= i < k ==> #[trigger] old_entries[i].intra_tick_offset_us <= offset,
            decreases self.entries.len() - k,
        {
            k = k + 1;
        }
        proof {
            assert forall|i: int| k <= i < old_entries.len() implies
                #[trigger] old_entries[i].intra_tick_offset_us > offset by {
                assert(old_entries[k as int].intra_tick_offset_us > offset);
            }
        }
        self.entries.insert(k, event);
        self.pending = Ghost(self.pending@.push(event));
        proof {
            let a = old_entries.subrange(0, k as int);
            let b = old_entries.subrange(k as int, old_entries.len() as int);
            assert(old_entries =~= a + b);
            assert(self.entries@ =~= a + seq![event] + b);
            assert forall|o: u32| #[trigger]
                at_offset(self.entries@, o) == at_offset(self.pending@, o) by {
                let p = |e: OrderEvent| e.intra_tick_offset_us == o;
                assert(at_offset(old_entries, o) == at_offset(old(self).pending@, o));
                assert(at_offset(old_entries, o) == old_entries.filter(p));
                assert(at_offset(self.entries@, o) == self.entries@.filter(p));
                assert(at_offset(self.pending@, o) == self.pending@.filter(p));
                Seq::filter_distributes_over_add(a, b, p);
                Seq::filter_distributes_over_add(a + seq![event], b, p);
                Seq::filter_distributes_over_add(a, seq![event], p);
                old(self).pending@.lemma_filter_push(event, p);
                reveal_with_fuel(Seq::filter, 2);
                if o == offset {
                    assert forall|i: int| 0 <= i < b.len() implies !p(b[i]) by {
                        assert(b[i] == old_entries[k + i]);
                    }
                    b.lemma_all_neg_filter_empty(p);
                    assert(b.filter(p) =~= Seq::<OrderEvent>::empty());
                    assert(at_offset(self.entries@, o) =~= a.filter(p) + seq![event]);
                } else {
                    assert(seq![event].filter(p) =~= Seq::<OrderEvent>::empty());
                }
            }
        }
    }

    /// Drains all events, sorted ascending by `intra_tick_offset_us`; FIFO for equal offsets.
    pub fn drain_sorted(&mut self) -> (result: Vec<OrderEvent>)
        requires
            old(self).wf(),
        ensures
            final(self).wf(),
            final(self)@ == Seq::<OrderEvent>::empty(),
            stable_sorted_by_offset(result@, old(self)@),
            result@ == drain_order(old(self)@),
    {
        let mut result = Vec::new();
        std::mem::swap(&mut result, &mut self.entries);
        proof {
            assert(stable_sorted_by_offset(result@, old(self)@));
            let r = drain_order(old(self)@);
            lemma_stable_sort_unique(result@, r, old(self)@);
        }
        self.pending = Ghost(Seq::empty());
        proof {
            assert forall|o: u32| #[trigger]
                at_offset(self.entries@, o) == at_offset(self.pending@, o) by {
                assert(self.entries@ =~= self.pending@);
            }
        }
        result
    }
}

impl Default for EventQueue {
    fn default() -> (q: Self)
        ensures
            q.wf(),
            q@ == Seq::<OrderEvent>::empty(),
    {
        EventQueue::new()
    }
}

} // verus!
