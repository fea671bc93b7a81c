use vstd::prelude::*;

verus! {

pub type OrderId = u64;

pub type AgentId = u32;

/// Microseconds of simulated time.
pub type SimTime = u64;

pub type StockId = u32;

/// A price in fixed-point ticks: one unit is $0.0001, so $10.01 is `100_100`.
pub type Price = i64;

/// One-minute OHLCV bar built from the trades of one stock.
#[derive(Debug, Clone, Copy, PartialEq, Eq, Structural)]
pub struct Candle {
    pub open: Price,
    pub high: Price,
    pub low: Price,
    pub close: Price,
    pub volume: u64,
    /// Start of the minute: `minute_index * 60_000_000`.
    pub sim_time: SimTime,
}

#[derive(Debug, Clone, Copy, PartialEq, Eq, Structural)]
pub enum Side {
    Bid,
    Ask,
}

#[derive(Debug, Clone, Copy, PartialEq, Eq, Structural)]
pub enum OrderType {
    Market,
    Limit,
    Stop { stop_price: Price },
    StopLimit { stop_price: Price },
    Ioc,
    Fok,
    Iceberg { display_qty: u32, hidden_qty: u32 },
}

#[derive(Debug, Clone, Copy, PartialEq, Eq, Structural)]
pub struct Order {
    pub id: OrderId,
    pub agent_id: AgentId,
    pub side: Side,
    pub order_type: OrderType,
    /// Limit price; 0 for market orders.
    pub price: Price,
    pub quantity: u32,
    pub filled: u32,
    pub submitted_at: SimTime,
    pub gtc: bool,
}

#[derive(Debug, Clone, Copy, PartialEq, Eq, Structural)]
pub struct Trade {
    pub aggressor_order_id: OrderId,
    pub resting_order_id: OrderId,
    pub aggressor_agent: AgentId,
    pub resting_agent: AgentId,
    pub price: Price,
    pub size: u32,
    pub aggressor_side: Side,
    pub time: SimTime,
}

impl Order {
    /// Quantity not yet filled, as a mathematical integer.
    pub open spec fn rem(self) -> int {
        self.quantity - self.filled
    }

    /// Hidden reserve of an iceberg order; 0 for every other type.
    pub open spec fn hidden(self) -> nat {
        match self.order_type {
            OrderType::Iceberg { hidden_qty, .. } => hidden_qty as nat,
            _ => 0,
        }
    }

    /// Shares this order can still trade: what is shown plus the hidden reserve.
    pub open spec fn effective(self) -> int {
        self.rem() + self.hidden()
    }

    /// The order can be handled without an arithmetic fault or an endless replenishment:
    /// it never has more filled than ordered, an iceberg with a hidden reserve shows at least
    /// one share per slice.
    pub open spec fn valid(self) -> bool {
        &&& self.filled <= self.quantity
        &&& match self.order_type {
            OrderType::Iceberg { display_qty, hidden_qty } => hidden_qty > 0 ==> display_qty > 0,
            _ => true,
        }
    }

    pub fn remaining(&self) -> (r: u32)
        requires
            self.filled <= self.quantity,
        ensures
            r == self.rem(),
    {
        self.quantity - self.filled
    }
}

} // verus!
