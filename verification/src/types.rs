use vstd::prelude::*;

verus! {

/// One half of the book: the side an order rests on.
#[derive(Clone, Copy, Debug, PartialEq, Eq, Structural)]
pub enum Side {
    Buy,
    Sell,
}

impl Side {
    /// The side an incoming order of this side matches against.
    pub fn opposite(self) -> (r: Side)
        ensures
            r == (if self == Side::Buy { Side::Sell } else { Side::Buy }),
    {
        match self {
            Side::Buy => Side::Sell,
            Side::Sell => Side::Buy,
        }
    }
}

/// How long an order remains eligible to rest in the book.
#[derive(Clone, Copy, Debug, PartialEq, Eq, Structural)]
pub enum TimeInForce {
    /// Good 'til cancelled: rests until filled or cancelled.
    Gtc,
    /// Immediate or cancel.
    Ioc,
    /// Fill or kill.
    Fok,
    /// Good 'til date: expires at the carried wall-clock millisecond timestamp.
    Gtd(u64),
    /// Good for the trading day: expires at the book's market close, if one is set.
    Day,
}

impl TimeInForce {
    /// Whether this policy is expired at `now_ms`, given the book's market
    /// close timestamp when one is set. Only `Gtd` and `Day` ever expire.
    pub fn is_expired(self, now_ms: u64, market_close: Option<u64>) -> (r: bool)
        ensures
            r == self.spec_is_expired(now_ms, market_close),
    {
        match self {
            TimeInForce::Gtd(expiry) => now_ms >= expiry,
            TimeInForce::Day => match market_close {
                Some(close) => now_ms >= close,
                None => false,
            },
            _ => false,
        }
    }

    pub open spec fn spec_is_expired(self, now_ms: u64, market_close: Option<u64>) -> bool {
        match self {
            TimeInForce::Gtd(expiry) => now_ms >= expiry,
            TimeInForce::Day => market_close is Some && now_ms >= market_close->0,
            _ => false,
        }
    }
}

/// Whether an incoming order is a market or a limit order, as carried on the
/// order-creation command.
#[derive(Clone, Copy, Debug, PartialEq, Eq, Structural)]
pub enum OrderType {
    MARKET,
    LIMIT,
}

/// Command payload: create an order book for an instrument.
pub struct InstrumentCreatePayload {
    pub instrument_id: String,
}

/// Command payload: delete an instrument's order book.
pub struct DeleteInstrumentPayload {
    pub instrument_id: String,
}

/// Command payload: submit a new market or limit order.
pub struct OrderCreatePayload {
    pub order_id: u64,
    pub instrument_id: String,
    pub quantity: u64,
    pub price: u64,
    pub side: Side,
    pub time_in_force: TimeInForce,
    pub order_type: OrderType,
}

/// Command payload: cancel a resting order.
pub struct OrderCancelPayload {
    pub order_id: u64,
    pub instrument_id: String,
}

/// Command payload: change a resting order's price and quantity.
pub struct OrderModifyPayload {
    pub instrument_id: String,
    pub order_id: u64,
    pub price: u64,
    pub quantity: u64,
}

/// One command of the engine's input stream.
pub enum EngineCommand {
    InstrumentCreate(InstrumentCreatePayload),
    InstrumentDelete(DeleteInstrumentPayload),
    OrderCreate(OrderCreatePayload),
    OrderCancel(OrderCancelPayload),
    OrderModify(OrderModifyPayload),
}

/// Connection settings for the message-bus consumer that feeds the engine.
/// The consumer itself is the host process's concern; the core only carries
/// these values.
pub struct KafkaConfig {
    pub brokers: String,
    pub group_id: String,
    pub topics: Vec<String>,
}

} // verus!
