//! Orders: side, arrival timestamp, and the order record itself.

use crate::price::Price;
use vstd::prelude::*;

verus! {

/// Which side of the book an order belongs to.
#[derive(Debug, Clone, Copy, PartialEq, Eq, Structural)]
pub enum Side {
    Buy,
    Sell,
}

impl Side {
    /// The side an order of this side matches against.
    pub open spec fn opposite(self) -> Side {
        match self {
            Side::Buy => Side::Sell,
            Side::Sell => Side::Buy,
        }
    }
}

/// Arrival time in nanoseconds since the Unix epoch. It serves only as half
/// of an order's cancellation identity; no contract of this crate depends on
/// the clock's value.
#[derive(Debug, PartialEq, Eq, Hash, Copy, Clone, Structural)]
pub struct TimeStamp(pub u128);

impl TimeStamp {
    /// Relies on std::time::SystemTime::now, read as the number of
    /// nanoseconds since the Unix epoch (0 if the clock is before the
    /// epoch). Nothing is promised of the value.
    #[verifier::external_body]
    pub fn new() -> TimeStamp {
        let now = std::time::SystemTime::now();
        let unix_time = now.duration_since(std::time::UNIX_EPOCH);
        let nanos = unix_time.map(|e| e.as_nanos()).unwrap_or(0);
        TimeStamp(nanos)
    }
}

/// A resting or incoming order. `quantity` is the remaining quantity and
/// starts positive; `(user_id, timestamp)` is the identity used for
/// cancellation.
#[derive(Debug, Clone, Copy, PartialEq, Eq, Structural)]
pub struct Order {
    pub user_id: u64,
    pub timestamp: TimeStamp,
    pub price: Price,
    pub quantity: u64,
    pub side: Side,
}

impl Order {
    /// Cancellation identity: the `(user_id, timestamp)` pair.
    pub open spec fn same_identity(self, user_id: u64, timestamp: TimeStamp) -> bool {
        self.user_id == user_id && self.timestamp == timestamp
    }

    /// The same order with its remaining quantity replaced.
    pub open spec fn with_quantity(self, quantity: u64) -> Order {
        Order {
            user_id: self.user_id,
            timestamp: self.timestamp,
            price: self.price,
            quantity: quantity,
            side: self.side,
        }
    }
}

} // verus!
