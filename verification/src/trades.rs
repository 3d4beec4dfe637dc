//! Trades: the immutable execution record produced by one fill.

use crate::orders::Order;
use crate::orders::TimeStamp;
use crate::price::Price;
use vstd::prelude::*;

verus! {

/// One execution: `quantity` units change hands at `price` between
/// `buy_user` and `sell_user`. Created once per fill, never mutated.
#[derive(Debug, Clone, Copy, PartialEq, Eq, Structural)]
pub struct Trade {
    pub timestamp: TimeStamp,
    pub quantity: u64,
    pub price: Price,
    pub buy_user: u64,
    pub sell_user: u64,
}

/// The part of a trade the matching algorithm determines: everything but
/// the timestamp, which is read from the clock.
#[derive(Debug, Clone, Copy, PartialEq, Eq, Structural)]
pub struct Fill {
    pub quantity: u64,
    pub price: Price,
    pub buy_user: u64,
    pub sell_user: u64,
}

/// The fills that a sequence of trades records, in order.
pub open spec fn fills_of(trades: Seq<Trade>) -> Seq<Fill> {
    trades.map_values(|t: Trade| t.fill())
}

impl Trade {
    /// The fill this trade records.
    pub open spec fn fill(self) -> Fill {
        Fill {
            quantity: self.quantity,
            price: self.price,
            buy_user: self.buy_user,
            sell_user: self.sell_user,
        }
    }

    /// Builds the record for a fill of `quantity` units between `buy` and
    /// `sell`, executed at `price` (the resting order's price: the maker
    /// sets the execution price). The timestamp is read from the clock and
    /// nothing is promised of it.
    pub fn from_orders(buy: &Order, sell: &Order, price: Price, quantity: u64) -> (t: Trade)
        ensures
            t.quantity == quantity,
            t.price == price,
            t.buy_user == buy.user_id,
            t.sell_user == sell.user_id,
    {
        Trade {
            timestamp: TimeStamp::new(),
            quantity: quantity,
            price: price,
            buy_user: buy.user_id,
            sell_user: sell.user_id,
        }
    }
}

} // verus!
