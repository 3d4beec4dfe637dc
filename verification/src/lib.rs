//! A continuous double-auction limit order book for a single instrument.
//!
//! Orders carry a fixed-point [`price::Price`], a remaining quantity and a
//! side; the book matches crossing orders under strict price-then-time
//! priority and returns one [`trades::Trade`] per fill. The matching
//! algorithm, cancellation and clearing are specified exactly against a
//! sequence model of the book and verified.

pub mod laws;
pub mod matching;
pub mod orders;
pub mod price;
pub mod text;
pub mod ticker;
pub mod trades;

pub use matching::OrderBook;
pub use orders::Order;
pub use orders::Side;
pub use orders::TimeStamp;
pub use price::ParseError;
pub use price::Price;
pub use ticker::TickerSymbol;
pub use trades::Trade;
