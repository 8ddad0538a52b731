//! A price-time priority order matching engine, and the decisions of the services around it.
//!
//! `OrderBook` matches limit orders; `model` states what matching means, `guarantees` what it
//! comes to in plain comparisons, and `laws`, `totals` and `symmetry` what follows of it. `matcher`
//! numbers and matches the orders of a stream, `intake` takes orders in, `feed` passes fills on to
//! clients and `snapshot` publishes the book.
mod book;
pub mod feed;
pub mod guarantees;
pub mod intake;
mod ladder;
pub mod laws;
pub mod matcher;
pub mod model;
pub mod snapshot;
pub mod symmetry;
pub mod totals;
mod types;

pub use book::OrderBook;
pub use matcher::{Matcher, StreamEntry};
pub use types::{Fill, Order, PriceLevel, Side};
