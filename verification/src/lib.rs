//! Price-time priority matching for a single-instrument order book.
//!
//! Everything here is stated against one mathematical model: a book is a
//! `Seq<Order>` in arrival order, and [`priority::match_book`] says which
//! trades a book gives and which orders stay.
//!
//! - [`order`]: the records, and the line that reports a trade.
//! - [`priority`]: what matching means.
//! - [`laws`]: what holds of every book.
//! - [`matcher`]: the matching engine, in two forms.
//! - [`stream`]: orders arriving one at a time.
//! - [`orderparser`]: reading an order from a line of text.
//! - [`slots`], [`listing`]: the persistent table under the first engine.

pub mod laws;
pub mod listing;
pub mod matcher;
pub mod order;
pub mod orderparser;
pub mod priority;
pub mod slots;
pub mod stream;
