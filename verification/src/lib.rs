//! A price-time-priority matching engine for one instrument, with the limit
//! order book behind it, verified with Verus.
//!
//! * [`order`] holds the value types and the rules of priority.
//! * [`priority`] says what those rules mean for a queue of resting orders.
//! * [`book_view`] is the book as a mathematical value, [`order_book`] the
//!   book itself.
//! * [`matching`] says what matching an order against a queue produces.
//! * [`engine_view`] is the engine as a mathematical value,
//!   [`matching_engine`] the engine itself.
//! * [`laws`] proves what holds after every run of commands.
//! * [`text`] renders orders, trades and the book.

pub mod order;
pub mod priority;
mod levels;
pub mod book_view;
pub mod order_book;
pub mod matching;
pub mod engine_view;
pub mod matching_engine;
pub mod laws;
pub mod text;
