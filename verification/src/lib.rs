//! The matching core of a two-sided limit order book for one instrument.
//!
//! A [`Book`] holds the resting bids and asks. [`Book::submit`] matches an
//! incoming order against the other side under price-time priority and rests
//! what is left of it; [`Book::depth`] reports the open quantity per price.

pub mod book;
pub mod depth;
pub mod matching;
pub mod order;
pub mod queue;

pub use book::Book;
pub use order::{Order, Side, Trade};
