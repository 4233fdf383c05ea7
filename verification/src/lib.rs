//! A single price level of a limit order book: a first-in, first-out queue of
//! resting orders that share one price and one side, with live aggregates.
//!
//! `order` holds the orders and their handles, `arena` the store that owns
//! the orders of a level, `limit` the level itself, `queue` the mathematics
//! its contracts speak in, and `history` what follows for runs of inserts
//! and removals.

pub mod arena;
pub mod history;
pub mod limit;
pub mod order;
pub mod queue;
