//! Matching core of a limit-order trading venue.
//!
//! The library has two components: an order book (`book`), which holds
//! resting orders for one instrument partitioned into a bid side and an ask
//! side, each kept in price-time priority order; and a matching engine
//! (`engine`), which matches an incoming order against the book, emits the
//! resulting trades, and rests any unfilled remainder.
//!
//! All quantities and prices are non-negative integers. Every order
//! maintains the conservation invariant
//! `volume_filled + volume_remaining == total_volume`.

pub mod book;
pub mod engine;
pub mod order;
