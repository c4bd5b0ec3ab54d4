//! A limit order book with price-time priority.
//!
//! The book keeps open orders in price levels, matches crossing orders, remembers
//! recently closed orders, and can stream a point-in-time snapshot of its orders while
//! it goes on working.

pub mod api;
pub mod collections;
pub mod config;
pub mod encoding;
pub mod market;
pub mod matcher;
pub mod order;
pub mod sequence;
pub mod snapshot;
pub mod text;
pub mod trade;
pub mod user;
