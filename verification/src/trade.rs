//! Trade representation produced by the matching engine.
//!
//! A Trade links a bid and an ask order that were matched, along with the
//! execution price, volume, side that provided liquidity (maker), and a
//! timestamp.

use crate::order;
use vstd::prelude::*;

verus! {

/// `time::OffsetDateTime`, carried through as it is.
#[verifier::external_type_specification]
#[verifier::external_body]
pub struct ExOffsetDateTime(time::OffsetDateTime);

/// Calls `time::OffsetDateTime::now_utc`. Nothing is claimed of the moment it returns.
#[verifier::external_body]
pub(crate) fn now_utc() -> time::OffsetDateTime {
    time::OffsetDateTime::now_utc()
}

/// Unique identifier for trades.
pub type Id = u64;

/// A single execution between a bid and an ask.
#[derive(Debug)]
pub struct Trade {
    /// Trade id. The book leaves it 0; the persistence layer assigns it.
    pub id: Id,
    /// The resting bid order involved in the trade (or taker if crossed).
    pub bid_order_id: order::Id,
    /// The resting ask order involved in the trade (or taker if crossed).
    pub ask_order_id: order::Id,
    /// Whether the bid side was the maker (i.e., provided resting liquidity).
    pub is_bid_maker: bool,
    /// Execution price of the trade.
    pub price: order::Price,
    /// Executed volume (base quantity) for this trade.
    pub volume: order::Volume,
    /// UTC timestamp when the trade was generated.
    pub timestamp: time::OffsetDateTime,
}

/// What was traded: a trade without its timestamp.
pub struct TradeTerms {
    pub id: Id,
    pub bid_order_id: order::Id,
    pub ask_order_id: order::Id,
    pub is_bid_maker: bool,
    pub price: order::Price,
    pub volume: order::Volume,
}

impl View for Trade {
    type V = TradeTerms;

    open spec fn view(&self) -> TradeTerms {
        TradeTerms {
            id: self.id,
            bid_order_id: self.bid_order_id,
            ask_order_id: self.ask_order_id,
            is_bid_maker: self.is_bid_maker,
            price: self.price,
            volume: self.volume,
        }
    }
}

/// What was traded is what the trade says, field by field.
pub proof fn law_terms_are_those_of_the_trade(trade: Trade)
    ensures
        trade@.id == trade.id,
        trade@.bid_order_id == trade.bid_order_id,
        trade@.ask_order_id == trade.ask_order_id,
        trade@.is_bid_maker == trade.is_bid_maker,
        trade@.price == trade.price,
        trade@.volume == trade.volume,
{
}

} // verus!
