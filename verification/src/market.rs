//! Markets.

use vstd::prelude::*;

verus! {

/// Name of a market, such as `BTCUSDT`.
pub type Symbol = String;

} // verus!
