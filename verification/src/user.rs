//! Users.

use vstd::prelude::*;

verus! {

/// Unique user identifier.
pub type Id = String;

} // verus!
