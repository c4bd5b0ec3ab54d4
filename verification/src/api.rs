//! What the public HTTP API of the matching engine decides: how errors are answered, what an
//! order request means, and where a request comes from.

pub mod error;
pub mod orders;
pub mod utils;
