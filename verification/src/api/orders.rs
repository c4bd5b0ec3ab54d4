//! Order requests.

use crate::order;
use crate::order::Order;
use vstd::prelude::*;

verus! {

/// A request to place an order.
#[derive(Debug)]
pub struct PlaceOrderRequest {
    pub client_id: order::ClientId,
    pub side: order::Side,
    pub price: order::Price,
    pub volume: order::Volume,
}

/// A new order as requested: its id is left 0 for the matcher to assign, and it has no user,
/// since the request names none.
impl From<PlaceOrderRequest> for Order {
    fn from(value: PlaceOrderRequest) -> (res: Self)
        ensures
            res.id == 0,
            res.user_id@ == Seq::<char>::empty(),
            res == (Order {
                id: 0,
                user_id: res.user_id,
                client_id: value.client_id,
                side: value.side,
                price: value.price,
                executed_price: None,
                volume: value.volume,
                executed_volume: 0,
                status: order::Status::Open,
                closed_by: None,
            }),
    {
        Order::new(0, String::new(), value.client_id, value.side, value.price, value.volume)
    }
}

impl vstd::std_specs::convert::FromSpecImpl<PlaceOrderRequest> for Order {
    open spec fn obeys_from_spec() -> bool {
        false
    }

    open spec fn from_spec(value: PlaceOrderRequest) -> Self {
        arbitrary()
    }
}

} // verus!
