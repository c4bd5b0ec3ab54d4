//! Orders.

use crate::sequence::SeqNo;
use crate::text;
use crate::user;
use vstd::prelude::*;

/// Order book interfaces and implementations.
pub mod book;

/// Binary wire format for orders.
pub mod wire;

verus! {

/// The side of the order: Bid to buy, Ask to sell.
#[derive(Debug, Copy, Clone, PartialEq, Eq, Structural)]
pub enum Side {
    Bid,
    Ask,
}

/// The current lifecycle status of an order.
#[derive(Debug, Copy, Clone, PartialEq, Eq, Structural)]
pub enum Status {
    /// The order is active on the book and can be matched.
    Open,
    /// The order has been completely executed.
    Executed,
    /// The order was canceled by the client and removed from the book.
    Canceled,
}

/// Unique order identifier.
pub type Id = u64;

/// Arbitrary client-provided identifier.
pub type ClientId = String;

/// Price in integer ticks (no decimals at this layer).
pub type Price = u64;

/// Quantity of the asset (base units).
pub type Volume = u64;

/// An order submitted by a client to buy or sell a quantity at a limit price.
#[derive(Debug)]
pub struct Order {
    pub id: Id,
    pub user_id: user::Id,
    pub client_id: ClientId,
    pub side: Side,
    /// Limit price for this order, in ticks.
    pub price: Price,
    /// Average execution price if executed; None if never traded. It is the average by volume, in
    /// whole ticks, rounded down.
    pub executed_price: Option<Price>,
    /// Total requested volume when the order was placed.
    pub volume: Volume,
    /// Cumulative executed volume so far.
    pub executed_volume: Volume,
    pub status: Status,
    /// The sequence number that closed the order; None while it is open.
    pub closed_by: Option<SeqNo>,
}

impl Clone for Order {
    fn clone(&self) -> (res: Self)
        ensures
            res == *self,
    {
        Order {
            id: self.id,
            user_id: self.user_id.clone(),
            client_id: self.client_id.clone(),
            side: self.side,
            price: self.price,
            executed_price: self.executed_price,
            volume: self.volume,
            executed_volume: self.executed_volume,
            status: self.status,
            closed_by: self.closed_by,
        }
    }
}

/// The text that stands for a user's client id: the user id, a colon, the client id. Where the
/// user id itself holds a colon, the two are masked and joined by `\/`, and the text holds no colon.
pub open spec fn client_key(user_id: Seq<char>, client_id: Seq<char>) -> Seq<char> {
    if user_id.contains(':') {
        text::masked_chars(user_id) + text::mask_end() + text::masked_chars(client_id)
    } else {
        user_id + seq![':'] + client_id
    }
}

impl Order {
    /// The unfilled portion of the order's volume.
    pub open spec fn remaining(self) -> int {
        self.volume - self.executed_volume
    }

    /// The text that stands for this order's user and client id.
    pub open spec fn key(self) -> Seq<char> {
        client_key(self.user_id@, self.client_id@)
    }

    /// Construct a new limit order with the given parameters.
    pub fn new(
        id: Id,
        user_id: user::Id,
        client_id: ClientId,
        side: Side,
        price: Price,
        volume: Volume,
    ) -> (res: Self)
        ensures
            res == (Order {
                id,
                user_id,
                client_id,
                side,
                price,
                executed_price: None,
                volume,
                executed_volume: 0,
                status: Status::Open,
                closed_by: None,
            }),
    {
        Order {
            id,
            user_id,
            client_id,
            side,
            price,
            executed_price: None,
            volume,
            executed_volume: 0,
            status: Status::Open,
            closed_by: None,
        }
    }

    /// Returns the unfilled portion of the order's volume.
    pub fn remaining_volume(&self) -> (res: Volume)
        requires
            self.executed_volume <= self.volume,
        ensures
            res == self.remaining(),
    {
        self.volume - self.executed_volume
    }

    /// Returns a unique identifier for this order using its client id and user id.
    pub fn user_client_id(&self) -> (res: String)
        ensures
            res@ == self.key(),
    {
        Order::format_user_client_id(&self.user_id, &self.client_id)
    }

    /// The user id and the client id, joined by a colon. A user id that holds a colon, and the
    /// client id beside it, are masked, so that no other pair gives the same text.
    pub fn format_user_client_id(user_id: &user::Id, client_id: &ClientId) -> (res: String)
        ensures
            res@ == client_key(user_id@, client_id@),
    {
        proof {
            reveal_strlit(":");
            reveal_strlit("\\/");
        }
        assert(":"@ =~= seq![':']);
        assert("\\/"@ =~= text::mask_end());
        if text::has_colon(user_id.as_str()) {
            text::masked(user_id.as_str()).concat("\\/").concat(
                text::masked(client_id.as_str()).as_str(),
            )
        } else {
            user_id.clone().concat(":").concat(client_id.as_str())
        }
    }
}

/// Two pairs of user id and client id share the text only if they are the same pair.
pub proof fn law_client_key_is_unique(
    user1: Seq<char>,
    client1: Seq<char>,
    user2: Seq<char>,
    client2: Seq<char>,
)
    requires
        client_key(user1, client1) == client_key(user2, client2),
    ensures
        user1 == user2,
        client1 == client2,
{
    lemma_key_has_colon(user1, client1);
    lemma_key_has_colon(user2, client2);
    if user1.contains(':') {
        text::law_masked_pair_is_told(user1, client1, user2, client2);
    } else {
        text::law_text_before_colon_is_told(user1, client1, user2, client2);
    }
}

/// The text holds a colon exactly if the user id holds none.
proof fn lemma_key_has_colon(user_id: Seq<char>, client_id: Seq<char>)
    ensures
        client_key(user_id, client_id).contains(':') == !user_id.contains(':'),
{
    let key = client_key(user_id, client_id);
    if user_id.contains(':') {
        let front = text::masked_chars(user_id);
        let back = text::masked_chars(client_id);
        text::law_masked_text_has_no_colon(user_id);
        text::law_masked_text_has_no_colon(client_id);
        assert forall|i: int| 0 <= i < key.len() implies #[trigger] key[i] != ':' by {
            if i < front.len() {
                assert(key[i] == front[i] && front.contains(front[i]));
            } else if i >= front.len() + 2 {
                let j = i - front.len() - 2;
                assert(key[i] == back[j] && back.contains(back[j]));
            }
        }
    } else {
        assert(key[user_id.len() as int] == ':');
    }
}

/// A user id without colons and a client id are joined by a colon: what stands before the first
/// colon is the user id, and what follows it is the client id.
pub proof fn law_plain_ids_are_joined_by_colon(user_id: Seq<char>, client_id: Seq<char>)
    requires
        !user_id.contains(':'),
    ensures
        ({
            let key = client_key(user_id, client_id);
            let at = user_id.len() as int;
            &&& key.len() == user_id.len() + 1 + client_id.len()
            &&& key.take(at) == user_id
            &&& key[at] == ':'
            &&& key.skip(at + 1) == client_id
        }),
{
    let key = client_key(user_id, client_id);
    let at = user_id.len() as int;
    assert(key.take(at) =~= user_id);
    assert(key.skip(at + 1) =~= client_id);
}

/// Two orders have the same text exactly if they are of the same user and have the same client id.
pub proof fn law_key_tells_user_and_client(a: Order, b: Order)
    ensures
        a.key() == b.key() <==> a.user_id@ == b.user_id@ && a.client_id@ == b.client_id@,
{
    if a.key() == b.key() {
        law_client_key_is_unique(a.user_id@, a.client_id@, b.user_id@, b.client_id@);
    }
}

} // verus!
