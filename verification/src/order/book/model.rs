//! What an order book is, as mathematics: orders by id, and the queues of the price levels.

use crate::order::{Id, Order, Price, Side, Status};
use crate::order::book::DepthItem;
use crate::order::book::fills::Fills;
use crate::sequence::SeqNo;
use crate::trade::TradeTerms;
use vstd::prelude::*;

verus! {

/// The volume that is left to trade in all of `orders`.
pub open spec fn open_volume(orders: Seq<Order>) -> int
    decreases orders.len(),
{
    if orders.len() == 0 {
        0
    } else {
        open_volume(orders.drop_last()) + orders.last().remaining()
    }
}

impl Order {
    /// This order, canceled at `seq`.
    pub open spec fn canceled(self, seq: SeqNo) -> Order {
        Order { status: Status::Canceled, closed_by: Some(seq), ..self }
    }

    /// This order, closed as executed; `closer` is the sequence number that closed it.
    pub open spec fn closed_out(self, closer: SeqNo) -> Order {
        Order { status: Status::Executed, closed_by: Some(closer), ..self }
    }

    /// This order, whose executions were `fills`, completely executed at `price`, and closed by
    /// `closer`.
    pub open spec fn executed(self, fills: Fills, price: Price, closer: SeqNo) -> Order {
        self.filled(fills, price, self.remaining()).closed_out(closer)
    }
}

/// On `side`, price `a` comes before price `b`: a higher bid, or a lower ask.
pub open spec fn better(side: Side, a: Price, b: Price) -> bool {
    match side {
        Side::Bid => a > b,
        Side::Ask => a < b,
    }
}

/// Appending an order adds its volume.
pub proof fn lemma_open_volume_push(orders: Seq<Order>, order: Order)
    ensures
        open_volume(orders.push(order)) == open_volume(orders) + order.remaining(),
{
    assert(orders.push(order).drop_last() =~= orders);
}

/// Putting another order in the place of one changes the volume by the difference.
pub proof fn lemma_open_volume_update(orders: Seq<Order>, i: int, order: Order)
    requires
        0 <= i < orders.len(),
    ensures
        open_volume(orders.update(i, order)) == open_volume(orders) - orders[i].remaining()
            + order.remaining(),
    decreases orders.len(),
{
    if i == orders.len() - 1 {
        assert(orders.update(i, order).drop_last() =~= orders.drop_last());
    } else {
        assert(orders.update(i, order).drop_last() =~= orders.drop_last().update(i, order));
        lemma_open_volume_update(orders.drop_last(), i, order);
    }
}

/// Taking an order out takes its volume out.
pub proof fn lemma_open_volume_remove(orders: Seq<Order>, i: int)
    requires
        0 <= i < orders.len(),
    ensures
        open_volume(orders.remove(i)) == open_volume(orders) - orders[i].remaining(),
    decreases orders.len(),
{
    if i == orders.len() - 1 {
        assert(orders.remove(i) =~= orders.drop_last());
    } else {
        assert(orders.remove(i).drop_last() =~= orders.drop_last().remove(i));
        assert(orders.remove(i).last() == orders.last());
        lemma_open_volume_remove(orders.drop_last(), i);
    }
}

/// Orders that have not executed more than their volume have no negative volume left, and
/// none of them more than all together.
pub proof fn lemma_open_volume_bounds(orders: Seq<Order>)
    requires
        forall|i: int|
            0 <= i < orders.len() ==> (#[trigger] orders[i]).executed_volume <= orders[i].volume,
    ensures
        open_volume(orders) >= 0,
        forall|i: int|
            0 <= i < orders.len() ==> (#[trigger] orders[i]).remaining() <= open_volume(orders),
    decreases orders.len(),
{
    if orders.len() > 0 {
        let front = orders.drop_last();
        assert forall|i: int| 0 <= i < front.len() implies (#[trigger] front[i]).executed_volume
            <= front[i].volume by {
            assert(front[i] == orders[i]);
        }
        lemma_open_volume_bounds(front);
        assert forall|i: int| 0 <= i < orders.len() implies (#[trigger] orders[i]).remaining()
            <= open_volume(orders) by {
            if i < orders.len() - 1 {
                assert(front[i] == orders[i]);
            }
        }
    }
}

/// In a sequence without duplicates, an element stands where it stands.
pub proof fn lemma_index_of<A>(s: Seq<A>, i: int)
    requires
        0 <= i < s.len(),
        s.no_duplicates(),
    ensures
        s.index_of(s[i]) == i,
{
    assert(s.contains(s[i]));
}

/// The open orders of a book: each under its id, with what has been executed of it, and its id in
/// the queue of its price level. The earliest order of a level stands first in its queue.
#[verifier::ext_equal]
pub struct BookModel {
    pub orders: Map<Id, Order>,
    pub fills: Map<Id, Fills>,
    pub bids: Map<Price, Seq<Id>>,
    pub asks: Map<Price, Seq<Id>>,
}

/// A book after some matching, with the trades made and the orders closed on the way, in
/// order.
pub struct Outcome {
    pub book: BookModel,
    pub trades: Seq<TradeTerms>,
    pub closed: Seq<Order>,
}

impl BookModel {
    /// A book with no orders.
    pub open spec fn empty() -> BookModel {
        BookModel {
            orders: Map::empty(),
            fills: Map::empty(),
            bids: Map::empty(),
            asks: Map::empty(),
        }
    }

    /// The price levels of one side.
    pub open spec fn levels(self, side: Side) -> Map<Price, Seq<Id>> {
        match side {
            Side::Bid => self.bids,
            Side::Ask => self.asks,
        }
    }

    /// The queue at a price; empty where there is no such level.
    pub open spec fn queue(self, side: Side, price: Price) -> Seq<Id> {
        if self.levels(side).contains_key(price) {
            self.levels(side)[price]
        } else {
            Seq::empty()
        }
    }

    /// The orders in the queue at a price.
    pub open spec fn queue_orders(self, side: Side, price: Price) -> Seq<Order> {
        self.queue(side, price).map_values(|id: Id| self.orders[id])
    }

    /// The volume that is left to trade at a price.
    pub open spec fn volume(self, side: Side, price: Price) -> int {
        open_volume(self.queue_orders(side, price))
    }

    /// The queue at a price has become `queue`; an empty queue leaves no level.
    pub open spec fn with_queue(self, side: Side, price: Price, queue: Seq<Id>) -> BookModel {
        let levels = if queue.len() == 0 {
            self.levels(side).remove(price)
        } else {
            self.levels(side).insert(price, queue)
        };
        match side {
            Side::Bid => BookModel { bids: levels, ..self },
            Side::Ask => BookModel { asks: levels, ..self },
        }
    }

    /// An order has its id, has not executed more than its volume, nor less than its executions
    /// say, and stands in its queue.
    pub open spec fn order_valid(self, id: Id) -> bool {
        &&& self.orders[id].id == id
        &&& self.fills[id].fit(self.orders[id])
        &&& self.orders[id].executed_volume <= self.orders[id].volume
        &&& self.queue(self.orders[id].side, self.orders[id].price).contains(id)
    }

    /// A level holds at least one order, each once, and only orders of its side and price;
    /// their volume fits.
    pub open spec fn level_valid(self, side: Side, price: Price) -> bool {
        let queue = self.queue(side, price);
        &&& queue.len() > 0
        &&& queue.no_duplicates()
        &&& forall|i: int|
            0 <= i < queue.len() ==> {
                &&& self.orders.contains_key(#[trigger] queue[i])
                &&& self.orders[queue[i]].side == side
                &&& self.orders[queue[i]].price == price
            }
        &&& self.volume(side, price) <= u64::MAX
    }

    /// The orders and the queues fit together.
    pub open spec fn valid(self) -> bool {
        &&& self.orders.dom().finite()
        &&& self.fills.dom() == self.orders.dom()
        &&& self.bids.dom().finite()
        &&& self.asks.dom().finite()
        &&& forall|id: Id| #[trigger] self.orders.contains_key(id) ==> self.order_valid(id)
        &&& forall|side: Side, price: Price| #[trigger]
            self.levels(side).contains_key(price) ==> self.level_valid(side, price)
    }

    /// `order` can be added: it has not executed more than its volume, and the volume of its
    /// level still fits.
    pub open spec fn accepts(self, order: Order) -> bool {
        &&& order.executed_volume <= order.volume
        &&& self.volume(order.side, order.price) + order.remaining() <= u64::MAX
    }

    /// `order` has been added, at the end of the queue of its price.
    pub open spec fn add(self, order: Order) -> BookModel {
        BookModel {
            orders: self.orders.insert(order.id, order),
            fills: self.fills.insert(order.id, Fills::of(order)),
            ..self
        }.with_queue(
            order.side,
            order.price,
            self.queue(order.side, order.price).push(order.id),
        )
    }

    /// The order `id` has been taken out of the book and out of its queue.
    pub open spec fn remove(self, id: Id) -> BookModel {
        let order = self.orders[id];
        let queue = self.queue(order.side, order.price);
        BookModel { orders: self.orders.remove(id), fills: self.fills.remove(id), ..self }.with_queue(
            order.side,
            order.price,
            queue.remove(queue.index_of(id)),
        )
    }

    /// `volume` more of the order `id` has been executed at `price`.
    pub open spec fn fill(self, id: Id, price: Price, volume: int) -> BookModel {
        BookModel {
            orders: self.orders.insert(id, self.orders[id].filled(self.fills[id], price, volume)),
            fills: self.fills.insert(id, self.fills[id].plus(price, volume)),
            ..self
        }
    }

    /// Restoring `order` would add it: it is open, and its id is not on the book yet.
    pub open spec fn restores(self, order: Order) -> bool {
        order.closed_by is None && !self.orders.contains_key(order.id)
    }

    /// The open orders among `orders` have been added, in order; one whose id is on the book
    /// already is passed over.
    pub open spec fn restored(self, orders: Seq<Order>) -> BookModel
        decreases orders.len(),
    {
        if orders.len() == 0 {
            self
        } else {
            let before = self.restored(orders.drop_last());
            if before.restores(orders.last()) {
                before.add(orders.last())
            } else {
                before
            }
        }
    }

    /// Each of the orders that restoring `orders` would add can be added.
    pub open spec fn restorable(self, orders: Seq<Order>) -> bool {
        forall|i: int|
            0 <= i < orders.len() && #[trigger] self.restored(orders.take(i)).restores(orders[i])
                ==> self.restored(orders.take(i)).accepts(orders[i])
    }

    /// `items` are the best `limit` price levels of `side`, best first, with their volumes.
    pub open spec fn shows(self, side: Side, limit: nat, items: Seq<DepthItem>) -> bool {
        let levels = self.levels(side);
        &&& items.len() == if levels.dom().len() < limit {
            levels.dom().len()
        } else {
            limit
        }
        &&& forall|i: int|
            0 <= i < items.len() ==> {
                &&& levels.contains_key((#[trigger] items[i]).price)
                &&& items[i].volume == self.volume(side, items[i].price)
            }
        &&& forall|i: int, j: int|
            0 <= i < j < items.len() ==> better(
                side,
                (#[trigger] items[i]).price,
                (#[trigger] items[j]).price,
            )
        &&& forall|i: int, price: Price|
            0 <= i < items.len() && #[trigger] levels.contains_key(price) ==> (exists|j: int|
                0 <= j < items.len() && #[trigger] items[j].price == price) || better(
                side,
                (#[trigger] items[i]).price,
                price,
            )
    }

    /// `price` is the best price of `side`.
    pub open spec fn is_best(self, side: Side, price: Price) -> bool {
        &&& self.levels(side).contains_key(price)
        &&& forall|other: Price| #[trigger]
            self.levels(side).contains_key(other) ==> other == price || better(side, price, other)
    }

    /// The best price of `side`, where there is one.
    pub open spec fn best(self, side: Side) -> Price {
        choose|price: Price| self.is_best(side, price)
    }

    /// The earliest order at the best price of `side`.
    pub open spec fn top(self, side: Side) -> Order {
        self.orders[self.queue(side, self.best(side))[0]]
    }

    /// The best bid pays at least what the best ask asks for.
    pub open spec fn crossing(self) -> bool {
        &&& self.is_best(Side::Bid, self.best(Side::Bid))
        &&& self.is_best(Side::Ask, self.best(Side::Ask))
        &&& self.best(Side::Ask) <= self.best(Side::Bid)
    }

    /// The next two orders to meet have volume to trade.
    pub open spec fn tradable(self) -> bool {
        &&& self.valid()
        &&& self.crossing()
        &&& self.top(Side::Bid).remaining() > 0
        &&& self.top(Side::Ask).remaining() > 0
    }

    /// `volume` of the level at a price has been executed for `paid`, the earliest orders first:
    /// orders that it covers are closed by `closer`, and the next one is filled in part.
    pub open spec fn reduce(
        self,
        side: Side,
        price: Price,
        volume: int,
        paid: Price,
        closer: SeqNo,
    ) -> (BookModel, Seq<Order>)
        decreases self.queue(side, price).len(),
    {
        let queue = self.queue(side, price);
        let first = self.orders[queue[0]];
        if volume <= 0 || !self.valid() || !self.levels(side).contains_key(price) {
            (self, Seq::empty())
        } else if first.remaining() <= volume {
            proof {
                self.lemma_remove_first(side, price);
            }
            let rest = self.remove(queue[0]).reduce(
                side,
                price,
                volume - first.remaining(),
                paid,
                closer,
            );
            (rest.0, seq![first.executed(self.fills[queue[0]], paid, closer)] + rest.1)
        } else {
            (self.fill(queue[0], paid, volume), Seq::empty())
        }
    }

    /// The terms on which the two top orders trade: as much as both have left, at the price
    /// of the earlier one, the maker.
    pub open spec fn next_trade(self) -> TradeTerms {
        let bid = self.top(Side::Bid);
        let ask = self.top(Side::Ask);
        TradeTerms {
            id: 0,
            bid_order_id: bid.id,
            ask_order_id: ask.id,
            is_bid_maker: bid.id < ask.id,
            price: if bid.id < ask.id {
                bid.price
            } else {
                ask.price
            },
            volume: (if bid.remaining() < ask.remaining() {
                bid.remaining()
            } else {
                ask.remaining()
            }) as u64,
        }
    }

    /// The id of the maker of the next trade, which closes the orders that the trade fills.
    pub open spec fn next_closer(self) -> SeqNo {
        if self.next_trade().is_bid_maker {
            self.next_trade().bid_order_id
        } else {
            self.next_trade().ask_order_id
        }
    }

    /// The book after the two top orders have traded, the bid side settled first.
    pub open spec fn trade(self) -> Outcome {
        let terms = self.next_trade();
        let closer = self.next_closer();
        let bid = self.reduce(
            Side::Bid,
            self.best(Side::Bid),
            terms.volume as int,
            terms.price,
            closer,
        );
        let ask = bid.0.reduce(
            Side::Ask,
            self.best(Side::Ask),
            terms.volume as int,
            terms.price,
            closer,
        );
        Outcome { book: ask.0, trades: seq![terms], closed: bid.1 + ask.1 }
    }

    /// The book after trades have been made for as long as there are two orders to make one.
    pub open spec fn matched(self) -> Outcome
        decreases self.orders.len(),
    {
        if self.tradable() {
            proof {
                self.lemma_trade();
            }
            let first = self.trade();
            let rest = first.book.matched();
            Outcome {
                book: rest.book,
                trades: first.trades + rest.trades,
                closed: first.closed + rest.closed,
            }
        } else {
            Outcome { book: self, trades: Seq::empty(), closed: Seq::empty() }
        }
    }

    /// Every order has volume left to trade.
    pub open spec fn all_live(self) -> bool {
        forall|id: Id| #[trigger] self.orders.contains_key(id) ==> self.orders[id].remaining() > 0
    }

    /// Matching comes to an end: no order without volume stands first while prices cross.
    pub open spec fn matchable(self) -> bool {
        self.all_live() || !self.matched().book.crossing()
    }
}

impl BookModel {
    /// Taking the earliest order out of a level leaves the rest of its queue.
    pub proof fn lemma_remove_first(self, side: Side, price: Price)
        requires
            self.valid(),
            self.levels(side).contains_key(price),
        ensures
            ({
                let queue = self.queue(side, price);
                let after = self.remove(queue[0]);
                &&& self.orders.contains_key(queue[0])
                &&& after.queue(side, price) == queue.drop_first()
                &&& after.queue(side, price).len() < queue.len()
                &&& after.orders.len() < self.orders.len()
            }),
    {
        let queue = self.queue(side, price);
        assert(self.level_valid(side, price));
        lemma_index_of(queue, 0);
        assert(self.orders.contains_key(queue[0]));
        assert(queue.remove(0) =~= queue.drop_first());
    }

    /// What taking an order out changes: its own entry, and its own queue.
    pub proof fn lemma_remove(self, id: Id)
        requires
            self.valid(),
            self.orders.contains_key(id),
        ensures
            self.remove(id).valid(),
            self.remove(id).orders.len() == self.orders.len() - 1,
            ({
                let order = self.orders[id];
                let queue = self.queue(order.side, order.price);
                &&& self.levels(order.side).contains_key(order.price)
                &&& 0 <= queue.index_of(id) < queue.len()
                &&& queue[queue.index_of(id)] == id
                &&& self.remove(id).queue(order.side, order.price) == queue.remove(
                    queue.index_of(id),
                )
                &&& self.remove(id).volume(order.side, order.price) == self.volume(
                    order.side,
                    order.price,
                ) - order.remaining()
                &&& forall|side: Side, price: Price|
                    side != order.side || price != order.price ==> {
                        &&& #[trigger] self.remove(id).queue(side, price) == self.queue(side, price)
                        &&& self.remove(id).queue_orders(side, price) == self.queue_orders(
                            side,
                            price,
                        )
                    }
            }),
    {
        let after = self.remove(id);
        let order = self.orders[id];
        let queue = self.queue(order.side, order.price);
        assert(self.order_valid(id));
        assert(self.levels(order.side).contains_key(order.price));
        assert(self.level_valid(order.side, order.price));
        let at = queue.index_of(id);
        let rest = queue.remove(at);
        assert(after.queue(order.side, order.price) =~= rest);
        assert forall|i: int| 0 <= i < rest.len() implies #[trigger] rest[i] != id by {
            let j = if i < at {
                i
            } else {
                i + 1
            };
            assert(rest[i] == queue[j]);
        }
        assert(after.queue_orders(order.side, order.price) =~= self.queue_orders(
            order.side,
            order.price,
        ).remove(at));
        lemma_open_volume_remove(self.queue_orders(order.side, order.price), at);
        assert forall|side: Side, price: Price|
            side != order.side || price != order.price implies {
            &&& #[trigger] after.queue(side, price) == self.queue(side, price)
            &&& after.queue_orders(side, price) == self.queue_orders(side, price)
        } by {
            if self.levels(side).contains_key(price) {
                assert(self.level_valid(side, price));
                assert(after.queue_orders(side, price) =~= self.queue_orders(side, price));
            } else {
                assert(after.queue_orders(side, price) =~= self.queue_orders(side, price));
            }
        }
        assert forall|other: Id| #[trigger] after.orders.contains_key(other) implies after.order_valid(
            other,
        ) by {
            assert(self.order_valid(other));
            let o = self.orders[other];
            if o.side == order.side && o.price == order.price {
                let j = queue.index_of(other);
                assert(queue[j] == other);
                assert(rest[if j < at { j } else { j - 1 }] == other);
            } else {
                assert(after.queue(o.side, o.price) == self.queue(o.side, o.price));
            }
        }
        assert forall|side: Side, price: Price| #[trigger]
            after.levels(side).contains_key(price) implies after.level_valid(side, price) by {
            assert(self.levels(side).contains_key(price));
            assert(self.level_valid(side, price));
            if side == order.side && price == order.price {
                assert forall|i: int| 0 <= i < rest.len() implies {
                    &&& after.orders.contains_key(#[trigger] rest[i])
                    &&& after.orders[rest[i]].side == side
                    &&& after.orders[rest[i]].price == price
                } by {
                    assert(rest[i] == queue[if i < at { i } else { i + 1 }]);
                }
            } else {
                let q = self.queue(side, price);
                assert(after.queue(side, price) == q);
                assert forall|i: int| 0 <= i < q.len() implies #[trigger] q[i] != id by {
                    assert(self.orders[q[i]].side == side);
                }
            }
        }
        assert(after.bids.dom().finite());
        assert(after.asks.dom().finite());
        assert(after.fills.dom() =~= after.orders.dom());
    }

    /// What filling an order in part changes: its own entry.
    pub proof fn lemma_fill(self, id: Id, paid: Price, volume: int)
        requires
            self.valid(),
            self.orders.contains_key(id),
            0 <= volume <= self.orders[id].remaining(),
        ensures
            self.fill(id, paid, volume).valid(),
            self.fill(id, paid, volume).orders.len() == self.orders.len(),
            self.fill(id, paid, volume).orders[id].remaining() == self.orders[id].remaining() - volume,
            ({
                let order = self.orders[id];
                &&& self.fill(id, paid, volume).volume(order.side, order.price) == self.volume(
                    order.side,
                    order.price,
                ) - volume
                &&& forall|side: Side, price: Price|
                    side != order.side || price != order.price ==> #[trigger] self.fill(
                        id,
                        paid,
                        volume,
                    ).queue_orders(side, price) == self.queue_orders(side, price)
            }),
    {
        let after = self.fill(id, paid, volume);
        let order = self.orders[id];
        let queue = self.queue(order.side, order.price);
        assert(self.order_valid(id));
        self.fills[id].lemma_plus_fits(order, paid, volume);
        assert(after.fills.dom() =~= self.fills.dom());
        assert(self.levels(order.side).contains_key(order.price));
        assert(self.level_valid(order.side, order.price));
        let at = queue.index_of(id);
        assert(after.queue_orders(order.side, order.price) =~= self.queue_orders(
            order.side,
            order.price,
        ).update(at, after.orders[id]));
        lemma_open_volume_update(
            self.queue_orders(order.side, order.price),
            at,
            after.orders[id],
        );
        assert forall|side: Side, price: Price|
            side != order.side || price != order.price implies #[trigger] after.queue_orders(
            side,
            price,
        ) == self.queue_orders(side, price) by {
            if self.levels(side).contains_key(price) {
                assert(self.level_valid(side, price));
            }
            assert(after.queue_orders(side, price) =~= self.queue_orders(side, price));
        }
        assert(after.orders.dom() =~= self.orders.dom());
        assert forall|other: Id| #[trigger] after.orders.contains_key(other) implies after.order_valid(
            other,
        ) by {
            assert(self.order_valid(other));
        }
        assert forall|side: Side, price: Price| #[trigger]
            after.levels(side).contains_key(price) implies after.level_valid(side, price) by {
            assert(self.level_valid(side, price));
            assert(after.queue(side, price) == self.queue(side, price));
            assert(after.volume(side, price) <= self.volume(side, price));
        }
    }

    /// What adding an order changes: its own entry, and its own queue.
    pub proof fn lemma_add(self, order: Order)
        requires
            self.valid(),
            !self.orders.contains_key(order.id),
            self.accepts(order),
        ensures
            self.add(order).valid(),
            self.add(order).volume(order.side, order.price) == self.volume(order.side, order.price)
                + order.remaining(),
            forall|side: Side, price: Price|
                side != order.side || price != order.price ==> #[trigger] self.add(
                    order,
                ).queue_orders(side, price) == self.queue_orders(side, price),
    {
        let after = self.add(order);
        let queue = self.queue(order.side, order.price);
        let longer = queue.push(order.id);
        Fills::lemma_of_fits(order);
        assert(after.fills.dom() =~= after.orders.dom());
        if self.levels(order.side).contains_key(order.price) {
            assert(self.level_valid(order.side, order.price));
        }
        assert(after.queue(order.side, order.price) == longer);
        assert forall|i: int| 0 <= i < queue.len() implies #[trigger] queue[i] != order.id
            && self.orders.contains_key(queue[i]) by {}
        assert(after.queue_orders(order.side, order.price) =~= self.queue_orders(
            order.side,
            order.price,
        ).push(order));
        lemma_open_volume_push(self.queue_orders(order.side, order.price), order);
        assert forall|side: Side, price: Price|
            side != order.side || price != order.price implies #[trigger] after.queue_orders(
            side,
            price,
        ) == self.queue_orders(side, price) by {
            assert(after.queue(side, price) == self.queue(side, price));
            if self.levels(side).contains_key(price) {
                assert(self.level_valid(side, price));
            }
            assert(after.queue_orders(side, price) =~= self.queue_orders(side, price));
        }
        assert forall|other: Id| #[trigger] after.orders.contains_key(other) implies after.order_valid(
            other,
        ) by {
            if other == order.id {
                assert(longer[queue.len() as int] == other);
            } else {
                assert(self.order_valid(other));
                let o = self.orders[other];
                if o.side == order.side && o.price == order.price {
                    assert(longer[queue.index_of(other)] == other);
                } else {
                    assert(after.queue(o.side, o.price) == self.queue(o.side, o.price));
                }
            }
        }
        assert forall|side: Side, price: Price| #[trigger]
            after.levels(side).contains_key(price) implies after.level_valid(side, price) by {
            if side == order.side && price == order.price {
                assert forall|i: int| 0 <= i < longer.len() implies {
                    &&& after.orders.contains_key(#[trigger] longer[i])
                    &&& after.orders[longer[i]].side == side
                    &&& after.orders[longer[i]].price == price
                } by {
                    if i < queue.len() {
                        assert(longer[i] == queue[i]);
                    }
                }
            } else {
                assert(self.levels(side).contains_key(price));
                assert(self.level_valid(side, price));
                assert(after.queue(side, price) == self.queue(side, price));
                assert(after.queue_orders(side, price) == self.queue_orders(side, price));
            }
        }
        assert(after.bids.dom().finite());
        assert(after.asks.dom().finite());
    }

    /// Executing no more than the earliest order of a level has left closes that order, or
    /// fills it in part.
    pub proof fn lemma_reduce_first(
        self,
        side: Side,
        price: Price,
        volume: int,
        paid: Price,
        closer: SeqNo,
    )
        requires
            self.valid(),
            self.levels(side).contains_key(price),
            0 < volume <= self.orders[self.queue(side, price)[0]].remaining(),
        ensures
            ({
                let first = self.orders[self.queue(side, price)[0]];
                self.reduce(side, price, volume, paid, closer) == if first.remaining() == volume {
                    (
                        self.remove(first.id),
                        seq![first.executed(self.fills[first.id], paid, closer)],
                    )
                } else {
                    (self.fill(first.id, paid, volume), Seq::empty())
                }
            }),
    {
        let queue = self.queue(side, price);
        assert(self.level_valid(side, price));
        assert(self.orders.contains_key(queue[0]));
        assert(self.order_valid(queue[0]));
        let first = self.orders[queue[0]];
        if first.remaining() == volume {
            let rest = self.remove(queue[0]);
            assert(rest.reduce(side, price, 0, paid, closer) == (rest, Seq::<Order>::empty()));
            let closed = first.executed(self.fills[first.id], paid, closer);
            assert(seq![closed] + Seq::<Order>::empty() =~= seq![closed]);
        }
    }

    /// The two top orders of a book with crossing prices are two different open orders.
    pub proof fn lemma_top(self)
        requires
            self.valid(),
            self.crossing(),
        ensures
            forall|side: Side|
                {
                    let top = #[trigger] self.top(side);
                    let queue = self.queue(side, self.best(side));
                    &&& self.levels(side).contains_key(self.best(side))
                    &&& queue.len() > 0
                    &&& queue[0] == top.id
                    &&& self.orders.contains_key(top.id)
                    &&& self.orders[top.id] == top
                    &&& top.side == side
                    &&& top.price == self.best(side)
                    &&& top.executed_volume <= top.volume
                },
            self.top(Side::Bid).id != self.top(Side::Ask).id,
    {
        assert forall|side: Side|
            {
                let top = #[trigger] self.top(side);
                let queue = self.queue(side, self.best(side));
                &&& self.levels(side).contains_key(self.best(side))
                &&& queue.len() > 0
                &&& queue[0] == top.id
                &&& self.orders.contains_key(top.id)
                &&& self.orders[top.id] == top
                &&& top.side == side
                &&& top.price == self.best(side)
                &&& top.executed_volume <= top.volume
            } by {
            assert(self.levels(side).contains_key(self.best(side)));
            assert(self.level_valid(side, self.best(side)));
            let queue = self.queue(side, self.best(side));
            assert(self.orders.contains_key(queue[0]));
            assert(self.order_valid(queue[0]));
        }
    }

    /// A trade keeps the book valid, and closes at least one of the two orders.
    pub proof fn lemma_trade(self)
        requires
            self.tradable(),
        ensures
            self.trade().book.valid(),
            self.trade().book.orders.len() < self.orders.len(),
    {
        self.lemma_top();
        let bid = self.top(Side::Bid);
        let ask = self.top(Side::Ask);
        let volume = self.next_trade().volume as int;
        let paid = self.next_trade().price;
        let closer = self.next_closer();
        self.lemma_reduce_first(Side::Bid, self.best(Side::Bid), volume, paid, closer);
        if bid.remaining() == volume {
            self.lemma_remove(bid.id);
        } else {
            self.lemma_fill(bid.id, paid, volume);
        }
        let mid = self.reduce(Side::Bid, self.best(Side::Bid), volume, paid, closer).0;
        let price = self.best(Side::Ask);
        assert(mid.queue(Side::Ask, price) == self.queue(Side::Ask, price));
        assert(mid.levels(Side::Ask).contains_key(price));
        assert(mid.orders[ask.id] == ask);
        mid.lemma_reduce_first(Side::Ask, price, volume, paid, closer);
        if ask.remaining() == volume {
            mid.lemma_remove(ask.id);
        } else {
            mid.lemma_fill(ask.id, paid, volume);
        }
    }

    /// Restoring one order more.
    pub proof fn lemma_restored_step(self, orders: Seq<Order>, i: int)
        requires
            0 <= i < orders.len(),
        ensures
            ({
                let before = self.restored(orders.take(i));
                self.restored(orders.take(i + 1)) == if before.restores(orders[i]) {
                    before.add(orders[i])
                } else {
                    before
                }
            }),
    {
        assert(orders.take(i + 1).drop_last() =~= orders.take(i));
        assert(orders.take(i + 1).last() == orders[i]);
    }

    /// Restoring the same orders once more changes nothing.
    pub proof fn law_restoring_is_idempotent(self, orders: Seq<Order>)
        ensures
            self.restored(orders).restored(orders) == self.restored(orders),
    {
        self.lemma_restored_ids(orders);
        self.restored(orders).lemma_nothing_to_restore(orders);
    }

    /// Restoring adds the ids of the open orders among `orders`, and no others.
    pub proof fn lemma_restored_ids(self, orders: Seq<Order>)
        ensures
            forall|id: Id| #[trigger]
                self.restored(orders).orders.contains_key(id) <==> self.orders.contains_key(id)
                    || exists|i: int|
                    0 <= i < orders.len() && (#[trigger] orders[i]).closed_by is None
                        && orders[i].id == id,
        decreases orders.len(),
    {
        if orders.len() > 0 {
            let front = orders.drop_last();
            let last = orders.last();
            let before = self.restored(front);
            let after = self.restored(orders);
            self.lemma_restored_ids(front);
            assert(orders[orders.len() - 1] == last);
            assert(before.add(last).orders == before.orders.insert(last.id, last));
            assert(after.orders == if last.closed_by is None && !before.orders.contains_key(last.id) {
                before.orders.insert(last.id, last)
            } else {
                before.orders
            });
            assert forall|id: Id| #[trigger] after.orders.contains_key(id) <==> (
            self.orders.contains_key(id) || exists|i: int|
                0 <= i < orders.len() && (#[trigger] orders[i]).closed_by is None && orders[i].id
                    == id) by {
                assert(before.orders.contains_key(id) <==> (self.orders.contains_key(id)
                    || exists|i: int|
                    0 <= i < front.len() && (#[trigger] front[i]).closed_by is None && front[i].id
                        == id));
                if before.orders.contains_key(id) && !self.orders.contains_key(id) {
                    let i = choose|i: int|
                        0 <= i < front.len() && (#[trigger] front[i]).closed_by is None
                            && front[i].id == id;
                    assert(orders[i] == front[i]);
                }
                if exists|i: int|
                    0 <= i < orders.len() && (#[trigger] orders[i]).closed_by is None
                        && orders[i].id == id {
                    let i = choose|i: int|
                        0 <= i < orders.len() && (#[trigger] orders[i]).closed_by is None
                            && orders[i].id == id;
                    if i < front.len() {
                        assert(front[i] == orders[i]);
                        assert(before.orders.contains_key(id));
                    } else {
                        assert(last.id == id && last.closed_by is None);
                        assert(after.orders.contains_key(id));
                    }
                }
            }
        }
    }

    /// Where the open orders among `orders` are all on the book, restoring adds nothing.
    pub proof fn lemma_nothing_to_restore(self, orders: Seq<Order>)
        requires
            forall|i: int|
                0 <= i < orders.len() && (#[trigger] orders[i]).closed_by is None
                    ==> self.orders.contains_key(orders[i].id),
        ensures
            self.restored(orders) == self,
        decreases orders.len(),
    {
        if orders.len() > 0 {
            let front = orders.drop_last();
            assert forall|i: int|
                0 <= i < front.len() && (#[trigger] front[i]).closed_by is None implies self.orders.contains_key(
            front[i].id) by {
                assert(front[i] == orders[i]);
            }
            self.lemma_nothing_to_restore(front);
            assert(orders[orders.len() - 1] == orders.last());
        }
    }

    /// What a trade does to the queues: an order that it fills completely leaves its queue,
    /// which it was first in; nothing else changes.
    pub proof fn lemma_trade_queues(self)
        requires
            self.tradable(),
        ensures
            forall|side: Side, price: Price|
                #[trigger] self.trade().book.queue(side, price) == if price == self.best(side)
                    && self.top(side).remaining() == self.next_trade().volume {
                    self.queue(side, price).drop_first()
                } else {
                    self.queue(side, price)
                },
    {
        self.lemma_top();
        let bid = self.top(Side::Bid);
        let ask = self.top(Side::Ask);
        let bid_price = self.best(Side::Bid);
        let ask_price = self.best(Side::Ask);
        let volume = self.next_trade().volume as int;
        let paid = self.next_trade().price;
        let closer = self.next_closer();
        self.lemma_reduce_first(Side::Bid, bid_price, volume, paid, closer);
        self.lemma_remove_first(Side::Bid, bid_price);
        if bid.remaining() == volume {
            self.lemma_remove(bid.id);
        } else {
            self.lemma_fill(bid.id, paid, volume);
        }
        let mid = self.reduce(Side::Bid, bid_price, volume, paid, closer).0;
        assert(mid.queue(Side::Ask, ask_price) == self.queue(Side::Ask, ask_price));
        assert(mid.levels(Side::Ask).contains_key(ask_price));
        assert(mid.orders[ask.id] == ask);
        mid.lemma_reduce_first(Side::Ask, ask_price, volume, paid, closer);
        mid.lemma_remove_first(Side::Ask, ask_price);
        if ask.remaining() == volume {
            mid.lemma_remove(ask.id);
        }
        let after = self.trade().book;
        assert forall|side: Side, price: Price| #[trigger] after.queue(side, price) == if price
            == self.best(side) && self.top(side).remaining() == self.next_trade().volume {
            self.queue(side, price).drop_first()
        } else {
            self.queue(side, price)
        } by {
            assert(mid.queue(side, price) == if side == Side::Bid && price == bid_price
                && bid.remaining() == volume {
                self.queue(side, price).drop_first()
            } else {
                self.queue(side, price)
            });
        }
    }

    /// `a` comes before `b`: both are open on the same side, and `a` has the better price, or
    /// the same price and came first.
    pub open spec fn ahead(self, a: Id, b: Id) -> bool {
        let first = self.orders[a];
        let second = self.orders[b];
        let queue = self.queue(first.side, first.price);
        &&& self.orders.contains_key(a)
        &&& self.orders.contains_key(b)
        &&& first.side == second.side
        &&& better(first.side, first.price, second.price) || (first.price == second.price && exists|
            i: int,
            j: int,
        |
            0 <= i < j < queue.len() && #[trigger] queue[i] == a && #[trigger] queue[j] == b)
    }

    /// Price-time priority: an order trades only once every order that comes before it has been
    /// executed completely; every trade of the one comes before every trade of the other.
    pub proof fn law_price_time_priority(self, a: Id, b: Id)
        requires
            self.valid(),
            self.ahead(a, b),
            traded_volume(self.matched().trades, b) > 0,
        ensures
            !self.matched().book.orders.contains_key(a),
            traded_volume(self.matched().trades, a) == self.orders[a].remaining(),
            forall|i: int, j: int|
                {
                    &&& 0 <= i < self.matched().trades.len()
                    &&& 0 <= j < self.matched().trades.len()
                    &&& names(#[trigger] self.matched().trades[i], a)
                    &&& names(#[trigger] self.matched().trades[j], b)
                } ==> i < j,
        decreases self.orders.len(),
    {
        self.law_matching_accounts_for_volume(a);
        if self.tradable() {
            self.lemma_trade();
            self.lemma_trade_effect();
            self.lemma_trade_queues();
            self.lemma_top();
            let first = self.orders[a];
            let second = self.orders[b];
            let side = first.side;
            let price = first.price;
            let top = self.top(side);
            let next = self.trade().book;
            let queue = self.queue(side, price);
            assert(self.order_valid(a) && self.order_valid(b));
            assert(self.levels(side).contains_key(price));
            assert(self.levels(side).contains_key(second.price));
            assert(self.level_valid(side, price));
            // The second order is not the first of its side.
            assert(top.id != b) by {
                if top.id == b {
                    assert(price == self.best(side));
                    assert(queue[0] == b);
                }
            }
            assert(self.top(Side::Bid).side == Side::Bid && self.top(Side::Ask).side == Side::Ask);
            assert(b != self.top(Side::Bid).id && b != self.top(Side::Ask).id);
            assert(self.matched().trades.drop_first() =~= next.matched().trades);
            assert(share(self.next_trade(), b) == 0);
            assert(self.trade().book.orders.contains_key(b) == self.orders.contains_key(b));
            assert(next.orders[b] == second);
            if next.orders.contains_key(a) {
                assert(next.orders[a].side == side && next.orders[a].price == price);
                if first.price == second.price {
                    let (i, j) = choose|i: int, j: int|
                        0 <= i < j < queue.len() && #[trigger] queue[i] == a && #[trigger] queue[j]
                            == b;
                    let shorter = next.queue(side, price);
                    if shorter != queue {
                        assert(shorter == queue.drop_first());
                        assert(queue[0] == top.id);
                        assert(i != 0);
                        assert(shorter[i - 1] == a && shorter[j - 1] == b);
                    } else {
                        assert(shorter[i] == a && shorter[j] == b);
                    }
                }
                assert(next.ahead(a, b));
                next.law_price_time_priority(a, b);
            } else {
                next.lemma_never_open(a);
            }
            let trades = self.matched().trades;
            let rest = next.matched().trades;
            assert(trades == seq![self.next_trade()] + rest);
            assert forall|i: int, j: int|
                {
                    &&& 0 <= i < trades.len()
                    &&& 0 <= j < trades.len()
                    &&& names(#[trigger] trades[i], a)
                    &&& names(#[trigger] trades[j], b)
                } implies i < j by {
                assert(trades[0] == self.next_trade());
                if i > 0 {
                    assert(trades[i] == rest[i - 1] && trades[j] == rest[j - 1]);
                }
            }
        }
    }

    /// Canceling an order right after adding it leaves the book as it was.
    pub proof fn law_cancel_undoes_add(self, order: Order)
        requires
            self.valid(),
            !self.orders.contains_key(order.id),
        ensures
            self.add(order).remove(order.id) == self,
    {
        let added = self.add(order);
        let queue = self.queue(order.side, order.price);
        let longer = queue.push(order.id);
        if self.levels(order.side).contains_key(order.price) {
            assert(self.level_valid(order.side, order.price));
        }
        assert(added.queue(order.side, order.price) == longer);
        assert forall|i: int| 0 <= i < queue.len() implies #[trigger] queue[i] != order.id by {
            assert(self.orders.contains_key(queue[i]));
        }
        assert(longer[queue.len() as int] == order.id);
        let at = longer.index_of(order.id);
        assert(longer.contains(order.id));
        assert(longer[at] == order.id);
        assert(at == queue.len());
        assert(longer.remove(at) =~= queue);
        let back = added.remove(order.id);
        assert(back.orders =~= self.orders);
        assert(back.fills =~= self.fills);
        assert(back.levels(order.side) =~= self.levels(order.side));
        assert(back =~= self);
    }

    /// A side has one best price.
    pub proof fn lemma_best(self, side: Side, price: Price)
        requires
            self.is_best(side, price),
        ensures
            self.best(side) == price,
            self.is_best(side, self.best(side)),
    {
        let best = self.best(side);
        assert(self.is_best(side, best));
        assert(self.levels(side).contains_key(best));
    }

    /// Where there is no level there is no volume; the volume of a level is not negative, and no
    /// order in it has more left.
    pub proof fn lemma_volume(self, side: Side, price: Price)
        requires
            self.valid(),
        ensures
            self.volume(side, price) >= 0,
            !self.levels(side).contains_key(price) ==> self.volume(side, price) == 0,
            self.levels(side).contains_key(price) ==> {
                let first = self.orders[self.queue(side, price)[0]];
                &&& self.orders.contains_key(self.queue(side, price)[0])
                &&& first.id == self.queue(side, price)[0]
                &&& first.side == side
                &&& first.price == price
                &&& 0 <= first.remaining() <= self.volume(side, price)
            },
    {
        let orders = self.queue_orders(side, price);
        if self.levels(side).contains_key(price) {
            assert(self.level_valid(side, price));
            let queue = self.queue(side, price);
            assert forall|i: int| 0 <= i < orders.len() implies (#[trigger] orders[i]).executed_volume
                <= orders[i].volume by {
                assert(self.orders.contains_key(queue[i]));
                assert(self.order_valid(queue[i]));
            }
            lemma_open_volume_bounds(orders);
            assert(orders[0] == self.orders[queue[0]]);
            assert(self.order_valid(queue[0]));
        } else {
            assert(orders =~= Seq::empty());
        }
    }

    /// Both levels have the volume of the next trade, also once the bid side is settled.
    pub proof fn lemma_trade_volume(self)
        requires
            self.tradable(),
        ensures
            ({
                let volume = self.next_trade().volume as int;
                let paid = self.next_trade().price;
                let closer = self.next_closer();
                let mid = self.reduce(Side::Bid, self.best(Side::Bid), volume, paid, closer).0;
                &&& 0 < volume <= self.volume(Side::Bid, self.best(Side::Bid))
                &&& volume <= mid.volume(Side::Ask, self.best(Side::Ask))
            }),
    {
        self.lemma_top();
        let bid = self.top(Side::Bid);
        let ask = self.top(Side::Ask);
        let volume = self.next_trade().volume as int;
        let paid = self.next_trade().price;
        let closer = self.next_closer();
        self.lemma_volume(Side::Bid, self.best(Side::Bid));
        self.lemma_volume(Side::Ask, self.best(Side::Ask));
        self.lemma_reduce_first(Side::Bid, self.best(Side::Bid), volume, paid, closer);
        let mid = self.reduce(Side::Bid, self.best(Side::Bid), volume, paid, closer).0;
        if bid.remaining() == volume {
            self.lemma_remove(bid.id);
            assert(mid.queue(Side::Ask, self.best(Side::Ask)) == self.queue(
                Side::Ask,
                self.best(Side::Ask),
            ));
        } else {
            self.lemma_fill(bid.id, paid, volume);
        }
        assert(mid.queue_orders(Side::Ask, self.best(Side::Ask)) == self.queue_orders(
            Side::Ask,
            self.best(Side::Ask),
        ));
    }

    /// What a trade does to the orders: one that it fills completely is closed and leaves the
    /// book, the other one stays and is filled in part; no other order changes.
    pub proof fn lemma_trade_effect(self)
        requires
            self.tradable(),
        ensures
            ({
                let bid = self.top(Side::Bid);
                let ask = self.top(Side::Ask);
                let terms = self.next_trade();
                let after = self.trade();
                &&& 0 < terms.volume <= bid.remaining()
                &&& terms.volume <= ask.remaining()
                &&& after.trades == seq![terms]
                &&& after.closed == self.settled(bid, terms.volume as int).1 + self.settled(
                    ask,
                    terms.volume as int,
                ).1
                &&& forall|id: Id|
                    id != bid.id && id != ask.id ==> {
                        &&& #[trigger] after.book.orders.contains_key(id)
                            == self.orders.contains_key(id)
                        &&& after.book.orders[id] == self.orders[id]
                        &&& after.book.fills[id] == self.fills[id]
                    }
                &&& forall|side: Side| {
                    let top = #[trigger] self.top(side);
                    match self.settled(top, terms.volume as int).0 {
                        Some(order) => {
                            &&& after.book.orders.contains_key(top.id)
                            &&& after.book.orders[top.id] == order
                            &&& after.book.fills[top.id] == self.fills[top.id].plus(
                                terms.price,
                                terms.volume as int,
                            )
                        },
                        None => !after.book.orders.contains_key(top.id),
                    }
                }
            }),
    {
        self.lemma_top();
        let bid = self.top(Side::Bid);
        let ask = self.top(Side::Ask);
        let volume = self.next_trade().volume as int;
        let paid = self.next_trade().price;
        let closer = self.next_closer();
        self.lemma_reduce_first(Side::Bid, self.best(Side::Bid), volume, paid, closer);
        if bid.remaining() == volume {
            self.lemma_remove(bid.id);
        } else {
            self.lemma_fill(bid.id, paid, volume);
        }
        let mid = self.reduce(Side::Bid, self.best(Side::Bid), volume, paid, closer).0;
        let price = self.best(Side::Ask);
        assert(mid.queue(Side::Ask, price) == self.queue(Side::Ask, price));
        assert(mid.levels(Side::Ask).contains_key(price));
        assert(mid.orders[ask.id] == ask);
        mid.lemma_reduce_first(Side::Ask, price, volume, paid, closer);
    }

    /// What becomes of an order that the next trade fills by `volume`: it stays open, filled
    /// in part, or it is closed.
    pub open spec fn settled(self, order: Order, volume: int) -> (Option<Order>, Seq<Order>) {
        if order.remaining() == volume {
            (
                None,
                seq![
                    order.executed(
                        self.fills[order.id],
                        self.next_trade().price,
                        self.next_closer(),
                    ),
                ],
            )
        } else {
            (
                Some(order.filled(self.fills[order.id], self.next_trade().price, volume)),
                Seq::empty(),
            )
        }
    }

    /// Matching a book whose orders all have volume left to trade ends with no crossing prices,
    /// and every order that stays on the book still has volume left.
    pub proof fn law_matching_ends_uncrossed(self)
        requires
            self.valid(),
            self.all_live(),
        ensures
            !self.matched().book.crossing(),
            self.matched().book.all_live(),
        decreases self.orders.len(),
    {
        if self.tradable() {
            self.lemma_trade();
            self.lemma_trade_effect();
            self.lemma_top();
            let next = self.trade().book;
            assert forall|id: Id| #[trigger] next.orders.contains_key(id) implies next.orders[id].remaining()
                > 0 by {
                let bid = self.top(Side::Bid);
                let ask = self.top(Side::Ask);
                if id != bid.id && id != ask.id {
                    assert(self.orders.contains_key(id));
                }
            }
            next.law_matching_ends_uncrossed();
        } else if self.crossing() {
            self.lemma_top();
            assert(self.orders.contains_key(self.top(Side::Bid).id));
            assert(self.orders.contains_key(self.top(Side::Ask).id));
        }
    }

    /// Matching keeps the book valid.
    pub proof fn law_matching_keeps_valid(self)
        requires
            self.valid(),
        ensures
            self.matched().book.valid(),
        decreases self.orders.len(),
    {
        if self.tradable() {
            self.lemma_trade();
            self.trade().book.law_matching_keeps_valid();
        }
    }

    /// Every trade is between a bid and an ask that were open, for some volume, at the limit
    /// price of the one with the lower id, the maker; neither pays more nor gets less than its
    /// limit.
    pub proof fn law_trades_respect_limits(self)
        requires
            self.valid(),
        ensures
            forall|i: int|
                0 <= i < self.matched().trades.len() ==> self.fair(
                    #[trigger] self.matched().trades[i],
                ),
        decreases self.orders.len(),
    {
        if self.tradable() {
            self.lemma_trade();
            self.lemma_trade_effect();
            self.lemma_top();
            let first = self.trade();
            let next = first.book;
            next.law_trades_respect_limits();
            let trades = self.matched().trades;
            assert(trades == first.trades + next.matched().trades);
            assert forall|i: int| 0 <= i < trades.len() implies self.fair(#[trigger] trades[i]) by {
                if i == 0 {
                    assert(trades[0] == self.next_trade());
                } else {
                    let t = next.matched().trades[i - 1];
                    assert(trades[i] == t);
                    assert(next.fair(t));
                    assert(next.orders.contains_key(t.bid_order_id));
                    assert(next.orders.contains_key(t.ask_order_id));
                }
            }
        }
    }

    /// A trade is between a bid and an ask of this book, for some volume, at the limit price
    /// of the one with the lower id, and within both limits.
    pub open spec fn fair(self, trade: TradeTerms) -> bool {
        let bid = self.orders[trade.bid_order_id];
        let ask = self.orders[trade.ask_order_id];
        &&& self.orders.contains_key(trade.bid_order_id)
        &&& self.orders.contains_key(trade.ask_order_id)
        &&& bid.side == Side::Bid
        &&& ask.side == Side::Ask
        &&& trade.volume > 0
        &&& trade.id == 0
        &&& trade.is_bid_maker == (trade.bid_order_id < trade.ask_order_id)
        &&& trade.price == if trade.is_bid_maker {
            bid.price
        } else {
            ask.price
        }
        &&& ask.price <= trade.price <= bid.price
    }

    /// The executions of an order, `trades` included.
    pub open spec fn fills_after(self, id: Id, trades: Seq<TradeTerms>) -> Fills {
        self.fills[id].more(traded_value(trades, id), traded_volume(trades, id))
    }

    /// An order of this book after its part in `trades`.
    pub open spec fn order_after(self, id: Id, trades: Seq<TradeTerms>) -> Order {
        self.orders[id].after(self.fills_after(id, trades), traded_volume(trades, id))
    }

    /// Matching accounts for every unit of volume: an order that stays open has executed just
    /// what its trades say, for what they say, and one that leaves the book had its whole rest
    /// traded and is, after these trades, among the closed orders.
    #[verifier::spinoff_prover]
    #[verifier::rlimit(60)]
    pub proof fn law_matching_accounts_for_volume(self, id: Id)
        requires
            self.valid(),
            self.orders.contains_key(id),
        ensures
            ({
                let out = self.matched();
                let order = self.orders[id];
                let traded = traded_volume(out.trades, id);
                let after = self.order_after(id, out.trades);
                &&& 0 <= traded <= order.remaining()
                &&& after.executed_volume == order.executed_volume + traded
                &&& if out.book.orders.contains_key(id) {
                    &&& out.book.orders[id] == after
                    &&& out.book.fills[id] == self.fills_after(id, out.trades)
                } else {
                    &&& traded == order.remaining()
                    &&& exists|closer: SeqNo|
                        out.closed.contains(#[trigger] after.closed_out(closer))
                }
            }),
        decreases self.orders.len(),
    {
        let order = self.orders[id];
        assert(self.order_valid(id));
        if self.tradable() {
            self.lemma_trade();
            self.lemma_trade_effect();
            self.lemma_top();
            let first = self.trade();
            let next = first.book;
            let bid = self.top(Side::Bid);
            let ask = self.top(Side::Ask);
            let terms = self.next_trade();
            let out = self.matched();
            let rest = next.matched();
            let after = self.order_after(id, out.trades);
            let part = share(terms, id);
            let value = traded_value(rest.trades, id);
            let volume = traded_volume(rest.trades, id);
            assert(out.trades.drop_first() =~= rest.trades);
            assert(out.trades[0] == terms);
            assert(traded_volume(out.trades, id) == part + volume);
            assert(traded_value(out.trades, id) == terms.price * part + value);
            let mid = order.filled(self.fills[id], terms.price, part);
            let sums = self.fills[id].plus(terms.price, part);
            assert(out.closed == first.closed + rest.closed);
            assert(id == bid.id ==> self.top(Side::Bid) == order);
            assert(id == ask.id ==> self.top(Side::Ask) == order);
            lemma_traded_bounds(rest.trades, id);
            order.lemma_after_filled(self.fills[id], terms.price, part, value, volume);
            if next.orders.contains_key(id) {
                assert(next.orders[id] == mid && next.fills[id] == sums);
                next.law_matching_accounts_for_volume(id);
                assert(next.order_after(id, rest.trades) == after);
                if !out.book.orders.contains_key(id) {
                    let closer = choose|closer: SeqNo|
                        rest.closed.contains(#[trigger] after.closed_out(closer));
                    lemma_among_later(first.closed, rest.closed, after.closed_out(closer));
                    assert(out.closed.contains(after.closed_out(closer)));
                }
            } else {
                next.lemma_never_open(id);
                assert(after == mid);
                let closer = self.next_closer();
                let at: int = if id == bid.id {
                    0
                } else {
                    self.settled(bid, terms.volume as int).1.len() as int
                };
                assert(first.closed[at] == order.executed(self.fills[id], terms.price, closer));
                assert(out.closed[at] == after.closed_out(closer));
                assert(out.closed.contains(after.closed_out(closer)));
            }
        }
    }

    /// The average execution price is exact: an order that trades has as its price what all of its
    /// executions cost, these trades and those before them, divided by their volume and rounded
    /// down to a tick; one that does not trade keeps the price it had, if any.
    pub proof fn law_average_price_is_exact(self, id: Id)
        requires
            self.valid(),
            self.orders.contains_key(id),
        ensures
            ({
                let trades = self.matched().trades;
                let after = self.order_after(id, trades);
                let value = self.fills[id].value + traded_value(trades, id);
                let volume = self.fills[id].volume + traded_volume(trades, id);
                if traded_volume(trades, id) == 0 {
                    after.executed_price == self.orders[id].executed_price
                } else {
                    &&& volume > 0
                    &&& after.executed_price matches Some(price)
                    &&& price == value / volume
                    &&& price * volume <= value < (price + 1) * volume
                }
            }),
    {
        let trades = self.matched().trades;
        assert(self.order_valid(id));
        self.law_matching_accounts_for_volume(id);
        assert forall|i: int| 0 <= i < trades.len() && share(#[trigger] trades[i], id)
            > 0 implies 0 <= trades[i].price <= u64::MAX by {}
        lemma_value_between(trades, id, 0, u64::MAX);
        self.fills[id].lemma_more_between(
            traded_value(trades, id),
            traded_volume(trades, id),
            0,
            u64::MAX,
        );
        if traded_volume(trades, id) > 0 {
            self.fills_after(id, trades).lemma_average(0, u64::MAX);
        }
    }

    /// The average execution price of an order that trades lies between the lowest and the highest
    /// price of its executions.
    pub proof fn law_average_price_is_between(self, id: Id, low: Price, high: Price)
        requires
            self.valid(),
            self.orders.contains_key(id),
            self.fills[id].between(low, high),
            forall|i: int|
                0 <= i < self.matched().trades.len() && share(
                    #[trigger] self.matched().trades[i],
                    id,
                ) > 0 ==> low <= self.matched().trades[i].price <= high,
        ensures
            ({
                let trades = self.matched().trades;
                let after = self.order_after(id, trades);
                &&& self.fills_after(id, trades).between(low, high)
                &&& traded_volume(trades, id) > 0 ==> {
                    &&& after.executed_price matches Some(price)
                    &&& low <= price <= high
                }
            }),
    {
        let trades = self.matched().trades;
        self.law_matching_accounts_for_volume(id);
        lemma_value_between(trades, id, low, high);
        self.fills[id].lemma_more_between(
            traded_value(trades, id),
            traded_volume(trades, id),
            low,
            high,
        );
        if traded_volume(trades, id) > 0 {
            self.fills_after(id, trades).lemma_average(low, high);
        }
    }

    /// The executions of an order were within its limit, and so is its average price.
    pub open spec fn within_limit(self, id: Id) -> bool {
        let order = self.orders[id];
        match order.side {
            Side::Bid => {
                &&& self.fills[id].between(0, order.price)
                &&& order.executed_price matches Some(price) ==> price <= order.price
            },
            Side::Ask => {
                &&& self.fills[id].between(order.price, u64::MAX)
                &&& order.executed_price matches Some(price) ==> order.price <= price
            },
        }
    }

    /// No order pays more or gets less on average than its limit, and an order that stays open
    /// goes on that way; an order that has executed nothing begins that way.
    pub proof fn law_average_price_respects_limit(self, id: Id)
        requires
            self.valid(),
            self.orders.contains_key(id),
        ensures
            self.within_limit(id) ==> {
                let out = self.matched();
                let order = self.orders[id];
                let after = self.order_after(id, out.trades);
                &&& after.executed_price matches Some(price) ==> match order.side {
                    Side::Bid => price <= order.price,
                    Side::Ask => order.price <= price,
                }
                &&& out.book.orders.contains_key(id) ==> out.book.within_limit(id)
            },
            self.orders[id].executed_price is None && self.fills[id] == Fills::of(self.orders[id])
                ==> self.within_limit(id),
    {
        let order = self.orders[id];
        let trades = self.matched().trades;
        assert(order.price * 0 == 0);
        if self.within_limit(id) {
            self.law_trades_respect_limits();
            self.law_matching_accounts_for_volume(id);
            assert(self.order_valid(id));
            assert forall|i: int| 0 <= i < trades.len() && share(#[trigger] trades[i], id)
                > 0 implies {
                &&& order.side == Side::Bid ==> trades[i].price <= order.price
                &&& order.side == Side::Ask ==> order.price <= trades[i].price
            } by {
                assert(self.fair(trades[i]));
            }
            match order.side {
                Side::Bid => {
                    self.law_average_price_is_between(id, 0, order.price);
                },
                Side::Ask => {
                    self.law_average_price_is_between(id, order.price, u64::MAX);
                },
            }
        }
    }

    /// Matching closes only orders that were open, each once; a closed order is completely
    /// executed, no longer on the book, and closed by the maker's id, which is not above its
    /// own.
    pub proof fn law_closed_orders(self)
        requires
            self.valid(),
        ensures
            forall|i: int|
                0 <= i < self.matched().closed.len() ==> self.closes(
                    #[trigger] self.matched().closed[i],
                ) && !self.matched().book.orders.contains_key(self.matched().closed[i].id),
            forall|i: int, j: int|
                0 <= i < j < self.matched().closed.len() ==> (#[trigger] self.matched().closed[i]).id
                    != (#[trigger] self.matched().closed[j]).id,
        decreases self.orders.len(),
    {
        if self.tradable() {
            self.lemma_trade();
            self.lemma_trade_effect();
            self.lemma_top();
            let first = self.trade();
            let next = first.book;
            next.law_closed_orders();
            let rest = next.matched();
            let closed = self.matched().closed;
            assert(closed == first.closed + rest.closed);
            let bid = self.top(Side::Bid);
            let ask = self.top(Side::Ask);
            assert forall|i: int| 0 <= i < first.closed.len() implies {
                let o = #[trigger] first.closed[i];
                &&& self.closes(o)
                &&& !next.orders.contains_key(o.id)
            } by {
                assert(self.top(Side::Bid) == bid && self.top(Side::Ask) == ask);
            }
            assert forall|i: int| 0 <= i < closed.len() implies self.closes(#[trigger] closed[i])
                && !self.matched().book.orders.contains_key(closed[i].id) by {
                if i < first.closed.len() {
                    assert(closed[i] == first.closed[i]);
                    next.lemma_never_open(closed[i].id);
                } else {
                    let o = rest.closed[i - first.closed.len()];
                    assert(closed[i] == o);
                    assert(next.closes(o));
                    assert(next.orders.contains_key(o.id));
                }
            }
            assert forall|i: int, j: int| 0 <= i < j < closed.len() implies (#[trigger] closed[i]).id
                != (#[trigger] closed[j]).id by {
                if j < first.closed.len() {
                    assert(closed[i] == first.closed[i] && closed[j] == first.closed[j]);
                } else {
                    let o = rest.closed[j - first.closed.len()];
                    assert(closed[j] == o);
                    assert(next.closes(o));
                    if i < first.closed.len() {
                        assert(closed[i] == first.closed[i]);
                    } else {
                        assert(closed[i] == rest.closed[i - first.closed.len()]);
                    }
                }
            }
        }
    }

    /// `order` is an order of this book, completely executed, and closed by an id that is not
    /// above its own.
    pub open spec fn closes(self, order: Order) -> bool {
        &&& self.orders.contains_key(order.id)
        &&& order.closed_by is Some
        &&& order.closed_by->0 <= order.id
        &&& order == (Order {
            executed_price: order.executed_price,
            executed_volume: order.volume,
            status: Status::Executed,
            closed_by: order.closed_by,
            ..self.orders[order.id]
        })
    }

    /// An order that is not on the book has no part in its matching.
    pub proof fn lemma_never_open(self, id: Id)
        requires
            self.valid(),
            !self.orders.contains_key(id),
        ensures
            !self.matched().book.orders.contains_key(id),
            traded_volume(self.matched().trades, id) == 0,
            forall|i: int|
                0 <= i < self.matched().trades.len() ==> !names(
                    #[trigger] self.matched().trades[i],
                    id,
                ),
        decreases self.orders.len(),
    {
        if self.tradable() {
            self.lemma_trade();
            self.lemma_trade_effect();
            self.lemma_top();
            let next = self.trade().book;
            let trades = self.matched().trades;
            let rest = next.matched().trades;
            assert(id != self.top(Side::Bid).id && id != self.top(Side::Ask).id);
            next.lemma_never_open(id);
            assert(trades.drop_first() =~= rest);
            assert forall|i: int| 0 <= i < trades.len() implies !names(#[trigger] trades[i], id) by {
                if i > 0 {
                    assert(trades[i] == rest[i - 1]);
                }
            }
        }
    }

    /// The closed orders follow the trades: each was closed by its last trade, and is noted with
    /// the lower id of the two orders of that trade, the maker's; they stand in the order of these
    /// trades, and of the two that one trade closes the bid comes first. Every trade closes one
    /// order or two.
    pub proof fn law_closures_follow_trades(self)
        requires
            self.valid(),
        ensures
            forall|i: int|
                0 <= i < self.matched().closed.len() ==> closed_by_last_trade(
                    self.matched().trades,
                    #[trigger] self.matched().closed[i],
                ),
            forall|i: int, j: int|
                0 <= i < j < self.matched().closed.len() ==> closed_before(
                    self.matched().trades,
                    #[trigger] self.matched().closed[i],
                    #[trigger] self.matched().closed[j],
                ),
            self.matched().trades.len() <= self.matched().closed.len() <= 2
                * self.matched().trades.len(),
        decreases self.orders.len(),
    {
        if self.tradable() {
            self.lemma_trade();
            self.lemma_trade_effect();
            self.lemma_top();
            let first = self.trade();
            let next = first.book;
            let rest = next.matched();
            let out = self.matched();
            let n = first.closed.len() as int;
            next.law_closures_follow_trades();
            next.law_closed_orders();
            assert(out.trades == seq![self.next_trade()] + rest.trades);
            assert(out.closed == first.closed + rest.closed);
            assert(1 <= n <= 2);
            assert forall|o: Order| #[trigger] first.closed.contains(o) implies {
                &&& is_last_trade(out.trades, o.id, 0)
                &&& o.closed_by == Some(lower_id(out.trades[0]))
            } by {
                assert(self.top(Side::Bid).side == Side::Bid);
                assert(self.top(Side::Ask).side == Side::Ask);
                next.lemma_never_open(o.id);
                assert(out.trades[0] == self.next_trade());
                assert forall|k: int| 0 < k < out.trades.len() implies !names(
                    #[trigger] out.trades[k],
                    o.id,
                ) by {
                    assert(out.trades[k] == rest.trades[k - 1]);
                }
            }
            assert forall|i: int| 0 <= i < out.closed.len() implies closed_by_last_trade(
                out.trades,
                #[trigger] out.closed[i],
            ) by {
                let o = out.closed[i];
                if i < n {
                    assert(o == first.closed[i]);
                    assert(first.closed.contains(o));
                } else {
                    assert(o == rest.closed[i - n]);
                    lemma_closed_later(self.next_trade(), rest.trades, o);
                }
            }
            assert forall|i: int, j: int| 0 <= i < j < out.closed.len() implies closed_before(
                out.trades,
                #[trigger] out.closed[i],
                #[trigger] out.closed[j],
            ) by {
                let a = out.closed[i];
                let b = out.closed[j];
                if i < n {
                    assert(a == first.closed[i]);
                    assert(first.closed.contains(a));
                    if j < n {
                        assert(b == first.closed[j]);
                        assert(first.closed.contains(b));
                    } else {
                        assert(b == rest.closed[j - n]);
                        let t = choose|t: int| #[trigger]
                            is_last_trade(rest.trades, b.id, t) && b.closed_by == Some(
                                lower_id(rest.trades[t]),
                            );
                        lemma_last_trade_later(self.next_trade(), rest.trades, b.id, t);
                    }
                } else {
                    assert(a == rest.closed[i - n] && b == rest.closed[j - n]);
                    assert(closed_before(rest.trades, a, b));
                    let t = choose|t: int| #[trigger]
                        is_last_trade(rest.trades, a.id, t) && a.closed_by == Some(
                            lower_id(rest.trades[t]),
                        );
                    let u = choose|u: int| #[trigger]
                        is_last_trade(rest.trades, b.id, u) && b.closed_by == Some(
                            lower_id(rest.trades[u]),
                        );
                    lemma_last_trade_later(self.next_trade(), rest.trades, a.id, t);
                    lemma_last_trade_later(self.next_trade(), rest.trades, b.id, u);
                }
            }
        }
    }
}

/// The order `id` is one of the two of a trade.
pub open spec fn names(trade: TradeTerms, id: Id) -> bool {
    trade.bid_order_id == id || trade.ask_order_id == id
}

/// The lower id of the two orders of a trade.
pub open spec fn lower_id(trade: TradeTerms) -> Id {
    if trade.bid_order_id < trade.ask_order_id {
        trade.bid_order_id
    } else {
        trade.ask_order_id
    }
}

/// The last of `trades` that the order `id` has a part in is the one at `t`.
pub open spec fn is_last_trade(trades: Seq<TradeTerms>, id: Id, t: int) -> bool {
    &&& 0 <= t < trades.len()
    &&& names(trades[t], id)
    &&& forall|k: int| t < k < trades.len() ==> !names(#[trigger] trades[k], id)
}

/// `order` was closed by its last trade, and says so by the lower id of that trade.
pub open spec fn closed_by_last_trade(trades: Seq<TradeTerms>, order: Order) -> bool {
    exists|t: int| #[trigger]
        is_last_trade(trades, order.id, t) && order.closed_by == Some(lower_id(trades[t]))
}

/// `a` was closed by an earlier trade than `b`, or by the same one, as its bid.
pub open spec fn closed_before(trades: Seq<TradeTerms>, a: Order, b: Order) -> bool {
    forall|t: int, u: int| #[trigger]
        is_last_trade(trades, a.id, t) && #[trigger] is_last_trade(trades, b.id, u) ==> t < u || (t
            == u && a.side == Side::Bid && b.side == Side::Ask)
}

/// With one trade more in front, the last trade of an order stands one place later.
proof fn lemma_last_trade_later(first: TradeTerms, rest: Seq<TradeTerms>, id: Id, t: int)
    requires
        is_last_trade(rest, id, t),
    ensures
        is_last_trade(seq![first] + rest, id, t + 1),
{
    let all = seq![first] + rest;
    assert(all[t + 1] == rest[t]);
    assert forall|k: int| t + 1 < k < all.len() implies !names(#[trigger] all[k], id) by {
        assert(all[k] == rest[k - 1]);
    }
}

/// With one trade more in front, an order is still closed by its last trade.
proof fn lemma_closed_later(first: TradeTerms, rest: Seq<TradeTerms>, order: Order)
    requires
        closed_by_last_trade(rest, order),
    ensures
        closed_by_last_trade(seq![first] + rest, order),
{
    let t = choose|t: int| #[trigger]
        is_last_trade(rest, order.id, t) && order.closed_by == Some(lower_id(rest[t]));
    lemma_last_trade_later(first, rest, order.id, t);
    assert((seq![first] + rest)[t + 1] == rest[t]);
}

/// What a trade executes of the order `id`.
pub open spec fn share(trade: TradeTerms, id: Id) -> int {
    if trade.bid_order_id == id || trade.ask_order_id == id {
        trade.volume as int
    } else {
        0
    }
}

/// What all of `trades` together execute of the order `id`.
pub open spec fn traded_volume(trades: Seq<TradeTerms>, id: Id) -> int
    decreases trades.len(),
{
    if trades.len() == 0 {
        0
    } else {
        share(trades[0], id) + traded_volume(trades.drop_first(), id)
    }
}

/// What all of `trades` together cost of the order `id`: the sum of price times volume.
pub open spec fn traded_value(trades: Seq<TradeTerms>, id: Id) -> int
    decreases trades.len(),
{
    if trades.len() == 0 {
        0
    } else {
        trades[0].price * share(trades[0], id) + traded_value(trades.drop_first(), id)
    }
}

/// What is among the later orders is among all.
proof fn lemma_among_later(earlier: Seq<Order>, later: Seq<Order>, order: Order)
    requires
        later.contains(order),
    ensures
        (earlier + later).contains(order),
{
    let at = later.index_of(order);
    assert((earlier + later)[earlier.len() + at] == order);
}

/// What trades execute of an order, and what they cost, is not negative; where they execute nothing
/// of it, they cost nothing.
proof fn lemma_traded_bounds(trades: Seq<TradeTerms>, id: Id)
    ensures
        traded_volume(trades, id) >= 0,
        traded_value(trades, id) >= 0,
        traded_volume(trades, id) == 0 ==> traded_value(trades, id) == 0,
{
    lemma_value_between(trades, id, 0, u64::MAX);
}

/// What trades between two prices cost lies between these prices times the volume.
proof fn lemma_value_between(trades: Seq<TradeTerms>, id: Id, low: Price, high: Price)
    requires
        forall|i: int|
            0 <= i < trades.len() && share(#[trigger] trades[i], id) > 0 ==> low <= trades[i].price
                <= high,
    ensures
        traded_volume(trades, id) >= 0,
        low * traded_volume(trades, id) <= traded_value(trades, id) <= high * traded_volume(
            trades,
            id,
        ),
    decreases trades.len(),
{
    if trades.len() > 0 {
        let rest = trades.drop_first();
        let price = trades[0].price;
        let part = share(trades[0], id);
        assert forall|i: int| 0 <= i < rest.len() && share(#[trigger] rest[i], id) > 0 implies low
            <= rest[i].price <= high by {
            assert(rest[i] == trades[i + 1]);
        }
        lemma_value_between(rest, id, low, high);
        let more = traded_volume(rest, id);
        assert(low * part <= price * part <= high * part) by (nonlinear_arith)
            requires
                part == 0 || (part > 0 && low <= price <= high),
        ;
        assert(low * (part + more) == low * part + low * more) by (nonlinear_arith);
        assert(high * (part + more) == high * part + high * more) by (nonlinear_arith);
    } else {
        assert(low * 0 == 0 && high * 0 == 0);
    }
}

} // verus!
