//! What an order book is for, said of the orders themselves: of their fields, and of the trades
//! and closures that a matching gives.

use crate::order::{Id, Order, Price, Side, Status};
use crate::order::book::DepthItem;
use crate::order::book::fills::Fills;
use crate::order::book::model::BookModel;
use crate::sequence::SeqNo;
use crate::trade::TradeTerms;
use vstd::prelude::*;

verus! {

/// What an order has left to trade and what it has executed make up its volume.
pub proof fn law_volume_is_split(order: Order)
    ensures
        order.remaining() + order.executed_volume == order.volume,
{
}

/// A canceled order says so, and says when; all else stays as it was, what it has executed
/// included.
pub proof fn law_cancel_changes_nothing_else(order: Order, seq: SeqNo)
    ensures
        order.canceled(seq).status == Status::Canceled,
        order.canceled(seq).closed_by == Some(seq),
        order.canceled(seq).id == order.id,
        order.canceled(seq).user_id == order.user_id,
        order.canceled(seq).client_id == order.client_id,
        order.canceled(seq).side == order.side,
        order.canceled(seq).price == order.price,
        order.canceled(seq).volume == order.volume,
        order.canceled(seq).executed_volume == order.executed_volume,
        order.canceled(seq).executed_price == order.executed_price,
{
}

/// Executing some volume of an order adds it to the executed volume, and makes the executed price
/// the average of all its executions, rounded down to a tick; all else stays as it was, status and
/// closing number included. Executing nothing changes nothing.
pub proof fn law_execution_changes_two_fields(order: Order, fills: Fills, volume: int)
    requires
        0 <= volume,
        order.executed_volume + volume <= u64::MAX,
        volume > 0 ==> fills.volume > 0 && fills.value <= u64::MAX * fills.volume,
    ensures
        ({
            let after = order.after(fills, volume);
            &&& after.executed_volume == order.executed_volume + volume
            &&& volume > 0 ==> {
                &&& after.executed_price matches Some(price)
                &&& price * fills.volume <= fills.value < (price + 1) * fills.volume
            }
            &&& volume == 0 ==> after == order
            &&& after.id == order.id
            &&& after.user_id == order.user_id
            &&& after.client_id == order.client_id
            &&& after.side == order.side
            &&& after.price == order.price
            &&& after.volume == order.volume
            &&& after.status == order.status
            &&& after.closed_by == order.closed_by
        }),
{
    if volume > 0 {
        fills.lemma_average(0, u64::MAX);
    }
}

/// What an order tells of its executions when it comes to a book: nothing, or its executed volume
/// at its average price.
pub proof fn law_executions_told(order: Order)
    ensures
        order.executed_price is None ==> Fills::of(order).value == 0 && Fills::of(order).volume
            == 0,
        order.executed_price matches Some(price) ==> {
            &&& Fills::of(order).volume == order.executed_volume
            &&& Fills::of(order).value == price * order.executed_volume
        },
{
    if let Some(price) = order.executed_price {
        let n = order.executed_volume;
        assert(price * n >= 0) by (nonlinear_arith)
            requires
                price >= 0,
                n >= 0,
        ;
    }
}

/// A new book holds no order and no price level, on either side.
pub proof fn law_new_book_is_empty(id: Id, price: Price)
    ensures
        !BookModel::empty().orders.contains_key(id),
        !BookModel::empty().bids.contains_key(price),
        !BookModel::empty().asks.contains_key(price),
        BookModel::empty().valid(),
{
}

/// In a valid book each open order stands in the queue of its own price on its own side, and
/// nowhere else.
pub proof fn law_orders_stand_at_their_price(m: BookModel, id: Id, price: Price)
    requires
        m.valid(),
    ensures
        m.orders.contains_key(id) ==> {
            &&& m.orders[id].id == id
            &&& m.orders[id].executed_volume <= m.orders[id].volume
        },
        m.bids.contains_key(price) && m.bids[price].contains(id) <==> m.orders.contains_key(id)
            && m.orders[id].side == Side::Bid && m.orders[id].price == price,
        m.asks.contains_key(price) && m.asks[price].contains(id) <==> m.orders.contains_key(id)
            && m.orders[id].side == Side::Ask && m.orders[id].price == price,
{
    if m.orders.contains_key(id) {
        assert(m.order_valid(id));
    }
    assert forall|side: Side| #[trigger]
        m.levels(side).contains_key(price) && m.levels(side)[price].contains(
            id,
        ) implies m.orders.contains_key(id) && m.orders[id].side == side && m.orders[id].price
        == price by {
        assert(m.level_valid(side, price));
        let queue = m.queue(side, price);
        let at = queue.index_of(id);
        assert(queue[at] == id);
    }
    assert(m.levels(Side::Bid) == m.bids);
    assert(m.levels(Side::Ask) == m.asks);
}

/// An added order is open just as it was handed in, at the end of the queue of its price and side;
/// no other order and no other queue changes.
pub proof fn law_added_order_is_open_as_it_is(m: BookModel, order: Order, other: Id, price: Price)
    ensures
        m.add(order).orders.contains_key(order.id),
        m.add(order).orders[order.id] == order,
        other != order.id ==> {
            &&& m.add(order).orders.contains_key(other) == m.orders.contains_key(other)
            &&& m.orders.contains_key(other) ==> m.add(order).orders[other] == m.orders[other]
            &&& m.fills.contains_key(other) ==> m.add(order).fills[other] == m.fills[other]
        },
        m.add(order).fills[order.id] == Fills::of(order),
        order.side == Side::Bid ==> {
            &&& m.add(order).asks == m.asks
            &&& m.add(order).bids.contains_key(order.price)
            &&& m.add(order).bids[order.price] == if m.bids.contains_key(order.price) {
                m.bids[order.price].push(order.id)
            } else {
                seq![order.id]
            }
            &&& price != order.price ==> {
                &&& m.add(order).bids.contains_key(price) == m.bids.contains_key(price)
                &&& m.bids.contains_key(price) ==> m.add(order).bids[price] == m.bids[price]
            }
        },
        order.side == Side::Ask ==> {
            &&& m.add(order).bids == m.bids
            &&& m.add(order).asks.contains_key(order.price)
            &&& m.add(order).asks[order.price] == if m.asks.contains_key(order.price) {
                m.asks[order.price].push(order.id)
            } else {
                seq![order.id]
            }
            &&& price != order.price ==> {
                &&& m.add(order).asks.contains_key(price) == m.asks.contains_key(price)
                &&& m.asks.contains_key(price) ==> m.add(order).asks[price] == m.asks[price]
            }
        },
{
    assert(Seq::<Id>::empty().push(order.id) =~= seq![order.id]);
}

/// An order that has not executed more than its volume is accepted where no order of its side
/// stands at its price, and wherever the volume of its price still fits.
pub proof fn law_orders_that_fit_are_accepted(m: BookModel, order: Order)
    requires
        m.valid(),
        order.executed_volume <= order.volume,
    ensures
        (forall|id: Id| #[trigger]
            m.orders.contains_key(id) ==> m.orders[id].side != order.side || m.orders[id].price
                != order.price) ==> m.accepts(order),
        m.volume(order.side, order.price) + (order.volume - order.executed_volume) <= u64::MAX
            ==> m.accepts(order),
{
    m.lemma_volume(order.side, order.price);
    if m.levels(order.side).contains_key(order.price) {
        let first = m.queue(order.side, order.price)[0];
        assert(m.orders.contains_key(first));
    }
}

/// An order that is taken out is open no more, and stands in no queue; all other orders stay as
/// they are, and in the order in which they stood.
pub proof fn law_removed_order_is_gone(m: BookModel, id: Id, other: Id, price: Price)
    requires
        m.valid(),
        m.orders.contains_key(id),
    ensures
        !m.remove(id).orders.contains_key(id),
        other != id ==> {
            &&& m.remove(id).orders.contains_key(other) == m.orders.contains_key(other)
            &&& m.orders.contains_key(other) ==> {
                &&& m.remove(id).orders[other] == m.orders[other]
                &&& m.remove(id).fills[other] == m.fills[other]
            }
        },
        m.orders[id].side == Side::Bid ==> m.remove(id).asks == m.asks,
        m.orders[id].side == Side::Ask ==> m.remove(id).bids == m.bids,
        m.bids.contains_key(price) ==> {
            let left = m.bids[price].filter(|x: Id| x != id);
            &&& m.remove(id).bids.contains_key(price) <==> left.len() > 0
            &&& left.len() > 0 ==> m.remove(id).bids[price] == left
        },
        !m.bids.contains_key(price) ==> !m.remove(id).bids.contains_key(price),
        m.asks.contains_key(price) ==> {
            let left = m.asks[price].filter(|x: Id| x != id);
            &&& m.remove(id).asks.contains_key(price) <==> left.len() > 0
            &&& left.len() > 0 ==> m.remove(id).asks[price] == left
        },
        !m.asks.contains_key(price) ==> !m.remove(id).asks.contains_key(price),
{
    let order = m.orders[id];
    m.lemma_remove(id);
    assert(m.order_valid(id));
    assert(m.levels(Side::Bid) == m.bids && m.levels(Side::Ask) == m.asks);
    assert(m.remove(id).levels(Side::Bid) == m.remove(id).bids);
    assert(m.remove(id).levels(Side::Ask) == m.remove(id).asks);
    assert forall|side: Side| #[trigger] m.levels(side).contains_key(price) implies {
        let left = m.levels(side)[price].filter(|x: Id| x != id);
        &&& m.remove(id).levels(side).contains_key(price) <==> left.len() > 0
        &&& left.len() > 0 ==> m.remove(id).levels(side)[price] == left
    } by {
        let queue = m.levels(side)[price];
        assert(m.level_valid(side, price));
        if side == order.side && price == order.price {
            lemma_filter_out(queue, id, queue.index_of(id));
        } else {
            assert forall|i: int| 0 <= i < queue.len() implies #[trigger] queue[i] != id by {
                assert(m.orders[queue[i]].side == side);
            }
            lemma_filter_none(queue, id);
        }
    }
}

/// Keeping all but a value that does not occur keeps everything.
proof fn lemma_filter_none(s: Seq<Id>, id: Id)
    requires
        forall|i: int| 0 <= i < s.len() ==> #[trigger] s[i] != id,
    ensures
        s.filter(|x: Id| x != id) == s,
    decreases s.len(),
{
    reveal(Seq::filter);
    if s.len() > 0 {
        let front = s.drop_last();
        assert forall|i: int| 0 <= i < front.len() implies #[trigger] front[i] != id by {
            assert(front[i] == s[i]);
        }
        lemma_filter_none(front, id);
        assert(s[s.len() - 1] != id);
        assert(front.push(s.last()) =~= s);
    }
}

/// Keeping all but a value that occurs once takes it out where it stands.
proof fn lemma_filter_out(s: Seq<Id>, id: Id, at: int)
    requires
        0 <= at < s.len(),
        s[at] == id,
        s.no_duplicates(),
    ensures
        s.filter(|x: Id| x != id) == s.remove(at),
    decreases s.len(),
{
    reveal(Seq::filter);
    let front = s.drop_last();
    if at == s.len() - 1 {
        assert forall|i: int| 0 <= i < front.len() implies #[trigger] front[i] != id by {
            assert(front[i] == s[i]);
        }
        lemma_filter_none(front, id);
        assert(s.remove(at) =~= front);
    } else {
        assert(front[at] == id);
        lemma_filter_out(front, id, at);
        assert(s.last() != id);
        assert(front.remove(at).push(s.last()) =~= s.remove(at));
    }
}

/// A finite set of prices that is not empty has a best one.
proof fn lemma_best_of(prices: Set<Price>, side: Side) -> (best: Price)
    requires
        prices.finite(),
        prices.len() > 0,
    ensures
        prices.contains(best),
        forall|p: Price| #[trigger]
            prices.contains(p) ==> p == best || crate::order::book::model::better(side, best, p),
    decreases prices.len(),
{
    let some = prices.choose();
    let rest = prices.remove(some);
    if rest.len() == 0 {
        assert forall|p: Price| #[trigger] prices.contains(p) implies p == some by {
            if p != some {
                assert(rest.contains(p));
            }
        }
        some
    } else {
        let next = lemma_best_of(rest, side);
        let best = if crate::order::book::model::better(side, some, next) {
            some
        } else {
            next
        };
        assert forall|p: Price| #[trigger] prices.contains(p) implies p == best
            || crate::order::book::model::better(side, best, p) by {
            if p != some {
                assert(rest.contains(p));
            }
        }
        best
    }
}

/// A book whose best prices do not cross has no bid at or above an ask.
proof fn lemma_uncrossed(m: BookModel, bid: Id, ask: Id)
    requires
        m.valid(),
        !m.crossing(),
        m.orders.contains_key(bid),
        m.orders.contains_key(ask),
        m.orders[bid].side == Side::Bid,
        m.orders[ask].side == Side::Ask,
    ensures
        m.orders[bid].price < m.orders[ask].price,
{
    assert(m.order_valid(bid) && m.order_valid(ask));
    assert(m.levels(Side::Bid).contains_key(m.orders[bid].price));
    assert(m.levels(Side::Ask).contains_key(m.orders[ask].price));
    let high = lemma_best_of(m.levels(Side::Bid).dom(), Side::Bid);
    let low = lemma_best_of(m.levels(Side::Ask).dom(), Side::Ask);
    assert forall|p: Price| #[trigger] m.levels(Side::Bid).contains_key(p) implies p == high
        || crate::order::book::model::better(Side::Bid, high, p) by {
        assert(m.levels(Side::Bid).dom().contains(p));
    }
    assert forall|p: Price| #[trigger] m.levels(Side::Ask).contains_key(p) implies p == low
        || crate::order::book::model::better(Side::Ask, low, p) by {
        assert(m.levels(Side::Ask).dom().contains(p));
    }
    m.lemma_best(Side::Bid, high);
    m.lemma_best(Side::Ask, low);
}

/// After a matching every open bid is priced strictly below every open ask.
pub proof fn law_no_crossing_prices_remain(m: BookModel, bid: Id, ask: Id)
    requires
        m.valid(),
        m.matchable(),
        m.matched().book.orders.contains_key(bid),
        m.matched().book.orders.contains_key(ask),
        m.matched().book.orders[bid].side == Side::Bid,
        m.matched().book.orders[ask].side == Side::Ask,
    ensures
        m.matched().book.orders[bid].price < m.matched().book.orders[ask].price,
{
    m.law_matching_keeps_valid();
    if m.all_live() {
        m.law_matching_ends_uncrossed();
    }
    lemma_uncrossed(m.matched().book, bid, ask);
}

/// A book whose orders all have volume left can be matched. After that every open bid is priced
/// strictly below every open ask, all open orders still have volume left, and matching once more
/// does nothing.
pub proof fn law_live_books_are_uncrossed_by_matching(m: BookModel, bid: Id, ask: Id)
    requires
        m.valid(),
        forall|id: Id| #[trigger]
            m.orders.contains_key(id) ==> m.orders[id].executed_volume < m.orders[id].volume,
    ensures
        m.matchable(),
        ({
            let after = m.matched().book;
            &&& after.orders.contains_key(bid) && after.orders.contains_key(ask)
                && after.orders[bid].side == Side::Bid && after.orders[ask].side == Side::Ask
                ==> after.orders[bid].price < after.orders[ask].price
            &&& after.orders.contains_key(bid) ==> after.orders[bid].executed_volume
                < after.orders[bid].volume
            &&& after.matched().trades.len() == 0
            &&& after.matched().closed.len() == 0
            &&& after.matched().book == after
        }),
{
    m.law_matching_ends_uncrossed();
    m.law_matching_keeps_valid();
    let after = m.matched().book;
    if after.orders.contains_key(bid) && after.orders.contains_key(ask) && after.orders[bid].side
        == Side::Bid && after.orders[ask].side == Side::Ask {
        lemma_uncrossed(after, bid, ask);
    }
}

/// A book on which every bid is priced below every ask is left alone by matching.
pub proof fn law_uncrossed_books_are_left_alone(m: BookModel)
    requires
        m.valid(),
        forall|bid: Id, ask: Id|
            {
                &&& #[trigger] m.orders.contains_key(bid)
                &&& #[trigger] m.orders.contains_key(ask)
                &&& m.orders[bid].side == Side::Bid
                &&& m.orders[ask].side == Side::Ask
            } ==> m.orders[bid].price < m.orders[ask].price,
    ensures
        m.matchable(),
        m.matched().book == m,
        m.matched().trades.len() == 0,
        m.matched().closed.len() == 0,
{
    if m.crossing() {
        m.lemma_top();
        let bid = m.top(Side::Bid);
        let ask = m.top(Side::Ask);
        assert(m.orders.contains_key(bid.id) && m.orders.contains_key(ask.id));
        assert(m.orders[bid.id].price < m.orders[ask.id].price);
    }
}

/// An order that is open after a matching was open before, and agrees with what it was then in all
/// but what it has executed: its status and its closing number too. It has executed just what its
/// trades say.
pub proof fn law_matching_changes_only_executions(m: BookModel, id: Id)
    requires
        m.valid(),
        m.matched().book.orders.contains_key(id),
    ensures
        m.orders.contains_key(id),
        ({
            let before = m.orders[id];
            let after = m.matched().book.orders[id];
            let trades = m.matched().trades;
            &&& after.id == before.id
            &&& after.user_id == before.user_id
            &&& after.client_id == before.client_id
            &&& after.side == before.side
            &&& after.price == before.price
            &&& after.volume == before.volume
            &&& after.status == before.status
            &&& after.closed_by == before.closed_by
            &&& after.executed_volume == before.executed_volume + volume_of(trades, id)
            &&& after.executed_volume <= after.volume
            &&& volume_of(trades, id) == 0 ==> after.executed_price == before.executed_price
        }),
{
    if !m.orders.contains_key(id) {
        m.lemma_never_open(id);
    }
    assert(m.order_valid(id));
    m.law_matching_accounts_for_volume(id);
    lemma_volume_of(m.matched().trades, id);
}

/// An order that is open no more after a matching was executed completely, by its trades, and is
/// among the closed orders; no other order is.
pub proof fn law_matching_closes_what_is_executed(m: BookModel, id: Id)
    requires
        m.valid(),
        m.orders.contains_key(id),
    ensures
        m.orders[id].executed_volume + volume_of(m.matched().trades, id) <= m.orders[id].volume,
        !m.matched().book.orders.contains_key(id) <==> (exists|i: int|
            0 <= i < m.matched().closed.len() && (#[trigger] m.matched().closed[i]).id == id),
        !m.matched().book.orders.contains_key(id) ==> m.orders[id].executed_volume + volume_of(
            m.matched().trades,
            id,
        ) == m.orders[id].volume,
{
    let out = m.matched();
    assert(m.order_valid(id));
    m.law_matching_accounts_for_volume(id);
    m.law_closed_orders();
    lemma_volume_of(out.trades, id);
    if !out.book.orders.contains_key(id) {
        let after = m.order_after(id, out.trades);
        let closer = choose|closer: SeqNo| out.closed.contains(#[trigger] after.closed_out(closer));
        let at = out.closed.index_of(after.closed_out(closer));
        assert(out.closed[at].id == id);
    }
}

/// An order that a matching closes was open before, says that it is executed, by all of its volume,
/// and agrees with what it was in all other fields but its average price and its closing number.
pub proof fn law_closed_orders_are_executed(m: BookModel, i: int)
    requires
        m.valid(),
        0 <= i < m.matched().closed.len(),
    ensures
        ({
            let closed = m.matched().closed[i];
            let before = m.orders[closed.id];
            &&& m.orders.contains_key(closed.id)
            &&& !m.matched().book.orders.contains_key(closed.id)
            &&& closed.status == Status::Executed
            &&& closed.closed_by is Some
            &&& closed.executed_volume == closed.volume
            &&& closed.user_id == before.user_id
            &&& closed.client_id == before.client_id
            &&& closed.side == before.side
            &&& closed.price == before.price
            &&& closed.volume == before.volume
        }),
{
    m.law_closed_orders();
    assert(m.closes(m.matched().closed[i]));
}

/// A closed order was closed by the last trade that it has a part in, and names as its closing
/// number the lower id of the two orders of that trade, which is the maker's.
pub proof fn law_last_trade_closes(m: BookModel, i: int)
    requires
        m.valid(),
        0 <= i < m.matched().closed.len(),
    ensures
        exists|t: int|
            #![trigger m.matched().trades[t]]
            {
                let closed = m.matched().closed[i];
                let trade = m.matched().trades[t];
                &&& 0 <= t < m.matched().trades.len()
                &&& trade.bid_order_id == closed.id || trade.ask_order_id == closed.id
                &&& forall|later: int|
                    t < later < m.matched().trades.len() ==> (
                    #[trigger] m.matched().trades[later]).bid_order_id != closed.id
                        && m.matched().trades[later].ask_order_id != closed.id
                &&& closed.closed_by == Some(
                    if trade.bid_order_id < trade.ask_order_id {
                        trade.bid_order_id
                    } else {
                        trade.ask_order_id
                    },
                )
            },
{
    let trades = m.matched().trades;
    let closed = m.matched().closed[i];
    m.law_closures_follow_trades();
    assert(crate::order::book::model::closed_by_last_trade(trades, closed));
    let t = choose|t: int| #[trigger]
        crate::order::book::model::is_last_trade(trades, closed.id, t) && closed.closed_by == Some(
            crate::order::book::model::lower_id(trades[t]),
        );
    assert(crate::order::book::model::names(trades[t], closed.id));
    assert forall|later: int| t < later < trades.len() implies (
    #[trigger] trades[later]).bid_order_id != closed.id && trades[later].ask_order_id
        != closed.id by {
        assert(!crate::order::book::model::names(trades[later], closed.id));
    }
}

/// Every trade is between an open bid and an open ask, for some volume, within both limits, at the
/// price of the order with the lower id, which is the maker; its own id is left 0.
pub proof fn law_trades_are_fair(m: BookModel, i: int)
    requires
        m.valid(),
        0 <= i < m.matched().trades.len(),
    ensures
        ({
            let trade = m.matched().trades[i];
            let bid = m.orders[trade.bid_order_id];
            let ask = m.orders[trade.ask_order_id];
            &&& m.orders.contains_key(trade.bid_order_id)
            &&& m.orders.contains_key(trade.ask_order_id)
            &&& bid.side == Side::Bid
            &&& ask.side == Side::Ask
            &&& trade.volume > 0
            &&& trade.volume <= bid.volume - bid.executed_volume
            &&& trade.volume <= ask.volume - ask.executed_volume
            &&& ask.price <= trade.price <= bid.price
            &&& trade.bid_order_id < trade.ask_order_id ==> trade.is_bid_maker && trade.price
                == bid.price
            &&& trade.ask_order_id < trade.bid_order_id ==> !trade.is_bid_maker && trade.price
                == ask.price
            &&& trade.id == 0
        }),
{
    let trades = m.matched().trades;
    let trade = trades[i];
    m.law_trades_respect_limits();
    assert(m.fair(trade));
    m.law_matching_accounts_for_volume(trade.bid_order_id);
    m.law_matching_accounts_for_volume(trade.ask_order_id);
    lemma_volume_of(trades, trade.bid_order_id);
    lemma_volume_of(trades, trade.ask_order_id);
    lemma_part_of_volume(trades, trade.bid_order_id, i);
    lemma_part_of_volume(trades, trade.ask_order_id, i);
}

/// Price-time priority. An order at a better price, or at the same price and earlier in its queue,
/// trades first: where the other one trades, the first has been executed completely, and each of
/// its trades comes before each trade of the other.
pub proof fn law_better_orders_trade_first(m: BookModel, a: Id, b: Id, i: int, j: int, k: int)
    requires
        m.valid(),
        m.orders.contains_key(a),
        m.orders.contains_key(b),
        m.orders[a].side == m.orders[b].side,
        ({
            let price = m.orders[a].price;
            ||| m.orders[a].side == Side::Bid && price > m.orders[b].price
            ||| m.orders[a].side == Side::Ask && price < m.orders[b].price
            ||| m.orders[a].side == Side::Bid && price == m.orders[b].price && 0 <= i < j
                < m.bids[price].len() && m.bids[price][i] == a && m.bids[price][j] == b
            ||| m.orders[a].side == Side::Ask && price == m.orders[b].price && 0 <= i < j
                < m.asks[price].len() && m.asks[price][i] == a && m.asks[price][j] == b
        }),
        0 <= k < m.matched().trades.len(),
        m.matched().trades[k].bid_order_id == b || m.matched().trades[k].ask_order_id == b,
    ensures
        !m.matched().book.orders.contains_key(a),
        m.orders[a].executed_volume + volume_of(m.matched().trades, a) == m.orders[a].volume,
        forall|t: int|
            k <= t < m.matched().trades.len() ==> (#[trigger] m.matched().trades[t]).bid_order_id
                != a && m.matched().trades[t].ask_order_id != a,
{
    let trades = m.matched().trades;
    assert(m.order_valid(a) && m.order_valid(b));
    let side = m.orders[a].side;
    let price = m.orders[a].price;
    assert(m.levels(side).contains_key(price));
    let queue = m.queue(side, price);
    if price == m.orders[b].price {
        assert(queue[i] == a && queue[j] == b);
    }
    assert(m.ahead(a, b));
    m.law_trades_respect_limits();
    assert(m.fair(trades[k]));
    lemma_volume_of(trades, b);
    lemma_part_of_volume(trades, b, k);
    m.law_price_time_priority(a, b);
    lemma_volume_of(trades, a);
    assert forall|t: int| k <= t < trades.len() implies (#[trigger] trades[t]).bid_order_id != a
        && trades[t].ask_order_id != a by {
        if trades[t].bid_order_id == a || trades[t].ask_order_id == a {
            assert(crate::order::book::model::names(trades[t], a));
            assert(crate::order::book::model::names(trades[k], b));
        }
    }
}

/// The average price of an order is exact, whether the matching leaves it open or closes it: what
/// its executions cost in all, divided by their volume and rounded down to a tick.
pub proof fn law_executed_price_is_the_average(m: BookModel, id: Id, i: int)
    requires
        m.valid(),
        m.orders.contains_key(id),
        volume_of(m.matched().trades, id) > 0,
    ensures
        ({
            let out = m.matched();
            let value = m.fills[id].value + value_of(out.trades, id);
            let volume = m.fills[id].volume + volume_of(out.trades, id);
            &&& out.book.orders.contains_key(id) ==> {
                &&& out.book.orders[id].executed_price matches Some(price)
                &&& price * volume <= value < (price + 1) * volume
                &&& out.book.fills[id].value == value
                &&& out.book.fills[id].volume == volume
            }
            &&& 0 <= i < out.closed.len() && out.closed[i].id == id ==> {
                &&& out.closed[i].executed_price matches Some(price)
                &&& price * volume <= value < (price + 1) * volume
            }
        }),
{
    let out = m.matched();
    assert(m.order_valid(id));
    lemma_volume_of(out.trades, id);
    lemma_value_of(out.trades, id);
    m.law_average_price_is_exact(id);
    m.law_matching_accounts_for_volume(id);
    m.law_closed_orders();
    if 0 <= i < out.closed.len() && out.closed[i].id == id {
        let after = m.order_after(id, out.trades);
        assert(m.closes(out.closed[i]));
        let closer = choose|closer: SeqNo| out.closed.contains(#[trigger] after.closed_out(closer));
        let at = out.closed.index_of(after.closed_out(closer));
        assert(out.closed[at].id == id);
        if at < i {
            assert(out.closed[at].id != out.closed[i].id);
        }
        if i < at {
            assert(out.closed[i].id != out.closed[at].id);
        }
    }
}

/// An order that a matching leaves open without trading it keeps its executions.
pub proof fn law_untraded_orders_keep_their_executions(m: BookModel, id: Id)
    requires
        m.valid(),
        m.orders.contains_key(id),
        volume_of(m.matched().trades, id) == 0,
        m.orders[id].executed_volume < m.orders[id].volume,
    ensures
        m.matched().book.orders.contains_key(id),
        m.matched().book.orders[id] == m.orders[id],
        m.matched().book.fills[id] == m.fills[id],
{
    let out = m.matched();
    assert(m.order_valid(id));
    lemma_volume_of(out.trades, id);
    lemma_value_of(out.trades, id);
    m.law_matching_accounts_for_volume(id);
    m.law_trades_respect_limits();
    lemma_no_value(out.trades, id);
}

/// Orders that stay open keep their places: two orders of one queue stand in the same sequence
/// after a matching as before, and an order that leaves is the only reason for a queue to change.
pub proof fn law_matching_keeps_places(m: BookModel, price: Price)
    requires
        m.valid(),
    ensures
        m.matched().book.bids.contains_key(price) ==> {
            let before = m.bids[price];
            let after = m.matched().book.bids[price];
            &&& m.bids.contains_key(price)
            &&& after.len() <= before.len()
            &&& after == before.skip(before.len() - after.len())
        },
        m.matched().book.asks.contains_key(price) ==> {
            let before = m.asks[price];
            let after = m.matched().book.asks[price];
            &&& m.asks.contains_key(price)
            &&& after.len() <= before.len()
            &&& after == before.skip(before.len() - after.len())
        },
{
    lemma_places(m, Side::Bid, price);
    lemma_places(m, Side::Ask, price);
    m.law_matching_keeps_valid();
    let after = m.matched().book;
    assert(after.levels(Side::Bid) == after.bids && after.levels(Side::Ask) == after.asks);
    assert(m.levels(Side::Bid) == m.bids && m.levels(Side::Ask) == m.asks);
    if after.bids.contains_key(price) {
        assert(after.levels(Side::Bid).contains_key(price));
        assert(after.level_valid(Side::Bid, price));
    }
    if after.asks.contains_key(price) {
        assert(after.levels(Side::Ask).contains_key(price));
        assert(after.level_valid(Side::Ask, price));
    }
}

/// Matching takes orders off the front of a queue only.
proof fn lemma_places(m: BookModel, side: Side, price: Price)
    requires
        m.valid(),
    ensures
        ({
            let before = m.queue(side, price);
            let after = m.matched().book.queue(side, price);
            &&& after.len() <= before.len()
            &&& after == before.skip(before.len() - after.len())
        }),
    decreases m.orders.len(),
{
    let before = m.queue(side, price);
    if m.tradable() {
        m.lemma_trade();
        m.lemma_top();
        m.lemma_trade_queues();
        let next = m.trade().book;
        lemma_places(next, side, price);
        let mid = next.queue(side, price);
        let after = m.matched().book.queue(side, price);
        assert(after == next.matched().book.queue(side, price));
        assert(m.top(side).side == side);
        assert(mid == before || mid == before.drop_first());
        if mid != before {
            assert(before.len() > 0);
            assert(before.drop_first().skip(mid.len() - after.len()) =~= before.skip(
                before.len() - after.len(),
            ));
        }
    } else {
        assert(before.skip(0) =~= before);
    }
}

/// What trades execute of an order: the sum of the volumes of the trades that it has a part in.
pub open spec fn volume_of(trades: Seq<TradeTerms>, id: Id) -> int {
    trades.fold_left(
        0int,
        |sum: int, t: TradeTerms|
            if t.bid_order_id == id || t.ask_order_id == id {
                sum + t.volume
            } else {
                sum
            },
    )
}

/// What trades of an order cost: the sum of price times volume of the trades that it has a part in.
pub open spec fn value_of(trades: Seq<TradeTerms>, id: Id) -> int {
    trades.fold_left(
        0int,
        |sum: int, t: TradeTerms|
            if t.bid_order_id == id || t.ask_order_id == id {
                sum + t.price * t.volume
            } else {
                sum
            },
    )
}

/// The volume of trades, from the front or from the back.
proof fn lemma_volume_of(trades: Seq<TradeTerms>, id: Id)
    ensures
        volume_of(trades, id) == crate::order::book::model::traded_volume(trades, id),
    decreases trades.len(),
{
    if trades.len() > 0 {
        let front = trades.drop_last();
        lemma_volume_of(front, id);
        lemma_traded_back(trades, id);
    }
}

/// The cost of trades, from the front or from the back.
proof fn lemma_value_of(trades: Seq<TradeTerms>, id: Id)
    ensures
        value_of(trades, id) == crate::order::book::model::traded_value(trades, id),
    decreases trades.len(),
{
    if trades.len() > 0 {
        let front = trades.drop_last();
        lemma_value_of(front, id);
        lemma_traded_back(trades, id);
        assert(trades.last().price * 0 == 0);
    }
}

/// The last trade adds its part.
proof fn lemma_traded_back(trades: Seq<TradeTerms>, id: Id)
    requires
        trades.len() > 0,
    ensures
        ({
            let part = crate::order::book::model::share(trades.last(), id);
            &&& crate::order::book::model::traded_volume(trades, id)
                == crate::order::book::model::traded_volume(trades.drop_last(), id) + part
            &&& crate::order::book::model::traded_value(trades, id)
                == crate::order::book::model::traded_value(trades.drop_last(), id)
                + trades.last().price * part
        }),
    decreases trades.len(),
{
    let rest = trades.drop_first();
    if trades.len() == 1 {
        assert(rest =~= Seq::empty());
        assert(trades.drop_last() =~= Seq::empty());
        assert(crate::order::book::model::traded_volume(rest, id) == 0);
        assert(crate::order::book::model::traded_value(rest, id) == 0);
        assert(crate::order::book::model::traded_volume(trades.drop_last(), id) == 0);
        assert(crate::order::book::model::traded_value(trades.drop_last(), id) == 0);
    } else {
        lemma_traded_back(rest, id);
        assert(rest.drop_last() =~= trades.drop_last().drop_first());
        assert(trades.drop_last()[0] == trades[0]);
        assert(rest.last() == trades.last());
    }
}

/// One trade of an order executes no more than all of them.
proof fn lemma_part_of_volume(trades: Seq<TradeTerms>, id: Id, i: int)
    requires
        0 <= i < trades.len(),
    ensures
        0 <= crate::order::book::model::share(trades[i], id)
            <= crate::order::book::model::traded_volume(trades, id),
    decreases trades.len(),
{
    lemma_parts_add_up(trades, id);
    if i > 0 {
        lemma_part_of_volume(trades.drop_first(), id, i - 1);
        assert(trades.drop_first()[i - 1] == trades[i]);
    } else {
        lemma_parts_add_up(trades.drop_first(), id);
    }
}

/// What trades execute is not negative.
proof fn lemma_parts_add_up(trades: Seq<TradeTerms>, id: Id)
    ensures
        crate::order::book::model::traded_volume(trades, id) >= 0,
    decreases trades.len(),
{
    if trades.len() > 0 {
        lemma_parts_add_up(trades.drop_first(), id);
    }
}

/// Where nothing is executed, nothing is paid.
proof fn lemma_no_value(trades: Seq<TradeTerms>, id: Id)
    requires
        crate::order::book::model::traded_volume(trades, id) == 0,
    ensures
        crate::order::book::model::traded_value(trades, id) == 0,
    decreases trades.len(),
{
    if trades.len() > 0 {
        lemma_parts_add_up(trades.drop_first(), id);
        lemma_no_value(trades.drop_first(), id);
        assert(trades[0].price * 0 == 0);
    }
}

/// Depth shows the best prices of a side, best first, and no more of them than asked for. A price
/// that an open order has is shown, or is worse than all prices shown, of which there are then as
/// many as asked for; and no price is shown that no open order has.
pub proof fn law_depth_shows_the_best_prices(
    m: BookModel,
    side: Side,
    limit: nat,
    items: Seq<DepthItem>,
    id: Id,
)
    requires
        m.valid(),
        m.shows(side, limit, items),
    ensures
        items.len() <= limit,
        forall|i: int, j: int|
            0 <= i < j < items.len() ==> if side == Side::Bid {
                (#[trigger] items[i]).price > (#[trigger] items[j]).price
            } else {
                items[i].price < items[j].price
            },
        forall|i: int|
            #![trigger items[i]]
            0 <= i < items.len() ==> exists|o: Id|
                {
                    &&& #[trigger] m.orders.contains_key(o)
                    &&& m.orders[o].side == side
                    &&& m.orders[o].price == items[i].price
                },
        m.orders.contains_key(id) && m.orders[id].side == side ==> {
            ||| exists|i: int|
                0 <= i < items.len() && (#[trigger] items[i]).price == m.orders[id].price
            ||| items.len() == limit && forall|i: int|
                0 <= i < items.len() ==> if side == Side::Bid {
                    (#[trigger] items[i]).price > m.orders[id].price
                } else {
                    items[i].price < m.orders[id].price
                }
        },
{
    assert forall|i: int| #![trigger items[i]] 0 <= i < items.len() implies exists|o: Id|
        {
            &&& #[trigger] m.orders.contains_key(o)
            &&& m.orders[o].side == side
            &&& m.orders[o].price == items[i].price
        } by {
        assert(m.levels(side).contains_key(items[i].price));
        m.lemma_volume(side, items[i].price);
        assert(m.orders.contains_key(m.queue(side, items[i].price)[0]));
    }
    if m.orders.contains_key(id) && m.orders[id].side == side {
        let price = m.orders[id].price;
        assert(m.order_valid(id));
        assert(m.levels(side).contains_key(price));
        if !(exists|i: int| 0 <= i < items.len() && (#[trigger] items[i]).price == price) {
            if items.len() < limit {
                lemma_all_shown(m, side, limit, items, price);
            }
        }
    }
}

/// Where fewer prices are shown than asked for, all are shown.
proof fn lemma_all_shown(m: BookModel, side: Side, limit: nat, items: Seq<DepthItem>, price: Price)
    requires
        m.valid(),
        m.shows(side, limit, items),
        items.len() < limit,
        m.levels(side).contains_key(price),
    ensures
        exists|i: int| 0 <= i < items.len() && (#[trigger] items[i]).price == price,
{
    let shown = items.map_values(|d: DepthItem| d.price);
    assert forall|i: int, j: int|
        0 <= i < shown.len() && 0 <= j < shown.len() && i != j implies shown[i] != shown[j] by {
        if i < j {
            assert(crate::order::book::model::better(side, items[i].price, items[j].price));
        } else {
            assert(crate::order::book::model::better(side, items[j].price, items[i].price));
        }
    }
    shown.unique_seq_to_set();
    let all = m.levels(side).dom();
    assert(all.finite());
    assert forall|p: Price| #[trigger] shown.to_set().contains(p) implies all.contains(p) by {
        let i = shown.index_of(p);
        assert(items[i].price == p);
    }
    vstd::set_lib::lemma_subset_equality(shown.to_set(), all);
    assert(shown.to_set().contains(price));
    let i = shown.index_of(price);
    assert(items[i].price == price);
}

/// The volume that depth shows at a price is what all open orders of that side and price have left:
/// the sum of volume less executed volume, over any listing of them.
pub proof fn law_depth_shows_what_is_left(
    m: BookModel,
    side: Side,
    limit: nat,
    items: Seq<DepthItem>,
    i: int,
    ids: Seq<Id>,
)
    requires
        m.valid(),
        m.shows(side, limit, items),
        0 <= i < items.len(),
        ids.no_duplicates(),
        forall|id: Id| #[trigger]
            ids.contains(id) <==> m.orders.contains_key(id) && m.orders[id].side == side
                && m.orders[id].price == items[i].price,
    ensures
        items[i].volume == ids.fold_left(
            0int,
            |sum: int, id: Id| sum + (m.orders[id].volume - m.orders[id].executed_volume),
        ),
{
    let price = items[i].price;
    let queue = m.queue(side, price);
    assert(m.levels(side).contains_key(price));
    assert(m.level_valid(side, price));
    assert forall|k: int| 0 <= k < ids.len() implies {
        &&& m.orders.contains_key(#[trigger] ids[k])
        &&& m.orders[ids[k]].side == side
        &&& m.orders[ids[k]].price == price
    } by {
        assert(ids.contains(ids[k]));
    }
    crate::order::book::recovery::lemma_queue_part(m, side, price, ids);
    assert forall|k: int| 0 <= k < ids.len() implies m.orders[#[trigger] ids[k]].executed_volume
        <= m.orders[ids[k]].volume by {
        assert(m.order_valid(ids[k]));
    }
    assert forall|id: Id| #[trigger] queue.to_set().contains(id) implies ids.to_set().contains(
        id,
    ) by {
        let at = queue.index_of(id);
        assert(queue[at] == id);
        assert(ids.contains(id));
    }
    crate::order::book::recovery::lemma_part_has_less(queue, ids, m.orders);
    assert(crate::order::book::recovery::orders_of(queue, m.orders) =~= m.queue_orders(
        side,
        price,
    ));
    lemma_left_by_folding(ids, m.orders);
}

/// What orders have left, added up one by one.
proof fn lemma_left_by_folding(ids: Seq<Id>, source: Map<Id, Order>)
    ensures
        crate::order::book::model::open_volume(
            crate::order::book::recovery::orders_of(ids, source),
        ) == ids.fold_left(
            0int,
            |sum: int, id: Id| sum + (source[id].volume - source[id].executed_volume),
        ),
    decreases ids.len(),
{
    if ids.len() > 0 {
        lemma_left_by_folding(ids.drop_last(), source);
        assert(crate::order::book::recovery::orders_of(ids, source).drop_last()
            =~= crate::order::book::recovery::orders_of(ids.drop_last(), source));
    }
}

/// Restoring orders leaves the open orders as they are, adds the open ones among the restored under
/// ids that were free, each as it is, and nothing else.
pub proof fn law_restoring_adds_the_open_orders(m: BookModel, orders: Seq<Order>, id: Id)
    requires
        forall|i: int, j: int|
            0 <= i < j < orders.len() ==> (#[trigger] orders[i]).id != (#[trigger] orders[j]).id,
    ensures
        m.orders.contains_key(id) ==> {
            &&& m.restored(orders).orders.contains_key(id)
            &&& m.restored(orders).orders[id] == m.orders[id]
        },
        forall|i: int|
            #![trigger orders[i]]
            0 <= i < orders.len() && orders[i].closed_by is None && !m.orders.contains_key(
                orders[i].id,
            ) ==> {
                &&& m.restored(orders).orders.contains_key(orders[i].id)
                &&& m.restored(orders).orders[orders[i].id] == orders[i]
                &&& m.restored(orders).fills[orders[i].id] == Fills::of(orders[i])
            },
        m.restored(orders).orders.contains_key(id) && !m.orders.contains_key(id) ==> exists|i: int|
            0 <= i < orders.len() && (#[trigger] orders[i]).id == id && orders[i].closed_by is None,
    decreases orders.len(),
{
    if orders.len() > 0 {
        let front = orders.drop_last();
        let last = orders.last();
        assert forall|i: int, j: int| 0 <= i < j < front.len() implies (#[trigger] front[i]).id != (
        #[trigger] front[j]).id by {
            assert(front[i] == orders[i] && front[j] == orders[j]);
        }
        law_restoring_adds_the_open_orders(m, front, id);
        law_restoring_adds_the_open_orders(m, front, last.id);
        assert(orders[orders.len() - 1] == last);
        let before = m.restored(front);
        if before.orders.contains_key(last.id) && !m.orders.contains_key(last.id) {
            let i = choose|i: int|
                0 <= i < front.len() && (#[trigger] front[i]).id == last.id
                    && front[i].closed_by is None;
            assert(front[i] == orders[i]);
        }
        assert forall|i: int|
            #![trigger orders[i]]
            0 <= i < orders.len() && orders[i].closed_by is None && !m.orders.contains_key(
                orders[i].id,
            ) implies {
            &&& m.restored(orders).orders.contains_key(orders[i].id)
            &&& m.restored(orders).orders[orders[i].id] == orders[i]
            &&& m.restored(orders).fills[orders[i].id] == Fills::of(orders[i])
        } by {
            if i < front.len() {
                assert(front[i] == orders[i]);
                assert(orders[i].id != orders[orders.len() - 1].id);
            }
        }
        if m.restored(orders).orders.contains_key(id) && !m.orders.contains_key(id) {
            if before.orders.contains_key(id) {
                let i = choose|i: int|
                    0 <= i < front.len() && (#[trigger] front[i]).id == id
                        && front[i].closed_by is None;
                assert(front[i] == orders[i]);
            }
        }
    }
}

/// Restoring a batch and then one order more adds that order at the end of its queue, if it is open
/// and new.
pub proof fn law_restoring_keeps_the_sequence(m: BookModel, orders: Seq<Order>, order: Order)
    ensures
        ({
            let before = m.restored(orders);
            let after = m.restored(orders.push(order));
            if order.closed_by is Some || before.orders.contains_key(order.id) {
                after == before
            } else {
                after == before.add(order)
            }
        }),
        m.restored(Seq::empty()) == m,
{
    assert(orders.push(order).drop_last() =~= orders);
}

/// A book can be matched exactly if all of its orders have volume left, or matching would leave
/// every open bid priced below every open ask.
pub proof fn law_books_that_can_be_matched(m: BookModel)
    requires
        m.valid(),
    ensures
        m.matchable() <==> {
            ||| forall|id: Id| #[trigger]
                m.orders.contains_key(id) ==> m.orders[id].executed_volume < m.orders[id].volume
            ||| forall|bid: Id, ask: Id|
                {
                    &&& #[trigger] m.matched().book.orders.contains_key(bid)
                    &&& #[trigger] m.matched().book.orders.contains_key(ask)
                    &&& m.matched().book.orders[bid].side == Side::Bid
                    &&& m.matched().book.orders[ask].side == Side::Ask
                } ==> m.matched().book.orders[bid].price < m.matched().book.orders[ask].price
        },
{
    m.law_matching_keeps_valid();
    let after = m.matched().book;
    if m.matchable() && !m.all_live() {
        assert forall|bid: Id, ask: Id|
            {
                &&& #[trigger] after.orders.contains_key(bid)
                &&& #[trigger] after.orders.contains_key(ask)
                &&& after.orders[bid].side == Side::Bid
                &&& after.orders[ask].side == Side::Ask
            } implies after.orders[bid].price < after.orders[ask].price by {
            lemma_uncrossed(after, bid, ask);
        }
    }
    if after.crossing() {
        after.lemma_top();
        assert(after.orders.contains_key(after.top(Side::Bid).id));
        assert(after.orders.contains_key(after.top(Side::Ask).id));
    }
}

/// Nothing can always be restored; and where a batch can, a further order can be restored after it
/// if it is closed, if its id is open already, or if the book then accepts it.
pub proof fn law_orders_that_can_be_restored(m: BookModel, orders: Seq<Order>, order: Order)
    ensures
        m.restorable(Seq::empty()),
        m.restorable(orders.push(order)) <==> m.restorable(orders) && {
            ||| order.closed_by is Some
            ||| m.restored(orders).orders.contains_key(order.id)
            ||| m.restored(orders).accepts(order)
        },
{
    let longer = orders.push(order);
    let n = orders.len() as int;
    assert(longer.take(n) =~= orders);
    assert forall|i: int| 0 <= i < n implies #[trigger] longer.take(i) == orders.take(i) by {
        assert(longer.take(i) =~= orders.take(i));
    }
    if m.restorable(orders.push(order)) {
        assert forall|i: int|
            0 <= i < n && #[trigger] m.restored(orders.take(i)).restores(
                orders[i],
            ) implies m.restored(orders.take(i)).accepts(orders[i]) by {
            assert(longer[i] == orders[i]);
            assert(m.restored(longer.take(i)).restores(longer[i]));
        }
        assert(longer[n] == order);
        assert(m.restored(longer.take(n)).restores(longer[n]) ==> m.restored(orders).accepts(order));
    }
    if m.restorable(orders) && (order.closed_by is Some || m.restored(orders).orders.contains_key(
        order.id,
    ) || m.restored(orders).accepts(order)) {
        assert forall|i: int|
            0 <= i < longer.len() && #[trigger] m.restored(longer.take(i)).restores(
                longer[i],
            ) implies m.restored(longer.take(i)).accepts(longer[i]) by {
            if i < n {
                assert(longer[i] == orders[i]);
                assert(m.restored(orders.take(i)).restores(orders[i]));
            }
        }
    }
}

} // verus!
