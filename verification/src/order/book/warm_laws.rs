//! What a warm book is for, said of the orders themselves: which of them it finds, as what, and for
//! how long.

use crate::order::{Id, Order, Status};
use crate::order::book::Pending;
use crate::order::book::model::BookModel;
use crate::order::book::warm_model::WarmModel;
use crate::sequence::SeqNo;
use vstd::prelude::*;

verus! {

/// A new warm book has the open orders that it was made with, and knows of no others.
pub proof fn law_new_warm_book_has_open_orders_only(
    hot: BookModel,
    hot_pending: Option<Pending>,
    id: Id,
    key: Seq<char>,
    seq: SeqNo,
)
    ensures
        ({
            let fresh = WarmModel::over(hot, hot_pending);
            &&& fresh.hot == hot
            &&& fresh.hot_pending == hot_pending
            &&& !fresh.closed.current.contains_key(id)
            &&& fresh.closed.session is None
            &&& !fresh.clients.contains_key(key)
            &&& !fresh.closing.contains((seq, id))
            &&& fresh.stream is None
        }),
{
}

/// An order is found by its id as it is, open or closed; and an id that no order has leads nowhere.
pub proof fn law_ids_lead_to_orders(m: WarmModel, id: Id)
    requires
        m.indexed(),
    ensures
        m.hot.orders.contains_key(id) ==> m.find(id) == Some(m.hot.orders[id]),
        m.closed.current.contains_key(id) ==> m.find(id) == Some(m.closed.current[id]),
        !m.hot.orders.contains_key(id) && !m.closed.current.contains_key(id) ==> m.find(id) is None,
{
}

/// The client id of a user leads to the order of that user with that client id, open or closed,
/// and leads nowhere if there is none.
pub proof fn law_client_ids_lead_to_orders(
    m: WarmModel,
    user_id: Seq<char>,
    client_id: Seq<char>,
    id: Id,
)
    requires
        m.hot.valid(),
        m.consistent(),
        m.indexed(),
        m.only_known(),
    ensures
        ({
            let found = m.find_by_key(crate::order::client_key(user_id, client_id));
            &&& m.hot.orders.contains_key(id) && m.hot.orders[id].user_id@ == user_id
                && m.hot.orders[id].client_id@ == client_id ==> found == Some(m.hot.orders[id])
            &&& m.closed.current.contains_key(id) && m.closed.current[id].user_id@ == user_id
                && m.closed.current[id].client_id@ == client_id ==> found == Some(
                m.closed.current[id],
            )
            &&& found matches Some(order) ==> {
                &&& order.user_id@ == user_id
                &&& order.client_id@ == client_id
                &&& m.find(order.id) == Some(order)
            }
        }),
{
    let key = crate::order::client_key(user_id, client_id);
    if m.clients.contains_key(key) {
        let known = m.clients[key];
        let order = m.find(known)->0;
        assert(order.key() == key);
        crate::order::law_client_key_is_unique(
            order.user_id@,
            order.client_id@,
            user_id,
            client_id,
        );
        if m.hot.orders.contains_key(known) {
            assert(m.hot.order_valid(known));
        }
    }
}

/// An added order is open just as it was handed in, and its client id leads to it. No other order
/// changes, no closing number does, and what a snapshot has still to hand out stays.
pub proof fn law_adding_keeps_the_order_as_it_is(
    m: WarmModel,
    order: Order,
    other: Id,
    user_id: Seq<char>,
    client_id: Seq<char>,
)
    ensures
        ({
            let after = m.add(order);
            let key = crate::order::client_key(user_id, client_id);
            &&& after.hot.orders.contains_key(order.id)
            &&& after.hot.orders[order.id] == order
            &&& other != order.id ==> {
                &&& after.hot.orders.contains_key(other) == m.hot.orders.contains_key(other)
                &&& m.hot.orders.contains_key(other) ==> after.hot.orders[other]
                    == m.hot.orders[other]
                &&& after.find(other) == m.find(other)
            }
            &&& if user_id == order.user_id@ && client_id == order.client_id@ {
                after.clients.contains_key(key) && after.clients[key] == order.id
            } else {
                &&& after.clients.contains_key(key) == m.clients.contains_key(key)
                &&& m.clients.contains_key(key) ==> after.clients[key] == m.clients[key]
            }
            &&& after.closed == m.closed
            &&& after.closing == m.closing
            &&& after.hot_pending == m.hot_pending
            &&& after.stream == m.stream
        }),
{
    if order.key() == crate::order::client_key(user_id, client_id) {
        crate::order::law_client_key_is_unique(
            order.user_id@,
            order.client_id@,
            user_id,
            client_id,
        );
    }
}

/// A canceled order is closed: it is open no more, says that it was canceled, and when, and is
/// otherwise what it was while it was open. No other order changes, and no client id does.
pub proof fn law_canceling_closes_one_order(
    m: WarmModel,
    id: Id,
    seq: SeqNo,
    other: Id,
    pair: (SeqNo, Id),
)
    requires
        m.hot.valid(),
        m.hot.orders.contains_key(id),
    ensures
        ({
            let before = m.hot.orders[id];
            let after = m.cancel(id, seq);
            let canceled = after.closed.current[id];
            &&& !after.hot.orders.contains_key(id)
            &&& after.closed.current.contains_key(id)
            &&& after.find(id) == Some(canceled)
            &&& canceled.status == Status::Canceled
            &&& canceled.closed_by == Some(seq)
            &&& canceled.id == before.id
            &&& canceled.user_id == before.user_id
            &&& canceled.client_id == before.client_id
            &&& canceled.side == before.side
            &&& canceled.price == before.price
            &&& canceled.volume == before.volume
            &&& canceled.executed_volume == before.executed_volume
            &&& canceled.executed_price == before.executed_price
            &&& other != id ==> {
                &&& after.hot.orders.contains_key(other) == m.hot.orders.contains_key(other)
                &&& m.hot.orders.contains_key(other) ==> after.hot.orders[other]
                    == m.hot.orders[other]
                &&& after.closed.current.contains_key(other) == m.closed.current.contains_key(other)
                &&& m.closed.current.contains_key(other) ==> after.closed.current[other]
                    == m.closed.current[other]
                &&& after.find(other) == m.find(other)
            }
            &&& after.closing.contains(pair) <==> m.closing.contains(pair) || pair == (seq, id)
            &&& after.clients == m.clients
            &&& after.hot_pending == m.hot_pending
            &&& after.stream == m.stream
        }),
{
    assert(m.hot.order_valid(id));
}

/// Matching keeps the orders that it closes, each as it was closed and under its closing number. No
/// order that was closed before changes, and no client id does.
pub proof fn law_matching_keeps_what_it_closes(m: WarmModel, id: Id, pair: (SeqNo, Id), i: int)
    requires
        m.hot.valid(),
        m.indexed(),
    ensures
        ({
            let closed = m.hot.matched().closed;
            let after = m.matched();
            &&& after.hot == m.hot.matched().book
            &&& 0 <= i < closed.len() ==> {
                &&& after.closed.current.contains_key(closed[i].id)
                &&& after.closed.current[closed[i].id] == closed[i]
                &&& after.find(closed[i].id) == Some(closed[i])
                &&& after.closing.contains((closed[i].closed_by->0, closed[i].id))
            }
            &&& m.closed.current.contains_key(id) ==> {
                &&& after.closed.current.contains_key(id)
                &&& after.closed.current[id] == m.closed.current[id]
                &&& after.find(id) == m.find(id)
            }
            &&& after.closed.current.contains_key(id) ==> m.closed.current.contains_key(id) || (
            m.hot.orders.contains_key(id) && !after.hot.orders.contains_key(id))
            &&& after.hot.orders.contains_key(id) ==> after.find(id) == Some(after.hot.orders[id])
            &&& m.closing.contains(pair) ==> after.closing.contains(pair)
            &&& after.closing.contains(pair) && !m.closing.contains(pair) ==> exists|k: int|
                0 <= k < closed.len() && (#[trigger] closed[k]).id == pair.1
                    && closed[k].closed_by == Some(pair.0)
            &&& after.clients == m.clients
            &&& after.hot_pending == m.hot_pending
            &&& after.stream == m.stream
        }),
{
    let closed = m.hot.matched().closed;
    let start = WarmModel { hot: m.hot.matched().book, ..m };
    m.lemma_matched_hot();
    m.hot.law_closed_orders();
    m.law_index_is_kept(arbitrary(), id, 0);
    start.lemma_kept_ids(closed);
    assert forall|k: int| 0 <= k < closed.len() implies {
        &&& (#[trigger] closed[k]).closed_by is Some
        &&& m.hot.orders.contains_key(closed[k].id)
        &&& !m.matched().hot.orders.contains_key(closed[k].id)
    } by {
        assert(m.hot.closes(closed[k]));
    }
    lemma_keeping(start, closed, id, pair);
    if 0 <= i < closed.len() {
        start.lemma_kept(closed, i);
        lemma_keeping(start, closed, id, (closed[i].closed_by->0, closed[i].id));
    }
}

/// Keeping closed orders changes no entry of another id, and notes them and nothing else.
proof fn lemma_keeping(m: WarmModel, orders: Seq<Order>, id: Id, pair: (SeqNo, Id))
    requires
        forall|i: int| 0 <= i < orders.len() ==> (#[trigger] orders[i]).closed_by is Some,
    ensures
        ({
            let after = m.keep_all(orders);
            &&& (forall|i: int| 0 <= i < orders.len() ==> (#[trigger] orders[i]).id != id) ==> {
                &&& after.closed.current.contains_key(id) == m.closed.current.contains_key(id)
                &&& after.closed.current[id] == m.closed.current[id]
            }
            &&& after.closing.contains(pair) <==> m.closing.contains(pair) || exists|k: int|
                0 <= k < orders.len() && (#[trigger] orders[k]).id == pair.1 && orders[k].closed_by
                    == Some(pair.0)
        }),
    decreases orders.len(),
{
    if orders.len() > 0 {
        let front = orders.drop_last();
        let last = orders.last();
        assert(orders[orders.len() - 1] == last);
        assert forall|i: int| 0 <= i < front.len() implies (
        #[trigger] front[i]).closed_by is Some by {
            assert(front[i] == orders[i]);
        }
        lemma_keeping(m, front, id, pair);
        if forall|i: int| 0 <= i < orders.len() ==> (#[trigger] orders[i]).id != id {
            assert forall|i: int| 0 <= i < front.len() implies (#[trigger] front[i]).id != id by {
                assert(front[i] == orders[i]);
            }
        }
        let after = m.keep_all(orders);
        if after.closing.contains(pair) && !m.closing.contains(pair) {
            if m.keep_all(front).closing.contains(pair) {
                let k = choose|k: int|
                    0 <= k < front.len() && (#[trigger] front[k]).id == pair.1 && front[k].closed_by
                        == Some(pair.0);
                assert(orders[k] == front[k]);
            }
        }
        if exists|k: int|
            0 <= k < orders.len() && (#[trigger] orders[k]).id == pair.1 && orders[k].closed_by
                == Some(pair.0) {
            let k = choose|k: int|
                0 <= k < orders.len() && (#[trigger] orders[k]).id == pair.1 && orders[k].closed_by
                    == Some(pair.0);
            if k < front.len() {
                assert(front[k] == orders[k]);
            }
        }
    }
}

/// Eviction lets go of the closed orders that were closed at the archived number or before, and of
/// nothing else. What was closed later is found by its id and by its client id exactly as before;
/// what was closed by then is found by neither, and its client id is free again.
pub proof fn law_eviction_goes_by_the_closing_number(m: WarmModel, archived: SeqNo, id: Id)
    requires
        m.consistent(),
        m.indexed(),
        m.only_known(),
        m.closed.current.contains_key(id),
    ensures
        ({
            let order = m.closed.current[id];
            let key = crate::order::client_key(order.user_id@, order.client_id@);
            let after = m.evict(archived);
            &&& order.closed_by->0 > archived ==> {
                &&& after.closed.current.contains_key(id)
                &&& after.closed.current[id] == order
                &&& after.find(id) == Some(order)
                &&& after.find(id) == m.find(id)
                &&& after.find_by_key(key) == Some(order)
                &&& after.find_by_key(key) == m.find_by_key(key)
                &&& after.closing.contains((order.closed_by->0, id))
            }
            &&& order.closed_by->0 <= archived ==> {
                &&& !after.closed.current.contains_key(id)
                &&& after.find(id) is None
                &&& after.find_by_key(key) is None
                &&& !after.clients.contains_key(key)
                &&& !after.closing.contains((order.closed_by->0, id))
            }
        }),
{
    let order = m.closed.current[id];
    let gone = m.archived_ids(archived);
    if order.closed_by->0 > archived {
        if gone.contains(id) {
            let seq = choose|seq: SeqNo|
                seq <= archived && #[trigger] m.closing.contains((seq, id));
            assert(order.closed_by == Some(seq));
        }
        if m.keys_of(gone).contains(order.key()) {
            let other = choose|other: Id| #[trigger]
                gone.contains(other) && m.closed.current.contains_key(other)
                    && m.closed.current[other].key() == order.key();
            assert(m.clients[order.key()] == other);
        }
    } else {
        assert(m.closing.contains((order.closed_by->0, id)));
        assert(gone.contains(id));
        assert(m.keys_of(gone).contains(order.key()));
    }
}

/// Eviction leaves the open orders alone: each is found by its id and by its client id exactly as
/// before. It brings no order and no client id in, and leaves alone what a snapshot has still to
/// hand out.
pub proof fn law_eviction_leaves_open_orders_alone(
    m: WarmModel,
    archived: SeqNo,
    id: Id,
    key: Seq<char>,
    pair: (SeqNo, Id),
)
    requires
        m.indexed(),
    ensures
        ({
            let after = m.evict(archived);
            &&& after.hot == m.hot
            &&& m.hot.orders.contains_key(id) ==> {
                let order = m.hot.orders[id];
                let own = crate::order::client_key(order.user_id@, order.client_id@);
                &&& after.find(id) == Some(order)
                &&& after.find_by_key(own) == Some(order)
            }
            &&& after.closed.current.contains_key(id) ==> m.closed.current.contains_key(id)
                && after.closed.current[id] == m.closed.current[id]
            &&& after.clients.contains_key(key) ==> m.clients.contains_key(key)
                && after.clients[key] == m.clients[key]
            &&& after.closing.contains(pair) <==> m.closing.contains(pair) && pair.0 > archived
            &&& after.hot_pending == m.hot_pending
            &&& after.stream == m.stream
        }),
{
    let gone = m.archived_ids(archived);
    if m.hot.orders.contains_key(id) {
        let key = m.hot.orders[id].key();
        if m.keys_of(gone).contains(key) {
            let other = choose|other: Id| #[trigger]
                gone.contains(other) && m.closed.current.contains_key(other)
                    && m.closed.current[other].key() == key;
            assert(m.clients[key] == other);
        }
    }
}

/// A closed order that is taken in from a snapshot is kept just as it is, under its id, its client
/// id and its closing number, and no other order changes; an open one changes nothing.
pub proof fn law_restoring_keeps_closed_orders(
    m: WarmModel,
    order: Order,
    other: Id,
    user_id: Seq<char>,
    client_id: Seq<char>,
    pair: (SeqNo, Id),
)
    ensures
        order.closed_by is None ==> m.restore(order) == m,
        order.closed_by is Some ==> {
            let after = m.restore(order);
            let key = crate::order::client_key(user_id, client_id);
            &&& after.closed.current.contains_key(order.id)
            &&& after.closed.current[order.id] == order
            &&& other != order.id ==> {
                &&& after.closed.current.contains_key(other) == m.closed.current.contains_key(other)
                &&& m.closed.current.contains_key(other) ==> after.closed.current[other]
                    == m.closed.current[other]
                &&& after.find(other) == m.find(other)
            }
            &&& if user_id == order.user_id@ && client_id == order.client_id@ {
                after.clients.contains_key(key) && after.clients[key] == order.id
            } else {
                &&& after.clients.contains_key(key) == m.clients.contains_key(key)
                &&& m.clients.contains_key(key) ==> after.clients[key] == m.clients[key]
            }
            &&& after.closing.contains(pair) <==> m.closing.contains(pair) || pair == (
                order.closed_by->0,
                order.id,
            )
            &&& after.hot == m.hot
            &&& after.hot_pending == m.hot_pending
            &&& after.stream == m.stream
        },
{
    if order.key() == crate::order::client_key(user_id, client_id) {
        crate::order::law_client_key_is_unique(
            order.user_id@,
            order.client_id@,
            user_id,
            client_id,
        );
    }
}

/// Of the orders that are taken in from a snapshot, an open one is added as it is unless its id is
/// open already, and a closed one is kept as it is.
pub proof fn law_reloading_tells_open_from_closed(m: WarmModel, order: Order, other: Id)
    requires
        m.indexed(),
    ensures
        ({
            let after = m.reload(order);
            &&& order.closed_by is Some ==> {
                &&& after.closed.current.contains_key(order.id)
                &&& after.closed.current[order.id] == order
                &&& after.hot == m.hot
            }
            &&& order.closed_by is None && m.hot.orders.contains_key(order.id) ==> after == m
            &&& order.closed_by is None && !m.hot.orders.contains_key(order.id) ==> {
                &&& after.hot.orders.contains_key(order.id)
                &&& after.hot.orders[order.id] == order
                &&& after.closed == m.closed
                &&& after.closing == m.closing
            }
            &&& after.clients == m.clients.insert(
                crate::order::client_key(order.user_id@, order.client_id@),
                order.id,
            ) || after == m
            &&& other != order.id ==> after.find(other) == m.find(other)
            &&& after.hot_pending == m.hot_pending
            &&& after.stream == m.stream
        }),
{
}

/// Taking in a batch and then one order more is taking in the longer batch.
pub proof fn law_batches_are_taken_in_sequence(m: WarmModel, orders: Seq<Order>, order: Order)
    ensures
        m.restored(orders.push(order)) == m.restored(orders).restore(order),
        m.reloaded(orders.push(order)) == m.reloaded(orders).reload(order),
        m.restored(Seq::empty()) == m,
        m.reloaded(Seq::empty()) == m,
{
    assert(orders.push(order).drop_last() =~= orders);
}

/// Whatever is done while a snapshot is streamed, what it has still to hand out are the closed
/// orders as they were when it was taken, one for each id that it has still to stream.
pub proof fn law_stream_hands_out_base(m: WarmModel, base: Map<Id, Order>, i: int)
    requires
        m.streams(base),
        0 <= i < m.stream->0.len(),
    ensures
        m.pending() is Some,
        m.pending()->0.len() == m.stream->0.len(),
        base.contains_key(m.stream->0[i]),
        m.pending()->0[i] == Some(base[m.stream->0[i]]),
{
    crate::order::book::warm_model::law_stream_shows_base(m, base);
}

/// A full snapshot hands out what is left of the open orders, and then what is left of the closed
/// ones, none of them twice and none left out.
pub proof fn law_open_orders_come_first(m: WarmModel, i: int)
    requires
        m.hot_pending is Some,
    ensures
        m.pending_all() is Some <==> m.stream is Some,
        m.stream matches Some(ids) ==> {
            let open = m.hot_pending->0;
            let all = m.pending_all()->0;
            &&& all.len() == open.len() + ids.len()
            &&& 0 <= i < open.len() ==> all[i] == open[i]
            &&& 0 <= i < ids.len() ==> all[open.len() + i] == m.pending()->0[i]
        },
{
}

/// A listing of all orders holds each of them once, and nothing else.
pub proof fn law_listings_are_complete(
    pending: Pending,
    source: Map<Id, Order>,
    id: Id,
    i: int,
    j: int,
)
    requires
        crate::order::book::lists_all(pending, source),
        forall|k: Id| #[trigger] source.contains_key(k) ==> source[k].id == k,
    ensures
        pending.len() == source.len(),
        source.contains_key(id) ==> exists|k: int|
            0 <= k < pending.len() && #[trigger] pending[k] == Some(source[id]),
        0 <= i < pending.len() ==> {
            &&& pending[i] matches Some(order)
            &&& source.contains_key(order.id)
            &&& source[order.id] == order
        },
        0 <= i < j < pending.len() ==> pending[i] != pending[j],
{
    let ids = choose|ids: Seq<Id>|
        {
            &&& ids.no_duplicates()
            &&& ids.to_set() == source.dom()
            &&& pending == #[trigger] crate::order::book::orders_with(ids, source)
        };
    ids.unique_seq_to_set();
    assert forall|k: int| 0 <= k < ids.len() implies source.contains_key(#[trigger] ids[k]) by {
        assert(ids.to_set().contains(ids[k]));
    }
    if source.contains_key(id) {
        assert(ids.to_set().contains(id));
        let k = ids.index_of(id);
        assert(pending[k] == Some(source[id]));
    }
    if 0 <= i < pending.len() {
        assert(pending[i] == source.get(ids[i]));
    }
    if 0 <= i < j < pending.len() {
        assert(pending[j] == source.get(ids[j]));
    }
}

/// A batch is as large as it may be: all that is left, or as many as asked for.
pub proof fn law_batches_are_full(pending: Pending, limit: nat)
    ensures
        ({
            let n = crate::order::book::batch_size(pending, limit);
            &&& n <= limit
            &&& n <= pending.len()
            &&& n == limit || n == pending.len()
        }),
{
}

/// Nothing can always be taken in; and where a batch can, a further order can be taken in after it
/// if it is closed, if its id is open already, or if the book then accepts it.
pub proof fn law_orders_that_can_be_reloaded(m: WarmModel, orders: Seq<Order>, order: Order)
    ensures
        m.reloadable(Seq::empty()),
        m.reloadable(orders.push(order)) <==> m.reloadable(orders) && {
            ||| order.closed_by is Some
            ||| m.reloaded(orders).hot.orders.contains_key(order.id)
            ||| m.reloaded(orders).hot.accepts(order)
        },
{
    let longer = orders.push(order);
    let n = orders.len() as int;
    assert(longer.take(n) =~= orders);
    assert forall|i: int| 0 <= i < n implies #[trigger] longer.take(i) == orders.take(i) by {
        assert(longer.take(i) =~= orders.take(i));
    }
    if m.reloadable(longer) {
        assert forall|i: int|
            0 <= i < n && (#[trigger] m.reloaded(orders.take(i))).hot.restores(
                orders[i],
            ) implies m.reloaded(orders.take(i)).hot.accepts(orders[i]) by {
            assert(longer[i] == orders[i]);
            assert(m.reloaded(longer.take(i)).hot.restores(longer[i]));
        }
        assert(longer[n] == order);
        assert(m.reloaded(longer.take(n)).hot.restores(longer[n]) ==> m.reloaded(
            orders,
        ).hot.accepts(order));
    }
    if m.reloadable(orders) && (order.closed_by is Some || m.reloaded(
        orders,
    ).hot.orders.contains_key(order.id) || m.reloaded(orders).hot.accepts(order)) {
        assert forall|i: int|
            0 <= i < longer.len() && (#[trigger] m.reloaded(longer.take(i))).hot.restores(
                longer[i],
            ) implies m.reloaded(longer.take(i)).hot.accepts(longer[i]) by {
            if i < n {
                assert(longer[i] == orders[i]);
                assert(m.reloaded(orders.take(i)).hot.restores(orders[i]));
            }
        }
    }
}

/// The index by client id holds the id of the order of a user with a client id, open or closed, and
/// holds nothing else.
pub proof fn law_index_holds_known_orders(
    m: WarmModel,
    user_id: Seq<char>,
    client_id: Seq<char>,
    id: Id,
)
    requires
        m.indexed(),
        m.only_known(),
    ensures
        ({
            let key = crate::order::client_key(user_id, client_id);
            m.clients.contains_key(key) && m.clients[key] == id <==> {
                ||| m.hot.orders.contains_key(id) && m.hot.orders[id].user_id@ == user_id
                    && m.hot.orders[id].client_id@ == client_id
                ||| m.closed.current.contains_key(id) && m.closed.current[id].user_id@ == user_id
                    && m.closed.current[id].client_id@ == client_id
            }
        }),
{
    let key = crate::order::client_key(user_id, client_id);
    if m.clients.contains_key(key) && m.clients[key] == id {
        let order = m.find(id)->0;
        crate::order::law_client_key_is_unique(
            order.user_id@,
            order.client_id@,
            user_id,
            client_id,
        );
    }
}

} // verus!
