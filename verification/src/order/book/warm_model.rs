//! What a warm book is, as mathematics: the open orders, the recently closed ones, and the
//! client ids of both.

use crate::collections::model::SnapshotModel;
use crate::order::{Id, Order};
use crate::order::book::Pending;
use crate::order::book::model::BookModel;
use crate::sequence::SeqNo;
use vstd::prelude::*;

verus! {

/// The state of a warm book.
#[verifier::ext_equal]
pub struct WarmModel {
    /// The open orders.
    pub hot: BookModel,
    /// The open orders that a snapshot of the underlying book has still to hand out.
    pub hot_pending: Option<Pending>,
    /// Order ids by user and client id.
    pub clients: Map<Seq<char>, Id>,
    /// The closed orders that are kept, with the snapshot of them that may be active.
    pub closed: SnapshotModel<Id, Order>,
    /// Which order was closed at which sequence number.
    pub closing: Set<(SeqNo, Id)>,
    /// The ids of the closed orders that a snapshot has still to hand out.
    pub stream: Option<Seq<Id>>,
}

impl WarmModel {
    /// A warm book that knows of no orders but the open ones of `hot`.
    pub open spec fn over(hot: BookModel, hot_pending: Option<Pending>) -> WarmModel {
        WarmModel {
            hot,
            hot_pending,
            clients: Map::empty(),
            closed: SnapshotModel::empty(),
            closing: Set::empty(),
            stream: None,
        }
    }

    /// `order` has been added to the open orders, and can be found by its client id.
    pub open spec fn add(self, order: Order) -> WarmModel {
        WarmModel {
            hot: self.hot.add(order),
            clients: self.clients.insert(order.key(), order.id),
            ..self
        }
    }

    /// `order`, which is closed, is kept with the closed orders.
    pub open spec fn keep(self, order: Order) -> WarmModel {
        WarmModel {
            closed: self.closed.insert(order.id, order),
            closing: self.closing.insert((order.closed_by->0, order.id)),
            ..self
        }
    }

    /// All of `orders`, which are closed, are kept, in order.
    pub open spec fn keep_all(self, orders: Seq<Order>) -> WarmModel
        decreases orders.len(),
    {
        if orders.len() == 0 {
            self
        } else {
            self.keep_all(orders.drop_last()).keep(orders.last())
        }
    }

    /// The open order `id` has been canceled at `seq`.
    pub open spec fn cancel(self, id: Id, seq: SeqNo) -> WarmModel {
        WarmModel { hot: self.hot.remove(id), ..self }.keep(self.hot.orders[id].canceled(seq))
    }

    /// The open orders have been matched, and those that this closed are kept.
    pub open spec fn matched(self) -> WarmModel {
        WarmModel { hot: self.hot.matched().book, ..self }.keep_all(self.hot.matched().closed)
    }

    /// The order `id`: closed or, if it is not kept as a closed one, open.
    pub open spec fn find(self, id: Id) -> Option<Order> {
        if self.closed.current.contains_key(id) {
            Some(self.closed.current[id])
        } else {
            self.hot.orders.get(id)
        }
    }

    /// The order that a client id leads to.
    pub open spec fn find_by_key(self, key: Seq<char>) -> Option<Order> {
        if self.clients.contains_key(key) {
            self.find(self.clients[key])
        } else {
            None
        }
    }

    /// The orders that were closed at `archived` or before.
    pub open spec fn archived_ids(self, archived: SeqNo) -> Set<Id> {
        Set::new(
            |id: Id|
                exists|seq: SeqNo| seq <= archived && #[trigger] self.closing.contains((seq, id)),
        )
    }

    /// The client ids of the closed orders among `ids`.
    pub open spec fn keys_of(self, ids: Set<Id>) -> Set<Seq<char>> {
        Set::new(
            |key: Seq<char>|
                exists|id: Id| #[trigger]
                    ids.contains(id) && self.closed.current.contains_key(id)
                        && self.closed.current[id].key() == key,
        )
    }

    /// The closed orders `ids` are gone, and their client ids with them.
    pub open spec fn forget(self, ids: Set<Id>) -> WarmModel {
        WarmModel {
            closed: self.closed.remove_all(ids),
            clients: self.clients.remove_keys(self.keys_of(ids)),
            ..self
        }
    }

    /// The orders closed at `archived` or before are gone, and their client ids with them.
    pub open spec fn evict(self, archived: SeqNo) -> WarmModel {
        WarmModel {
            closing: self.closing.filter(|c: (SeqNo, Id)| c.0 > archived),
            ..self.forget(self.archived_ids(archived))
        }
    }

    /// `order` has been taken in from a snapshot, if it is closed.
    pub open spec fn restore(self, order: Order) -> WarmModel {
        if order.closed_by is Some {
            WarmModel { clients: self.clients.insert(order.key(), order.id), ..self }.keep(order)
        } else {
            self
        }
    }

    /// The closed orders among `orders` have been taken in from a snapshot.
    pub open spec fn restored(self, orders: Seq<Order>) -> WarmModel
        decreases orders.len(),
    {
        if orders.len() == 0 {
            self
        } else {
            self.restored(orders.drop_last()).restore(orders.last())
        }
    }

    /// `order` has been taken in from a snapshot of open and closed orders: a closed one is
    /// kept, and an open one is added unless its id is open already.
    pub open spec fn reload(self, order: Order) -> WarmModel {
        if order.closed_by is Some {
            self.restore(order)
        } else if self.hot.orders.contains_key(order.id) {
            self
        } else {
            self.add(order)
        }
    }

    /// All of `orders` have been taken in from a snapshot of open and closed orders.
    pub open spec fn reloaded(self, orders: Seq<Order>) -> WarmModel
        decreases orders.len(),
    {
        if orders.len() == 0 {
            self
        } else {
            self.reloaded(orders.drop_last()).reload(orders.last())
        }
    }

    /// Taking in `orders` adds no open order that the book cannot accept.
    pub open spec fn reloadable(self, orders: Seq<Order>) -> bool {
        forall|i: int|
            0 <= i < orders.len() && (#[trigger] self.reloaded(orders.take(i))).hot.restores(
                orders[i],
            ) ==> self.reloaded(orders.take(i)).hot.accepts(orders[i])
    }

    /// The open orders and the closed orders that the snapshot in progress has still to hand
    /// out, in this order.
    pub open spec fn pending_all(self) -> Option<Pending> {
        match self.pending() {
            Some(closed) => Some(self.hot_pending->0 + closed),
            None => None,
        }
    }

    /// The closed orders that the snapshot in progress has still to hand out.
    pub open spec fn pending(self) -> Option<Pending> {
        match self.stream {
            Some(ids) => Some(crate::order::book::orders_with(ids, self.closed.visible())),
            None => None,
        }
    }

    /// A snapshot of the closed orders `base` is in progress, and shows them as they were.
    pub open spec fn streams(self, base: Map<Id, Order>) -> bool {
        &&& self.closed.isolates(base)
        &&& self.stream matches Some(ids)
        &&& forall|i: int| 0 <= i < ids.len() ==> base.contains_key(#[trigger] ids[i])
    }
}

/// While a snapshot of the closed orders `base` is streamed, what it has still to hand out are
/// orders of `base`, as they were when it was taken.
pub proof fn law_stream_shows_base(m: WarmModel, base: Map<Id, Order>)
    requires
        m.streams(base),
    ensures
        m.pending() == Some(crate::order::book::orders_with(m.stream->0, base)),
        forall|limit: nat| crate::order::book::batch_readable(m.pending(), limit),
{
    let ids = m.stream->0;
    let source = m.closed.visible();
    assert forall|i: int| 0 <= i < ids.len() implies crate::order::book::orders_with(
        ids,
        source,
    )[i] == #[trigger] crate::order::book::orders_with(ids, base)[i] by {
        assert(base.contains_key(ids[i]));
    }
    assert(crate::order::book::orders_with(ids, source) =~= crate::order::book::orders_with(
        ids,
        base,
    ));
}

/// Evicting closed orders does not disturb the snapshot that is being streamed.
pub proof fn law_evict_keeps_stream(m: WarmModel, base: Map<Id, Order>, archived: SeqNo)
    requires
        m.streams(base),
    ensures
        m.evict(archived).streams(base),
        m.evict(archived).pending() == m.pending(),
{
    crate::collections::model::law_remove_all_keeps_isolation(
        m.closed,
        base,
        m.archived_ids(archived),
    );
    law_stream_shows_base(m, base);
    law_stream_shows_base(m.evict(archived), base);
}

/// Orders that are closed while a snapshot is streamed are not part of it, and do not disturb
/// it.
pub proof fn law_new_closures_keep_stream(m: WarmModel, base: Map<Id, Order>, orders: Seq<Order>)
    requires
        m.streams(base),
        forall|i: int| 0 <= i < orders.len() ==> !base.contains_key((#[trigger] orders[i]).id),
    ensures
        m.keep_all(orders).streams(base),
        m.keep_all(orders).pending() == m.pending(),
    decreases orders.len(),
{
    if orders.len() > 0 {
        let front = orders.drop_last();
        assert forall|i: int| 0 <= i < front.len() implies !base.contains_key(
            (#[trigger] front[i]).id,
        ) by {
            assert(front[i] == orders[i]);
        }
        law_new_closures_keep_stream(m, base, front);
        let before = m.keep_all(front);
        let order = orders.last();
        assert(orders[orders.len() - 1] == order);
        crate::collections::model::law_insert_keeps_isolation(
            before.closed,
            base,
            order.id,
            order,
        );
        law_stream_shows_base(before, base);
        law_stream_shows_base(m.keep_all(orders), base);
    }
}

/// Snapshot isolation: while a snapshot of the closed orders `base` is streamed, adding,
/// canceling, matching and evicting orders does not change what it has still to hand out, as long
/// as no id of it is used for an open order again.
pub proof fn law_snapshot_is_isolated(
    m: WarmModel,
    base: Map<Id, Order>,
    order: Order,
    id: Id,
    seq: SeqNo,
)
    requires
        m.streams(base),
        m.hot.valid(),
        forall|open: Id| #[trigger] m.hot.orders.contains_key(open) ==> !base.contains_key(open),
    ensures
        m.add(order).streams(base),
        m.add(order).pending() == m.pending(),
        m.hot.orders.contains_key(id) ==> {
            &&& m.cancel(id, seq).streams(base)
            &&& m.cancel(id, seq).pending() == m.pending()
        },
        m.matched().streams(base),
        m.matched().pending() == m.pending(),
        m.evict(seq).streams(base),
        m.evict(seq).pending() == m.pending(),
{
    if m.hot.orders.contains_key(id) {
        assert(m.hot.order_valid(id));
        let canceled = m.hot.orders[id].canceled(seq);
        crate::collections::model::law_insert_keeps_isolation(m.closed, base, id, canceled);
        law_stream_shows_base(m, base);
        law_stream_shows_base(m.cancel(id, seq), base);
    }
    m.hot.law_closed_orders();
    let closed = m.hot.matched().closed;
    assert forall|i: int| 0 <= i < closed.len() implies !base.contains_key(
        (#[trigger] closed[i]).id,
    ) by {
        assert(m.hot.closes(closed[i]));
    }
    law_new_closures_keep_stream(
        WarmModel { hot: m.hot.matched().book, ..m },
        base,
        closed,
    );
    law_evict_keeps_stream(m, base, seq);
}

/// Evicting up to a sequence number below every closing one changes nothing.
pub proof fn law_evict_below_all_is_noop(m: WarmModel, archived: SeqNo)
    requires
        forall|seq: SeqNo, id: Id| #[trigger] m.closing.contains((seq, id)) ==> archived < seq,
    ensures
        m.evict(archived) == m,
{
    assert(m.archived_ids(archived) =~= Set::empty());
    crate::collections::model::lemma_remove_none(m.closed);
    assert(m.keys_of(Set::empty()) =~= Set::empty());
    assert(m.clients.remove_keys(Set::empty()) =~= m.clients);
    assert(m.closing.filter(|c: (SeqNo, Id)| c.0 > archived) =~= m.closing) by {
        assert forall|c: (SeqNo, Id)| #[trigger] m.closing.contains(c) implies c.0 > archived by {
            assert(m.closing.contains((c.0, c.1)));
        }
    }
    assert(m.evict(archived) =~= m);
}

/// A closed order that was closed at the evicted sequence number or before is found no more,
/// neither by its id, unless it is open, nor by its client id.
pub proof fn law_evicted_orders_are_gone(m: WarmModel, archived: SeqNo, seq: SeqNo, id: Id)
    requires
        m.closing.contains((seq, id)),
        seq <= archived,
        m.closed.current.contains_key(id),
    ensures
        m.evict(archived).find(id) == m.hot.orders.get(id),
        m.evict(archived).find_by_key(m.closed.current[id].key()) is None,
{
    assert(m.archived_ids(archived).contains(id));
}

/// A canceled order is found by its id, and by its client id if that led to it before.
pub proof fn law_canceled_orders_are_found(m: WarmModel, id: Id, seq: SeqNo)
    requires
        m.hot.valid(),
        m.hot.orders.contains_key(id),
    ensures
        m.cancel(id, seq).find(id) == Some(m.hot.orders[id].canceled(seq)),
        m.clients.contains_key(m.hot.orders[id].key()) && m.clients[m.hot.orders[id].key()] == id
            ==> m.cancel(id, seq).find_by_key(m.hot.orders[id].key()) == Some(
            m.hot.orders[id].canceled(seq),
        ),
{
    assert(m.hot.order_valid(id));
}

/// Every order that matching closes is found by its id afterwards, as it was closed.
pub proof fn law_matched_orders_are_found(m: WarmModel, i: int)
    requires
        m.hot.valid(),
        0 <= i < m.hot.matched().closed.len(),
    ensures
        m.matched().find(m.hot.matched().closed[i].id) == Some(m.hot.matched().closed[i]),
{
    m.hot.law_closed_orders();
    let closed = m.hot.matched().closed;
    WarmModel { hot: m.hot.matched().book, ..m }.lemma_kept(closed, i);
}

/// Adding an order and looking it up by its id or client id gives it back, unless a closed order
/// with the same id is still kept.
pub proof fn law_added_orders_are_found(m: WarmModel, order: Order)
    requires
        !m.closed.current.contains_key(order.id),
    ensures
        m.add(order).find(order.id) == Some(order),
        m.add(order).find_by_key(order.key()) == Some(order),
{
}

/// Taking in a closed order from a snapshot makes it found again, by its id and by its client
/// id.
pub proof fn law_restored_orders_are_found(m: WarmModel, order: Order)
    requires
        order.closed_by is Some,
    ensures
        m.restore(order).find(order.id) == Some(order),
        m.restore(order).find_by_key(order.key()) == Some(order),
        m.restore(order).closing.contains((order.closed_by->0, order.id)),
{
}

impl WarmModel {
    /// Of orders with different ids that are kept, each is there.
    pub proof fn lemma_kept(self, orders: Seq<Order>, i: int)
        requires
            0 <= i < orders.len(),
            forall|j: int, k: int|
                0 <= j < k < orders.len() ==> (#[trigger] orders[j]).id != (
                #[trigger] orders[k]).id,
        ensures
            self.keep_all(orders).closed.current.contains_key(orders[i].id),
            self.keep_all(orders).closed.current[orders[i].id] == orders[i],
        decreases orders.len(),
    {
        if i < orders.len() - 1 {
            let front = orders.drop_last();
            assert forall|j: int, k: int| 0 <= j < k < front.len() implies (#[trigger] front[j]).id
                != (#[trigger] front[k]).id by {
                assert(front[j] == orders[j] && front[k] == orders[k]);
            }
            self.lemma_kept(front, i);
            assert(front[i] == orders[i]);
            assert(orders[orders.len() - 1] == orders.last());
        }
    }

    /// Keeping closed orders keeps no others.
    pub proof fn lemma_kept_ids(self, orders: Seq<Order>)
        ensures
            forall|id: Id| #[trigger]
                self.keep_all(orders).closed.current.contains_key(id)
                    ==> self.closed.current.contains_key(id) || exists|i: int|
                    0 <= i < orders.len() && (#[trigger] orders[i]).id == id,
        decreases orders.len(),
    {
        if orders.len() > 0 {
            let front = orders.drop_last();
            self.lemma_kept_ids(front);
            assert forall|id: Id| #[trigger]
                self.keep_all(orders).closed.current.contains_key(id)
                    && !self.closed.current.contains_key(id) implies exists|i: int|
                0 <= i < orders.len() && (#[trigger] orders[i]).id == id by {
                if orders.last().id == id {
                    assert(orders[orders.len() - 1].id == id);
                } else {
                    assert(self.keep_all(front).closed.current.contains_key(id));
                    let i = choose|i: int| 0 <= i < front.len() && (#[trigger] front[i]).id == id;
                    assert(orders[i] == front[i]);
                }
            }
        }
    }

    /// Keeping closed orders leaves the rest as it is.
    pub proof fn lemma_keep_all(self, orders: Seq<Order>)
        ensures
            ({
                let after = self.keep_all(orders);
                &&& after.hot == self.hot
                &&& after.hot_pending == self.hot_pending
                &&& after.clients == self.clients
                &&& after.stream == self.stream
                &&& after.closed.session is Some <==> self.closed.session is Some
            }),
        decreases orders.len(),
    {
        if orders.len() > 0 {
            self.lemma_keep_all(orders.drop_last());
        }
    }

    /// Matching leaves the matched book, and the streams and client ids as they were.
    pub proof fn lemma_matched_hot(self)
        ensures
            self.matched().hot == self.hot.matched().book,
            self.matched().hot_pending == self.hot_pending,
            self.matched().clients == self.clients,
            self.matched().stream == self.stream,
    {
        WarmModel { hot: self.hot.matched().book, ..self }.lemma_keep_all(
            self.hot.matched().closed,
        );
    }

    /// Keeping one order more.
    pub proof fn lemma_keep_step(self, orders: Seq<Order>, i: int)
        requires
            0 <= i < orders.len(),
        ensures
            self.keep_all(orders.take(i + 1)) == self.keep_all(orders.take(i)).keep(orders[i]),
    {
        assert(orders.take(i + 1).drop_last() =~= orders.take(i));
    }

    /// Taking one order more in.
    pub proof fn lemma_restore_step(self, orders: Seq<Order>, i: int)
        requires
            0 <= i < orders.len(),
        ensures
            self.restored(orders.take(i + 1)) == self.restored(orders.take(i)).restore(orders[i]),
    {
        assert(orders.take(i + 1).drop_last() =~= orders.take(i));
    }

    /// Taking one order more in, open or closed.
    pub proof fn lemma_reload_step(self, orders: Seq<Order>, i: int)
        requires
            0 <= i < orders.len(),
        ensures
            self.reloaded(orders.take(i + 1)) == self.reloaded(orders.take(i)).reload(orders[i]),
    {
        assert(orders.take(i + 1).drop_last() =~= orders.take(i));
    }

    /// Forgetting one order more.
    pub proof fn lemma_forget_step(self, ids: Set<Id>, id: Id)
        ensures
            ({
                let before = self.forget(ids);
                let after = self.forget(ids.insert(id));
                &&& after.closed == before.closed.remove(id, self.closed.current[id])
                &&& after.clients == if before.closed.current.contains_key(id) {
                    before.clients.remove(self.closed.current[id].key())
                } else {
                    before.clients
                }
            }),
    {
        crate::collections::model::lemma_remove_one_more(
            self.closed,
            ids,
            id,
            self.closed.current[id],
        );
        let before = self.forget(ids);
        let after = self.forget(ids.insert(id));
        let key = self.closed.current[id].key();
        assert forall|k: Seq<char>| #[trigger] self.keys_of(ids.insert(id)).contains(k) <==> (
        self.keys_of(ids).contains(k) || (self.closed.current.contains_key(id) && k == key)) by {
            if self.keys_of(ids).contains(k) {
                let other = choose|other: Id| #[trigger]
                    ids.contains(other) && self.closed.current.contains_key(other)
                        && self.closed.current[other].key() == k;
                assert(ids.insert(id).contains(other));
            }
            if self.closed.current.contains_key(id) && k == key {
                assert(ids.insert(id).contains(id));
            }
            if self.keys_of(ids.insert(id)).contains(k) {
                let other = choose|other: Id| #[trigger]
                    ids.insert(id).contains(other) && self.closed.current.contains_key(other)
                        && self.closed.current[other].key() == k;
                if other != id {
                    assert(ids.contains(other));
                }
            }
        }
        if before.closed.current.contains_key(id) {
            assert(after.clients =~= before.clients.remove(key));
        } else {
            if self.closed.current.contains_key(id) {
                assert(ids.contains(id));
                assert(self.keys_of(ids).contains(key));
            }
            assert(after.clients =~= before.clients);
        }
    }

    /// Forgetting nothing changes nothing.
    pub proof fn lemma_forget_none(self)
        ensures
            self.forget(Set::empty()) == self,
    {
        crate::collections::model::lemma_remove_none(self.closed);
        assert(self.keys_of(Set::empty()) =~= Set::empty());
        assert(self.clients.remove_keys(Set::empty()) =~= self.clients);
    }

    /// Forgetting some orders and then others forgets all of them.
    pub proof fn lemma_forget_union(self, a: Set<Id>, b: Set<Id>)
        ensures
            self.forget(a).forget(b) == self.forget(a.union(b)),
    {
        let mid = self.forget(a);
        let both = a.union(b);
        assert(mid.closed.remove_all(b) =~= self.closed.remove_all(both));
        assert forall|k: Seq<char>| #[trigger] self.keys_of(both).contains(k) <==> (self.keys_of(
            a,
        ).contains(k) || mid.keys_of(b).contains(k)) by {
            if self.keys_of(both).contains(k) {
                let id = choose|id: Id| #[trigger]
                    both.contains(id) && self.closed.current.contains_key(id)
                        && self.closed.current[id].key() == k;
                if !a.contains(id) {
                    assert(b.contains(id));
                    assert(mid.closed.current.contains_key(id));
                }
            }
            if self.keys_of(a).contains(k) {
                let id = choose|id: Id| #[trigger]
                    a.contains(id) && self.closed.current.contains_key(id)
                        && self.closed.current[id].key() == k;
                assert(both.contains(id));
            }
            if mid.keys_of(b).contains(k) {
                let id = choose|id: Id| #[trigger]
                    b.contains(id) && mid.closed.current.contains_key(id)
                        && mid.closed.current[id].key() == k;
                assert(both.contains(id));
            }
        }
        assert(mid.clients.remove_keys(mid.keys_of(b)) =~= self.clients.remove_keys(
            self.keys_of(both),
        ));
    }
}

} // verus!
