//! The matcher: sequence numbers, and the order book behind them.

use crate::order::{ClientId, Id, Order};
use crate::order::book::{BookState, Depth, DepthItem, Error, HotBook, SnapshotableBook};
use crate::order::book::warm_book::WarmBook;
use crate::order::book::warm_model::WarmModel;
use crate::sequence::SeqNo;
use crate::trade::Trade;
use crate::user;
use vstd::prelude::*;

verus! {

/// A thin orchestrator over an order book that:
/// - assigns sequential IDs to new orders,
/// - forwards operations to the underlying WarmBook,
/// - guards the sequence counter by rolling it back on failures,
/// - and provides snapshot metadata for external persistence.
pub struct Matcher<T: HotBook + SnapshotableBook> {
    book: WarmBook<T>,
    last_seq: SeqNo,
    last_archived_seq: SeqNo,
    ready: bool,
}

/// Minimal metadata returned together with a snapshot stream.
///
/// This allows a consumer to persist snapshot progress and later restore the
/// matcher state using [`Matcher::init`].
pub struct SnapshotMetadata {
    /// The last known sequence value at the time the snapshot started.
    pub last_seq: SeqNo,
    /// The last archived (durably persisted) sequence value known to the caller.
    pub last_archived_seq: SeqNo,
}

/// The state of a matcher.
#[verifier::ext_equal]
pub struct MatcherModel {
    pub warm: WarmModel,
    pub last_seq: SeqNo,
    pub last_archived_seq: SeqNo,
    pub ready: bool,
}

impl MatcherModel {
    /// The sequence number after the last one.
    pub open spec fn next_seq(self) -> SeqNo {
        (self.last_seq + 1) as u64
    }

    /// `order`, with the id that it would get.
    pub open spec fn numbered(self, order: Order) -> Order {
        Order { id: self.next_seq(), ..order }
    }

    /// Why `order` would be refused, if it would be.
    pub open spec fn refusal(self, order: Order) -> Option<Error> {
        if !self.ready {
            Some(Error::NotReady)
        } else if self.warm.clients.contains_key(order.key()) {
            Some(Error::OrderClientIdExists(order.client_id))
        } else if self.warm.hot.orders.contains_key(self.next_seq()) {
            Some(Error::OrderIdExists(self.next_seq()))
        } else {
            None
        }
    }

    /// `order` has been added under the next sequence number.
    pub open spec fn add(self, order: Order) -> MatcherModel {
        MatcherModel {
            warm: self.warm.add(self.numbered(order)),
            last_seq: self.next_seq(),
            ..self
        }
    }

    /// The order `id` has been canceled at the next sequence number.
    pub open spec fn cancel(self, id: Id) -> MatcherModel {
        MatcherModel {
            warm: self.warm.cancel(id, self.next_seq()),
            last_seq: self.next_seq(),
            ..self
        }
    }

    /// The open orders have been matched.
    pub open spec fn matched(self) -> MatcherModel {
        MatcherModel { warm: self.warm.matched(), ..self }
    }

    /// Closures up to `seq` are archived, and the orders they closed are gone.
    pub open spec fn archived(self, seq: SeqNo) -> MatcherModel {
        MatcherModel { warm: self.warm.evict(seq), last_archived_seq: seq, ..self }
    }

    /// No order, open or closed, has an id above the last sequence number.
    pub open spec fn ids_within_sequence(self) -> bool {
        &&& forall|id: Id| #[trigger]
            self.warm.hot.orders.contains_key(id) ==> id <= self.last_seq
        &&& forall|id: Id| #[trigger]
            self.warm.closed.current.contains_key(id) ==> id <= self.last_seq
    }

    /// What holds of every matcher that began with no orders: its open and closed orders, its
    /// index and its sequence fit together.
    pub open spec fn in_order(self) -> bool {
        &&& self.warm.hot.valid()
        &&& self.warm.consistent()
        &&& self.warm.indexed()
        &&& self.warm.only_known()
        &&& self.ids_within_sequence()
    }
}

/// Where no order has an id above the last sequence number, no new order is refused for its id;
/// and adding, canceling, matching and archiving keep it so.
pub proof fn law_ids_stay_within_sequence(m: MatcherModel, order: Order, id: Id, seq: SeqNo)
    requires
        m.warm.hot.valid(),
        m.ids_within_sequence(),
        m.last_seq < u64::MAX,
    ensures
        m.warm.find(m.next_seq()) is None,
        m.refusal(order) != Some(Error::OrderIdExists(m.next_seq())),
        m.add(order).ids_within_sequence(),
        m.warm.hot.orders.contains_key(id) ==> m.cancel(id).ids_within_sequence(),
        m.matched().ids_within_sequence(),
        m.archived(seq).ids_within_sequence(),
{
    if m.warm.hot.orders.contains_key(id) {
        assert(m.warm.hot.order_valid(id));
    }
    m.warm.lemma_matched_hot();
    assert forall|other: Id| #[trigger]
        m.matched().warm.hot.orders.contains_key(other) implies other <= m.last_seq by {
        if !m.warm.hot.orders.contains_key(other) {
            m.warm.hot.lemma_never_open(other);
        }
    }
    let out = m.warm.hot.matched();
    m.warm.hot.law_closed_orders();
    WarmModel { hot: out.book, ..m.warm }.lemma_kept_ids(out.closed);
    assert forall|other: Id| #[trigger]
        m.matched().warm.closed.current.contains_key(other) implies other <= m.last_seq by {
        if !m.warm.closed.current.contains_key(other) {
            let i = choose|i: int| 0 <= i < out.closed.len() && (#[trigger] out.closed[i]).id == other;
            assert(m.warm.hot.closes(out.closed[i]));
        }
    }
}

/// A matcher that is in order stays so, whatever it does; a new one, over no orders, is in order.
pub proof fn law_matcher_stays_in_order(m: MatcherModel, order: Order, id: Id, seq: SeqNo)
    requires
        m.in_order(),
        m.last_seq < u64::MAX,
    ensures
        m.refusal(order) is None && order.closed_by is None && m.warm.hot.accepts(m.numbered(order))
            ==> m.add(order).in_order(),
        m.warm.hot.orders.contains_key(id) ==> m.cancel(id).in_order(),
        m.matched().in_order(),
        m.archived(seq).in_order(),
        (MatcherModel {
            warm: WarmModel::over(crate::order::book::model::BookModel::empty(), None),
            ..m
        }).in_order(),
{
    let numbered = m.numbered(order);
    law_ids_stay_within_sequence(m, order, id, seq);
    m.warm.law_stays_consistent(numbered, id, m.next_seq());
    m.warm.law_index_is_kept(numbered, id, m.next_seq());
    m.warm.law_only_known_orders_are_noted(numbered, id, m.next_seq());
    m.warm.law_stays_consistent(numbered, id, seq);
    m.warm.law_index_is_kept(numbered, id, seq);
    m.warm.law_only_known_orders_are_noted(numbered, id, seq);
    m.warm.lemma_matched_hot();
    m.warm.hot.law_matching_keeps_valid();
    crate::order::book::recovery::law_new_book_is_in_order(None);
    if m.refusal(order) is None && m.warm.hot.accepts(numbered) {
        m.warm.hot.lemma_add(numbered);
    }
    if m.warm.hot.orders.contains_key(id) {
        m.warm.hot.lemma_remove(id);
    }
}

/// A matcher that is ready and in order refuses a new order exactly if it knows of an open or
/// closed order of the same user with the same client id; otherwise the order is found by its new
/// id and by its client id.
pub proof fn law_matcher_refuses_known_pairs(m: MatcherModel, order: Order)
    requires
        m.ready,
        m.in_order(),
        m.last_seq < u64::MAX,
    ensures
        m.refusal(order) == if m.warm.knows_pair(order.user_id@, order.client_id@) {
            Some(Error::OrderClientIdExists(order.client_id))
        } else {
            None
        },
        m.refusal(order) is None ==> {
            &&& m.add(order).warm.find(m.next_seq()) == Some(m.numbered(order))
            &&& m.add(order).warm.find_by_key(order.key()) == Some(m.numbered(order))
        },
{
    law_ids_stay_within_sequence(m, order, 0, 0);
    m.warm.law_add_refuses_known_pairs(m.numbered(order));
}

/// A snapshot of a matcher, restored into a new matcher that is initialized with its metadata,
/// brings the matcher back: the same open and closed orders are found, the same depth is shown, the
/// next order gets the same id, and what was archived stays archived.
pub proof fn law_snapshot_restores_matcher(m: MatcherModel, open: Seq<Order>, closed: Seq<Order>)
    requires
        m.warm.hot.valid(),
        m.warm.consistent(),
        crate::order::book::lists_all(open.map_values(|o: Order| Some(o)), m.warm.hot.orders),
        crate::order::book::lists_all(closed.map_values(|o: Order| Some(o)), m.warm.closed.current),
    ensures
        ({
            let fresh = WarmModel::over(crate::order::book::model::BookModel::empty(), None);
            let back = MatcherModel {
                warm: fresh.reloaded(open + closed),
                last_seq: m.last_seq,
                last_archived_seq: m.last_archived_seq,
                ready: true,
            };
            &&& fresh.reloadable(open + closed)
            &&& back.warm.hot.valid()
            &&& back.warm.consistent()
            &&& m.warm.indexed() ==> back.warm.indexed() && back.warm.only_known()
            &&& m.ids_within_sequence() ==> back.ids_within_sequence()
            &&& back.next_seq() == m.next_seq()
            &&& forall|id: Id| #[trigger] back.warm.find(id) == m.warm.find(id)
            &&& forall|side: crate::order::Side, limit: nat, items: Seq<DepthItem>| #[trigger]
                m.warm.hot.shows(side, limit, items) ==> back.warm.hot.shows(side, limit, items)
        }),
{
    crate::order::book::recovery::law_snapshot_restores_orders(m.warm, open, closed);
}

/// After an accepted order, the order found under the new id, which is the next sequence number,
/// and under its client id agrees with the order handed in in every field but the id. No other
/// order changes.
pub proof fn law_accepted_orders_are_found_as_they_are(m: MatcherModel, order: Order, other: Id)
    requires
        m.ids_within_sequence(),
        m.last_seq < u64::MAX,
        m.refusal(order) is None,
    ensures
        ({
            let id = (m.last_seq + 1) as u64;
            let key = crate::order::client_key(order.user_id@, order.client_id@);
            let after = m.add(order);
            &&& after.last_seq == m.last_seq + 1
            &&& after.last_archived_seq == m.last_archived_seq
            &&& after.ready == m.ready
            &&& m.warm.find(id) is None
            &&& after.warm.hot.orders.contains_key(id)
            &&& after.warm.find(id) == Some(after.warm.hot.orders[id])
            &&& after.warm.find_by_key(key) == after.warm.find(id)
            &&& after.warm.find(id) matches Some(found)
            &&& found.id == id
            &&& found.user_id == order.user_id
            &&& found.client_id == order.client_id
            &&& found.side == order.side
            &&& found.price == order.price
            &&& found.volume == order.volume
            &&& found.executed_volume == order.executed_volume
            &&& found.executed_price == order.executed_price
            &&& found.status == order.status
            &&& found.closed_by == order.closed_by
            &&& other != id ==> after.warm.find(other) == m.warm.find(other)
            &&& after.warm == m.warm.add(found)
        }),
{
}

/// A canceled order is found as canceled at the next sequence number, and is open no more; all else
/// of it is what it was, and no other order changes.
pub proof fn law_canceled_orders_are_found_as_they_were(m: MatcherModel, id: Id, other: Id)
    requires
        m.warm.hot.valid(),
        m.warm.hot.orders.contains_key(id),
        m.last_seq < u64::MAX,
    ensures
        ({
            let open = m.warm.hot.orders[id];
            let after = m.cancel(id);
            &&& after.last_seq == m.last_seq + 1
            &&& after.last_archived_seq == m.last_archived_seq
            &&& after.ready == m.ready
            &&& !after.warm.hot.orders.contains_key(id)
            &&& after.warm.find(id) matches Some(found)
            &&& found.status == crate::order::Status::Canceled
            &&& found.closed_by == Some((m.last_seq + 1) as u64)
            &&& found.id == id
            &&& found.user_id == open.user_id
            &&& found.client_id == open.client_id
            &&& found.side == open.side
            &&& found.price == open.price
            &&& found.volume == open.volume
            &&& found.executed_volume == open.executed_volume
            &&& found.executed_price == open.executed_price
            &&& other != id ==> after.warm.find(other) == m.warm.find(other)
            &&& after.warm == m.warm.cancel(id, (m.last_seq + 1) as u64)
        }),
{
    assert(m.warm.hot.order_valid(id));
}

/// Matching and archiving use up no sequence number, and archiving notes the number that it was
/// told.
pub proof fn law_sequence_counts_orders_and_cancels_only(m: MatcherModel, seq: SeqNo)
    ensures
        m.matched().last_seq == m.last_seq,
        m.matched().last_archived_seq == m.last_archived_seq,
        m.matched().ready == m.ready,
        m.matched().warm == m.warm.matched(),
        m.matched().warm.hot == m.warm.hot.matched().book,
        m.archived(seq).last_seq == m.last_seq,
        m.archived(seq).last_archived_seq == seq,
        m.archived(seq).ready == m.ready,
        m.archived(seq).warm == m.warm.evict(seq),
        m.archived(seq).warm.hot == m.warm.hot,
{
    m.warm.lemma_matched_hot();
}

/// Archiving up to a number lets go of what was closed by then, and of nothing else: an order that
/// was closed later is found as before, by its id and by its client id, and so is an open one.
pub proof fn law_archiving_goes_by_the_closing_number(m: MatcherModel, seq: SeqNo, id: Id)
    requires
        m.in_order(),
        m.warm.find(id) is Some,
    ensures
        ({
            let order = m.warm.find(id)->0;
            let key = crate::order::client_key(order.user_id@, order.client_id@);
            let after = m.archived(seq).warm;
            if order.closed_by is Some && order.closed_by->0 <= seq {
                &&& after.find(id) is None
                &&& after.find_by_key(key) is None
            } else {
                &&& after.find(id) == Some(order)
                &&& after.find_by_key(key) == Some(order)
            }
        }),
{
    if m.warm.closed.current.contains_key(id) {
        crate::order::book::warm_laws::law_eviction_goes_by_the_closing_number(m.warm, seq, id);
    } else {
        crate::order::book::warm_laws::law_eviction_leaves_open_orders_alone(
            m.warm,
            seq,
            id,
            Seq::empty(),
            (0, 0),
        );
    }
}

/// A matcher that is not ready refuses every order for that; one that is ready refuses an order for
/// its client id exactly if an open or closed order of the same user has it, and for nothing else.
pub proof fn law_orders_are_refused_for_cause(m: MatcherModel, order: Order, id: Id)
    requires
        m.in_order(),
        m.last_seq < u64::MAX,
    ensures
        !m.ready <==> m.refusal(order) == Some(Error::NotReady),
        m.ready && m.refusal(order) is Some ==> {
            &&& m.refusal(order) == Some(Error::OrderClientIdExists(order.client_id))
            &&& exists|known: Id|
                {
                    &&& #[trigger] m.warm.find(known) is Some
                    &&& m.warm.find(known)->0.user_id@ == order.user_id@
                    &&& m.warm.find(known)->0.client_id@ == order.client_id@
                }
        },
        m.warm.hot.orders.contains_key(id) && m.warm.hot.orders[id].user_id@ == order.user_id@
            && m.warm.hot.orders[id].client_id@ == order.client_id@ ==> m.refusal(order) is Some,
        m.warm.closed.current.contains_key(id) && m.warm.closed.current[id].user_id@
            == order.user_id@ && m.warm.closed.current[id].client_id@ == order.client_id@
            ==> m.refusal(order) is Some,
{
    if m.ready {
        law_matcher_refuses_known_pairs(m, order);
        assert(m.warm.find(id) == m.warm.find(id));
    }
}

impl<T: HotBook + SnapshotableBook> Matcher<T> {
    /// The book behind the matcher is sound, and a snapshot that is in progress covers the open
    /// orders too.
    pub closed spec fn wf(&self) -> bool {
        &&& self.book.wf()
        &&& self.book.warm().stream is Some ==> self.book.warm().hot_pending is Some
    }

    /// The state of the matcher.
    pub closed spec fn state(&self) -> MatcherModel {
        MatcherModel {
            warm: self.book.warm(),
            last_seq: self.last_seq,
            last_archived_seq: self.last_archived_seq,
            ready: self.ready,
        }
    }

    /// A sound matcher has a valid model of its open orders.
    pub proof fn lemma_wf(&self)
        requires
            self.wf(),
        ensures
            self.state().warm.hot.valid(),
    {
        self.book.lemma_warm_wf();
    }

    /// Create a new matcher around the given hot book, with the sequence at its start.
    pub fn new(book: T) -> (res: Self)
        requires
            book.wf(),
        ensures
            res.wf(),
            res.state() == (MatcherModel {
                warm: WarmModel::over(book.model(), book.pending()),
                last_seq: 0,
                last_archived_seq: 0,
                ready: false,
            }),
    {
        Matcher { book: WarmBook::new(book), last_seq: 0, last_archived_seq: 0, ready: false }
    }

    /// Add a new order, assigning it the next sequential ID.
    ///
    /// On error the internal sequence is rolled back to avoid gaps.
    pub fn add_order(&mut self, mut order: Order) -> (res: Result<(), Error>)
        requires
            old(self).wf(),
            old(self).state().ready ==> old(self).state().last_seq < u64::MAX,
            old(self).state().refusal(order) is None ==> old(self).state().warm.hot.accepts(
                old(self).state().numbered(order),
            ),
        ensures
            final(self).wf(),
            match old(self).state().refusal(order) {
                None => {
                    &&& res == Ok::<(), Error>(())
                    &&& final(self).state() == old(self).state().add(order)
                },
                Some(e) => {
                    &&& res == Err::<(), Error>(e)
                    &&& final(self).state() == old(self).state()
                },
            },
    {
        if !self.ready {
            return Err(Error::NotReady);
        }
        self.last_seq = self.last_seq + 1;
        order.id = self.last_seq;
        match self.book.add(order) {
            Ok(()) => Ok(()),
            Err(e) => {
                self.last_seq = self.last_seq - 1;
                Err(e)
            },
        }
    }

    /// Run the matching engine until no more crossing prices remain.
    pub fn match_orders(&mut self) -> (res: Result<(Vec<Trade>, Vec<Order>), Error>)
        requires
            old(self).wf(),
            old(self).state().ready ==> old(self).state().warm.hot.matchable(),
        ensures
            final(self).wf(),
            match res {
                Ok(found) => {
                    let outcome = old(self).state().warm.hot.matched();
                    &&& old(self).state().ready
                    &&& final(self).state() == old(self).state().matched()
                    &&& found.0@.map_values(|t: Trade| t@) == outcome.trades
                    &&& found.1@ == outcome.closed
                },
                Err(e) => {
                    &&& !old(self).state().ready
                    &&& e == Error::NotReady
                    &&& final(self).state() == old(self).state()
                },
            },
    {
        if !self.ready {
            return Err(Error::NotReady);
        }
        let found = self.book.match_orders();
        proof {
            old(self).book.warm().lemma_matched_hot();
        }
        Ok(found)
    }

    /// Convenience function: add an order and immediately try to match.
    pub fn add_and_match(&mut self, order: Order) -> (res: Result<
        (Vec<Trade>, Vec<Order>),
        Error,
    >)
        requires
            old(self).wf(),
            old(self).state().ready ==> old(self).state().last_seq < u64::MAX,
            old(self).state().refusal(order) is None ==> {
                &&& old(self).state().warm.hot.accepts(old(self).state().numbered(order))
                &&& old(self).state().add(order).warm.hot.matchable()
            },
        ensures
            final(self).wf(),
            match res {
                Ok(found) => {
                    let added = old(self).state().add(order);
                    &&& old(self).state().refusal(order) is None
                    &&& final(self).state() == added.matched()
                    &&& found.0@.map_values(|t: Trade| t@) == added.warm.hot.matched().trades
                    &&& found.1@ == added.warm.hot.matched().closed
                },
                Err(e) => {
                    &&& old(self).state().refusal(order) == Some(e)
                    &&& final(self).state() == old(self).state()
                },
            },
    {
        match self.add_order(order) {
            Ok(()) => self.match_orders(),
            Err(e) => Err(e),
        }
    }

    /// Cancel an order by its internal ID.
    ///
    /// The cancel operation consumes a new sequence number; on failure the
    /// sequence is rolled back to avoid gaps.
    pub fn cancel_order(&mut self, id: Id) -> (res: Result<Order, Error>)
        requires
            old(self).wf(),
            old(self).state().ready ==> old(self).state().last_seq < u64::MAX,
        ensures
            final(self).wf(),
            ({
                let state = old(self).state();
                if !state.ready {
                    &&& res == Err::<Order, Error>(Error::NotReady)
                    &&& final(self).state() == state
                } else if !state.warm.hot.orders.contains_key(id) {
                    &&& res == Err::<Order, Error>(Error::OrderIdNotFound(id))
                    &&& final(self).state() == state
                } else {
                    &&& res == Ok::<Order, Error>(
                        state.warm.hot.orders[id].canceled(state.next_seq()),
                    )
                    &&& final(self).state() == state.cancel(id)
                }
            }),
    {
        if !self.ready {
            return Err(Error::NotReady);
        }
        self.last_seq = self.last_seq + 1;
        match self.book.cancel(id, self.last_seq) {
            Ok(order) => Ok(order),
            Err(e) => {
                self.last_seq = self.last_seq - 1;
                Err(e)
            },
        }
    }

    /// Cancel an order by `(user_id, client_id)` pair.
    ///
    /// Consumes a new sequence on success; rolls back on error.
    pub fn cancel_by_client_id(&mut self, user_id: user::Id, client_id: ClientId) -> (res: Result<
        Order,
        Error,
    >)
        requires
            old(self).wf(),
            old(self).state().ready ==> old(self).state().last_seq < u64::MAX,
        ensures
            final(self).wf(),
            ({
                let state = old(self).state();
                let key = crate::order::client_key(user_id@, client_id@);
                let id = state.warm.clients[key];
                if !state.ready {
                    &&& res == Err::<Order, Error>(Error::NotReady)
                    &&& final(self).state() == state
                } else if !state.warm.clients.contains_key(key) {
                    &&& res == Err::<Order, Error>(Error::OrderClientIdNotFound(client_id))
                    &&& final(self).state() == state
                } else if !state.warm.hot.orders.contains_key(id) {
                    &&& res == Err::<Order, Error>(Error::OrderIdNotFound(id))
                    &&& final(self).state() == state
                } else {
                    &&& res == Ok::<Order, Error>(
                        state.warm.hot.orders[id].canceled(state.next_seq()),
                    )
                    &&& final(self).state() == state.cancel(id)
                }
            }),
    {
        if !self.ready {
            return Err(Error::NotReady);
        }
        self.last_seq = self.last_seq + 1;
        match self.book.cancel_by_client_id(user_id, client_id, self.last_seq) {
            Ok(order) => Ok(order),
            Err(e) => {
                self.last_seq = self.last_seq - 1;
                Err(e)
            },
        }
    }

    /// Get aggregated depth up to `limit` levels per side.
    pub fn depth(&self, limit: usize) -> (res: Result<Depth, Error>)
        requires
            self.wf(),
        ensures
            match res {
                Ok(depth) => {
                    let hot = self.state().warm.hot;
                    &&& self.state().ready
                    &&& hot.shows(crate::order::Side::Bid, limit as nat, depth.bids@)
                    &&& hot.shows(crate::order::Side::Ask, limit as nat, depth.asks@)
                },
                Err(e) => !self.state().ready && e == Error::NotReady,
            },
    {
        if !self.ready {
            return Err(Error::NotReady);
        }
        Ok(self.book.depth(limit))
    }

    /// Lookup an order by internal `Id` from active or recently closed orders.
    pub fn lookup(&self, id: Id) -> (res: Result<Option<Order>, Error>)
        requires
            self.wf(),
        ensures
            res == if self.state().ready {
                Ok::<Option<Order>, Error>(self.state().warm.find(id))
            } else {
                Err(Error::NotReady)
            },
    {
        if !self.ready {
            return Err(Error::NotReady);
        }
        Ok(self.book.lookup(id))
    }

    /// Lookup an order by `(user_id, client_id)`.
    pub fn lookup_by_client_id(&self, user_id: user::Id, client_id: ClientId) -> (res: Result<
        Option<Order>,
        Error,
    >)
        requires
            self.wf(),
        ensures
            res == if self.state().ready {
                Ok::<Option<Order>, Error>(
                    self.state().warm.find_by_key(
                        crate::order::client_key(user_id@, client_id@),
                    ),
                )
            } else {
                Err(Error::NotReady)
            },
    {
        if !self.ready {
            return Err(Error::NotReady);
        }
        Ok(self.book.lookup_by_client_id(user_id, client_id))
    }

    /// Begin a snapshot of the open and the recently closed orders, and return associated
    /// metadata.
    pub fn take_snapshot(&mut self) -> (res: Result<SnapshotMetadata, Error>)
        requires
            old(self).wf(),
        ensures
            final(self).wf(),
            match res {
                Ok(metadata) => {
                    let state = old(self).state();
                    &&& state.ready
                    &&& state.warm.hot_pending is None
                    &&& metadata.last_seq == state.last_seq
                    &&& metadata.last_archived_seq == state.last_archived_seq
                    &&& final(self).state() == (MatcherModel {
                        warm: WarmModel {
                            closed: state.warm.closed.begin(),
                            stream: final(self).state().warm.stream,
                            hot_pending: final(self).state().warm.hot_pending,
                            ..state.warm
                        },
                        ..state
                    })
                    &&& final(self).state().warm.hot_pending matches Some(open)
                    &&& crate::order::book::lists_all(open, state.warm.hot.orders)
                    &&& final(self).state().warm.pending() matches Some(closed)
                    &&& crate::order::book::lists_all(closed, state.warm.closed.current)
                    &&& final(self).state().warm.streams(state.warm.closed.current)
                },
                Err(e) => {
                    let state = old(self).state();
                    &&& if state.ready {
                        &&& state.warm.hot_pending is Some
                        &&& e == Error::AnotherSnapshotAlreadyTaken
                    } else {
                        e == Error::NotReady
                    }
                    &&& final(self).state() == state
                },
            },
    {
        if !self.ready {
            return Err(Error::NotReady);
        }
        match self.book.take_full_snapshot() {
            Ok(()) => Ok(
                SnapshotMetadata {
                    last_seq: self.last_seq,
                    last_archived_seq: self.last_archived_seq,
                },
            ),
            Err(e) => Err(e),
        }
    }

    /// End the currently active snapshot session.
    pub fn end_snapshot(&mut self) -> (res: Result<(), Error>)
        requires
            old(self).wf(),
        ensures
            final(self).wf(),
            ({
                let state = old(self).state();
                if state.warm.stream is Some {
                    &&& res == Ok::<(), Error>(())
                    &&& final(self).state() == (MatcherModel {
                        warm: WarmModel {
                            closed: state.warm.closed.end(),
                            stream: None,
                            hot_pending: None,
                            ..state.warm
                        },
                        ..state
                    })
                } else {
                    &&& res == Err::<(), Error>(Error::NoSnapshotTaken)
                    &&& final(self).state() == state
                }
            }),
    {
        self.book.end_full_snapshot()
    }

    /// Retrieve up to `limit` orders from the in-progress snapshot, the open ones first.
    pub fn snapshot_batch(&mut self, limit: usize) -> (res: Result<Option<Vec<Order>>, Error>)
        requires
            old(self).wf(),
            crate::order::book::batch_readable(
                old(self).state().warm.pending_all(),
                limit as nat,
            ),
        ensures
            final(self).wf(),
            final(self).state() == (MatcherModel {
                warm: WarmModel {
                    hot_pending: final(self).state().warm.hot_pending,
                    stream: final(self).state().warm.stream,
                    ..old(self).state().warm
                },
                ..old(self).state()
            }),
            match old(self).state().warm.pending_all() {
                Some(p) => {
                    let n = crate::order::book::batch_size(p, limit as nat);
                    &&& final(self).state().warm.pending_all() == Some(p.skip(n as int))
                    &&& match res {
                        Ok(Some(orders)) => n > 0 && orders@.map_values(|o: Order| Some(o))
                            == p.take(n as int),
                        Ok(None) => n == 0,
                        Err(_) => false,
                    }
                },
                None => {
                    &&& res == Err::<Option<Vec<Order>>, Error>(Error::NoSnapshotTaken)
                    &&& final(self).state() == old(self).state()
                },
            },
    {
        self.book.full_snapshot_batch(limit)
    }

    /// Restore a batch of orders (previously taken via snapshot) into the book.
    pub fn restore_snapshot_batch(&mut self, orders: Vec<Order>) -> (res: Result<(), Error>)
        requires
            old(self).wf(),
            old(self).state().warm.reloadable(orders@),
        ensures
            final(self).wf(),
            res == Ok::<(), Error>(()),
            final(self).state() == (MatcherModel {
                warm: old(self).state().warm.reloaded(orders@),
                ..old(self).state()
            }),
    {
        let ghost start = self.book.warm();
        let ghost batch = orders@;
        let mut at: usize = 0;
        assert(batch.take(0) =~= Seq::empty());
        while at < orders.len()
            invariant
                at <= orders@.len(),
                orders@ == batch,
                start.reloadable(batch),
                self.wf(),
                self.state() == (MatcherModel {
                    warm: start.reloaded(batch.take(at as int)),
                    ..old(self).state()
                }),
            decreases orders@.len() - at,
        {
            proof {
                start.lemma_reload_step(batch, at as int);
            }
            self.book.reload(&orders[at]);
            at = at + 1;
        }
        assert(batch.take(at as int) =~= batch);
        Ok(())
    }

    /// Initialize the matcher from snapshot metadata.
    pub fn init(&mut self, metadata: SnapshotMetadata)
        requires
            old(self).wf(),
        ensures
            final(self).wf(),
            final(self).state() == (MatcherModel {
                last_seq: metadata.last_seq,
                last_archived_seq: metadata.last_archived_seq,
                ready: true,
                ..old(self).state()
            }),
    {
        self.last_seq = metadata.last_seq;
        self.last_archived_seq = metadata.last_archived_seq;
        self.ready = true;
    }

    /// Updates last archived seq and evicts closed orders from the warm book up to that seq.
    pub fn set_archived_seq(&mut self, seq: SeqNo)
        requires
            old(self).wf(),
        ensures
            final(self).wf(),
            final(self).state() == old(self).state().archived(seq),
    {
        self.last_archived_seq = seq;
        self.book.evict_closed_orders(seq);
    }
}

} // verus!
