//! Warm book wrapper for an in-memory order book.
//!
//! WarmBook sits on top of a HotBook implementation and augments it with a
//! small, in-memory cache of recently closed orders. This allows lookups of
//! orders that are no longer active (e.g., fully filled or canceled) without
//! having to query a slower archival storage.
//!
//! Lifecycle and retention:
//! - Active orders live solely in the underlying `HotBook`.
//! - When orders are closed (either by cancellation or matching), they are
//!   copied into `WarmBook::closed_orders` for a short period, so they can be
//!   retrieved via `lookup`/`lookup_by_client_id` after they leave the active
//!   book.
//! - Closed orders should eventually be archived to a persistent storage system
//!   and then removed from memory to bound RAM usage.

use crate::collections::hash_map::SnapshotableHashMap;
use crate::collections::key_order::first_key;
use crate::order::{ClientId, Id, Order};
use crate::order::book::{BookState, Depth, Error, HotBook, Pending, SnapshotableBook};
use crate::order::book::model::BookModel;
use crate::order::book::warm_model::WarmModel;
use crate::sequence::SeqNo;
use crate::trade::Trade;
use crate::user;
use std::collections::BTreeMap;
use vstd::hash_map::StringHashMap;
use vstd::prelude::*;

verus! {

broadcast use {
    vstd::std_specs::hash::group_hash_axioms,
    vstd::std_specs::btree::group_btree_axioms,
    vstd::laws_cmp::group_laws_cmp,
};

/// A lightweight iterator-like state used during full order book snapshots.
#[derive(Debug)]
struct Snapshot {
    /// Frozen list of order ids captured at the moment `take_snapshot` was
    /// called.
    keys: Vec<Id>,
    /// Current position within `keys` indicating how many orders have already
    /// been emitted via `snapshot_batch`.
    cursor: usize,
}

/// The pairs of sequence number and order id that the batches hold.
spec fn pairs(batches: Map<SeqNo, Vec<Id>>) -> Set<(SeqNo, Id)> {
    Set::new(|c: (SeqNo, Id)| batches.contains_key(c.0) && batches[c.0]@.contains(c.1))
}

/// Order ids work as keys of a hash map.
proof fn lemma_ids_are_lawful()
    ensures
        crate::collections::hash_map::lawful_key::<Id>(),
{
}

/// A wrapper around a `HotBook` that tracks recently closed orders in memory
/// for quick lookup by ID or by user/client ID pair.
///
/// Type parameter `T` is any order book implementation that satisfies the
/// `HotBook` trait.
pub struct WarmBook<T: HotBook> {
    hot_book: T,
    /// Maps formatted `user_id:client_id` texts to internal order IDs to
    /// support client-side identifiers.
    client_id_to_order_id: StringHashMap<Id>,
    /// In-memory store of recently closed orders (canceled or fully filled).
    /// These entries are intended to be short-lived.
    closed_orders: SnapshotableHashMap<Id, Order>,
    /// Batches of closed orders, by the sequence at which they were closed.
    ///
    /// The smallest closing seq is always the first key. This structure is
    /// consumed by `evict_closed_orders` to efficiently remove all closed
    /// orders up to and including a given archived seq, after they have been
    /// persisted to durable storage.
    closed_orders_by_seq: BTreeMap<SeqNo, Vec<Id>>,
    snapshot: Option<Snapshot>,
}

impl<T: HotBook> BookState for WarmBook<T> {
    closed spec fn wf(&self) -> bool {
        &&& self.hot_book.wf()
        &&& self.snapshot is Some <==> self.closed_orders@.session is Some
        &&& self.snapshot matches Some(s) ==> s.cursor <= s.keys@.len()
    }

    open spec fn model(&self) -> BookModel {
        self.warm().hot
    }

    open spec fn source(&self) -> Map<Id, Order> {
        self.warm().closed.current
    }

    open spec fn pending(&self) -> Option<Pending> {
        self.warm().pending()
    }
}

impl<T: HotBook> WarmBook<T> {
    /// The orders that the book knows of.
    pub closed spec fn warm(&self) -> WarmModel {
        WarmModel {
            hot: self.hot_book.model(),
            hot_pending: self.hot_book.pending(),
            clients: self.client_id_to_order_id@,
            closed: self.closed_orders@,
            closing: pairs(self.closed_orders_by_seq@),
            stream: match self.snapshot {
                Some(s) => Some(s.keys@.skip(s.cursor as int)),
                None => None,
            },
        }
    }

    /// A sound warm book has a valid model of its open orders.
    pub proof fn lemma_warm_wf(&self)
        requires
            self.wf(),
        ensures
            self.warm().hot.valid(),
    {
        self.hot_book.lemma_wf();
    }

    /// Create a new warm book wrapper over the provided hot book.
    pub fn new(hot_book: T) -> (res: Self)
        requires
            hot_book.wf(),
        ensures
            res.wf(),
            res.warm() == WarmModel::over(hot_book.model(), hot_book.pending()),
    {
        let res = WarmBook {
            hot_book,
            client_id_to_order_id: StringHashMap::new(),
            closed_orders: SnapshotableHashMap::default(),
            closed_orders_by_seq: BTreeMap::new(),
            snapshot: None,
        };
        assert(res.warm() =~= WarmModel::over(hot_book.model(), hot_book.pending()));
        res
    }

    /// Add a new order to the underlying hot book.
    ///
    /// Returns an error if the `(user_id, client_id)` pair already exists.
    /// On success, the mapping from client ID to order ID is recorded for
    /// later lookup.
    pub fn add(&mut self, order: Order) -> (res: Result<(), Error>)
        requires
            old(self).wf(),
            !old(self).warm().clients.contains_key(order.key()) && !old(
                self,
            ).warm().hot.orders.contains_key(order.id) ==> old(self).warm().hot.accepts(order),
        ensures
            final(self).wf(),
            if old(self).warm().clients.contains_key(order.key()) {
                &&& res == Err::<(), Error>(Error::OrderClientIdExists(order.client_id))
                &&& final(self).warm() == old(self).warm()
            } else if old(self).warm().hot.orders.contains_key(order.id) {
                &&& res == Err::<(), Error>(Error::OrderIdExists(order.id))
                &&& final(self).warm() == old(self).warm()
            } else {
                &&& res == Ok::<(), Error>(())
                &&& final(self).warm() == old(self).warm().add(order)
            },
    {
        let user_client_id = order.user_client_id();
        let order_id = order.id;
        if self.client_id_to_order_id.contains_key(user_client_id.as_str()) {
            return Err(Error::OrderClientIdExists(order.client_id));
        }
        match self.hot_book.add(order) {
            Ok(()) => {
                self.client_id_to_order_id.insert(user_client_id, order_id);
                assert(self.warm() =~= old(self).warm().add(order));
                Ok(())
            },
            Err(e) => {
                assert(self.warm() =~= old(self).warm());
                Err(e)
            },
        }
    }

    /// Notes that an order was closed at `seq`.
    fn note_closed(&mut self, seq: SeqNo, id: Id)
        ensures
            final(self).hot_book == old(self).hot_book,
            final(self).client_id_to_order_id == old(self).client_id_to_order_id,
            final(self).closed_orders == old(self).closed_orders,
            final(self).snapshot == old(self).snapshot,
            pairs(final(self).closed_orders_by_seq@) == pairs(
                old(self).closed_orders_by_seq@,
            ).insert((seq, id)),
    {
        let ghost before = self.closed_orders_by_seq@;
        let mut ids = match self.closed_orders_by_seq.remove(&seq) {
            Some(ids) => ids,
            None => Vec::new(),
        };
        let ghost known = ids@;
        ids.push(id);
        let ghost longer = ids@;
        self.closed_orders_by_seq.insert(seq, ids);
        proof {
            let after = self.closed_orders_by_seq@;
            assert forall|c: (SeqNo, Id)| #[trigger] pairs(after).contains(c) <==> (pairs(
                before,
            ).contains(c) || c == (seq, id)) by {
                if c.0 == seq {
                    if known.contains(c.1) {
                        assert(longer[known.index_of(c.1)] == c.1);
                    }
                    assert(longer[known.len() as int] == id);
                    if longer.contains(c.1) && c.1 != id {
                        assert(known[longer.index_of(c.1)] == c.1);
                    }
                }
            }
            assert(pairs(after) =~= pairs(before).insert((seq, id)));
        }
    }

    /// Keeps a closed order.
    fn keep_closed(&mut self, order: Order, seq: SeqNo)
        requires
            old(self).wf(),
            order.closed_by == Some(seq),
        ensures
            final(self).wf(),
            final(self).warm() == old(self).warm().keep(order),
    {
        proof {
            lemma_ids_are_lawful();
        }
        let id = order.id;
        self.closed_orders.insert(id, order);
        self.note_closed(seq, id);
        assert(self.warm() =~= old(self).warm().keep(order));
    }

    /// Cancel an active order by its internal `Id`.
    ///
    /// If successful, the canceled order is moved to the warm store of
    /// closed orders for subsequent lookups.
    pub fn cancel(&mut self, id: Id, seq: SeqNo) -> (res: Result<Order, Error>)
        requires
            old(self).wf(),
        ensures
            final(self).wf(),
            if old(self).warm().hot.orders.contains_key(id) {
                &&& res == Ok::<Order, Error>(old(self).warm().hot.orders[id].canceled(seq))
                &&& final(self).warm() == old(self).warm().cancel(id, seq)
            } else {
                &&& res == Err::<Order, Error>(Error::OrderIdNotFound(id))
                &&& final(self).warm() == old(self).warm()
            },
    {
        match self.hot_book.cancel(id, seq) {
            Ok(order) => {
                assert(self.warm() =~= (WarmModel {
                    hot: old(self).warm().hot.remove(id),
                    ..old(self).warm()
                }));
                self.keep_closed(order.clone(), seq);
                Ok(order)
            },
            Err(e) => {
                assert(self.warm() =~= old(self).warm());
                Err(e)
            },
        }
    }

    /// Cancel an order by `(user_id, client_id)` pair.
    ///
    /// Returns an error if the client ID is unknown.
    pub fn cancel_by_client_id(
        &mut self,
        user_id: user::Id,
        client_id: ClientId,
        seq: SeqNo,
    ) -> (res: Result<Order, Error>)
        requires
            old(self).wf(),
        ensures
            final(self).wf(),
            ({
                let warm = old(self).warm();
                let key = crate::order::client_key(user_id@, client_id@);
                let id = warm.clients[key];
                if !warm.clients.contains_key(key) {
                    &&& res == Err::<Order, Error>(Error::OrderClientIdNotFound(client_id))
                    &&& final(self).warm() == warm
                } else if !warm.hot.orders.contains_key(id) {
                    &&& res == Err::<Order, Error>(Error::OrderIdNotFound(id))
                    &&& final(self).warm() == warm
                } else {
                    &&& res == Ok::<Order, Error>(warm.hot.orders[id].canceled(seq))
                    &&& final(self).warm() == warm.cancel(id, seq)
                }
            }),
    {
        let key = Order::format_user_client_id(&user_id, &client_id);
        let id = match self.client_id_to_order_id.get(key.as_str()) {
            Some(id) => *id,
            None => {
                return Err(Error::OrderClientIdNotFound(client_id));
            },
        };
        self.cancel(id, seq)
    }

    /// Compute aggregated depth from the underlying book, limited to `limit` levels.
    pub fn depth(&self, limit: usize) -> (res: Depth)
        requires
            self.wf(),
        ensures
            self.warm().hot.shows(crate::order::Side::Bid, limit as nat, res.bids@),
            self.warm().hot.shows(crate::order::Side::Ask, limit as nat, res.asks@),
    {
        self.hot_book.depth(limit)
    }

    /// Match crossable orders in the underlying book.
    ///
    /// Returns the vector of generated trades and the vector of orders that
    /// became closed because of the matching. Closed orders are cached in the
    /// warm store for later lookup.
    pub fn match_orders(&mut self) -> (res: (Vec<Trade>, Vec<Order>))
        requires
            old(self).wf(),
            old(self).warm().hot.matchable(),
        ensures
            final(self).wf(),
            final(self).warm() == old(self).warm().matched(),
            res.0@.map_values(|t: Trade| t@) == old(self).warm().hot.matched().trades,
            res.1@ == old(self).warm().hot.matched().closed,
    {
        proof {
            self.hot_book.lemma_wf();
            self.hot_book.model().law_closed_orders();
        }
        let ghost hot = self.hot_book.model();
        let (trades, closed_orders) = self.hot_book.match_orders();
        let ghost start = self.warm();
        let ghost closed = closed_orders@;
        assert(start =~= (WarmModel { hot: hot.matched().book, ..old(self).warm() }));
        let mut at: usize = 0;
        assert(closed.take(0) =~= Seq::empty());
        while at < closed_orders.len()
            invariant
                at <= closed_orders@.len(),
                closed == closed_orders@,
                self.wf(),
                self.warm() == start.keep_all(closed.take(at as int)),
                forall|i: int|
                    0 <= i < closed.len() ==> (#[trigger] closed[i]).closed_by is Some,
            decreases closed_orders@.len() - at,
        {
            proof {
                start.lemma_keep_step(closed, at as int);
            }
            let order = &closed_orders[at];
            assert(closed[at as int].closed_by is Some);
            let seq = order.closed_by.unwrap();
            self.keep_closed(order.clone(), seq);
            at = at + 1;
        }
        assert(closed.take(at as int) =~= closed);
        (trades, closed_orders)
    }

    /// Lookup an order by internal `Id`.
    ///
    /// Prefers the warm store of closed orders; if not found there, falls back
    /// to the underlying hot book (active orders).
    pub fn lookup(&self, id: Id) -> (res: Option<Order>)
        requires
            self.wf(),
        ensures
            res == self.warm().find(id),
    {
        proof {
            lemma_ids_are_lawful();
        }
        if let Some(order) = self.closed_orders.get(&id) {
            return Some(order.clone());
        }
        match self.hot_book.lookup(id) {
            Some(order) => Some(order.clone()),
            None => None,
        }
    }

    /// Lookup an order by `(user_id, client_id)` pair.
    ///
    /// Will search both closed and active orders through `lookup`.
    pub fn lookup_by_client_id(&self, user_id: user::Id, client_id: ClientId) -> (res: Option<
        Order,
    >)
        requires
            self.wf(),
        ensures
            res == self.warm().find_by_key(crate::order::client_key(user_id@, client_id@)),
    {
        let key = Order::format_user_client_id(&user_id, &client_id);
        match self.client_id_to_order_id.get(key.as_str()) {
            Some(id) => self.lookup(*id),
            None => None,
        }
    }

    /// Evict closed orders that are safe to remove from the warm cache.
    ///
    /// This method is intended to be called after the caller has persisted
    /// ("archived") all order closures up to and including `archived_seq` to a
    /// durable storage. It walks the batches of closed orders from the smallest
    /// closing seq on, and removes any batch whose seq is less than or equal to
    /// `archived_seq`.
    ///
    /// For each evicted order id, the corresponding entry is removed from:
    /// - `closed_orders` (the warm cache of closed orders), and
    /// - `client_id_to_order_id` so that lookups by `(user_id, client_id)` no
    ///   longer resolve to evicted, closed orders.
    ///
    /// If `archived_seq` is lower than the smallest pending seq, the call
    /// is a no-op.
    pub fn evict_closed_orders(&mut self, archived_seq: SeqNo)
        requires
            old(self).wf(),
        ensures
            final(self).wf(),
            final(self).warm() == old(self).warm().evict(archived_seq),
    {
        let ghost start = self.warm();
        let ghost batches = self.closed_orders_by_seq@;
        proof {
            assert(dropped_ids(batches, batches) =~= Set::empty());
            start.lemma_forget_none();
        }
        loop
            invariant
                self.wf(),
                start == old(self).warm(),
                start.closing == pairs(batches),
                self.warm() == (WarmModel {
                    closing: pairs(self.closed_orders_by_seq@),
                    ..start.forget(dropped_ids(batches, self.closed_orders_by_seq@))
                }),
                self.closed_orders_by_seq@.submap_of(batches),
                forall|seq: SeqNo| #[trigger]
                    batches.contains_key(seq) && !self.closed_orders_by_seq@.contains_key(seq)
                        ==> seq <= archived_seq,
            ensures
                forall|seq: SeqNo| #[trigger]
                    self.closed_orders_by_seq@.contains_key(seq) ==> archived_seq < seq,
            decreases self.closed_orders_by_seq@.len(),
        {
            let ghost before = self.closed_orders_by_seq@;
            let ghost gone = dropped_ids(batches, before);
            let seq: SeqNo = match first_key(&self.closed_orders_by_seq) {
                Some(seq) => seq,
                None => {
                    break;
                },
            };
            if seq > archived_seq {
                break;
            }
            let ids = self.closed_orders_by_seq.remove(&seq).unwrap();
            let ghost popped = self.warm();
            self.forget_batch(&ids);
            proof {
                let after = self.closed_orders_by_seq@;
                assert(batches.contains_key(seq) && batches[seq] == before[seq]);
                assert(dropped_ids(batches, after) =~= gone.union(ids@.to_set())) by {
                    assert forall|id: Id| #[trigger]
                        dropped_ids(batches, after).contains(id) <==> gone.union(
                            ids@.to_set(),
                        ).contains(id) by {
                        if dropped_ids(batches, after).contains(id) {
                            let s = choose|s: SeqNo| #[trigger]
                                batches.contains_key(s) && !after.contains_key(s)
                                    && batches[s]@.contains(id);
                            if s != seq {
                                assert(!before.contains_key(s));
                            }
                        }
                        if gone.contains(id) {
                            let s = choose|s: SeqNo| #[trigger]
                                batches.contains_key(s) && !before.contains_key(s)
                                    && batches[s]@.contains(id);
                            assert(!after.contains_key(s));
                        }
                    }
                }
                start.lemma_forget_union(gone, ids@.to_set());
                let mid = WarmModel { closing: pairs(after), ..start.forget(gone) };
                assert(popped =~= mid);
                assert(mid.keys_of(ids@.to_set()) =~= start.forget(gone).keys_of(ids@.to_set()));
                assert(self.warm() =~= (WarmModel {
                    closing: pairs(after),
                    ..start.forget(dropped_ids(batches, after))
                }));
            }
        }
        proof {
            let after = self.closed_orders_by_seq@;
            assert(dropped_ids(batches, after) =~= start.archived_ids(archived_seq)) by {
                assert forall|id: Id| #[trigger]
                    dropped_ids(batches, after).contains(id) <==> start.archived_ids(
                        archived_seq,
                    ).contains(id) by {
                    if dropped_ids(batches, after).contains(id) {
                        let s = choose|s: SeqNo| #[trigger]
                            batches.contains_key(s) && !after.contains_key(s)
                                && batches[s]@.contains(id);
                        assert(start.closing.contains((s, id)));
                    }
                    if start.archived_ids(archived_seq).contains(id) {
                        let s = choose|s: SeqNo|
                            s <= archived_seq && #[trigger] start.closing.contains((s, id));
                        assert(batches.contains_key(s) && !after.contains_key(s));
                    }
                }
            }
            assert(pairs(after) =~= start.closing.filter(|c: (SeqNo, Id)| c.0 > archived_seq));
            assert(self.warm() =~= start.evict(archived_seq));
        }
    }

    /// Removes the closed orders with these ids, and their client ids.
    fn forget_batch(&mut self, ids: &Vec<Id>)
        requires
            old(self).wf(),
        ensures
            final(self).wf(),
            final(self).closed_orders_by_seq == old(self).closed_orders_by_seq,
            final(self).warm() == old(self).warm().forget(ids@.to_set()),
    {
        let ghost start = self.warm();
        let mut at: usize = 0;
        proof {
            lemma_ids_are_lawful();
            assert(ids@.take(0).to_set() =~= Set::empty());
            start.lemma_forget_none();
        }
        while at < ids.len()
            invariant
                at <= ids@.len(),
                crate::collections::hash_map::lawful_key::<Id>(),
                self.wf(),
                self.closed_orders_by_seq == old(self).closed_orders_by_seq,
                self.warm() == start.forget(ids@.take(at as int).to_set()),
            decreases ids@.len() - at,
        {
            let id = ids[at];
            let ghost done = ids@.take(at as int).to_set();
            let ghost before = self.warm();
            let removed = self.closed_orders.remove(&id);
            if let Some(order) = removed {
                let key = Order::format_user_client_id(&order.user_id, &order.client_id);
                self.client_id_to_order_id.remove(key.as_str());
            }
            proof {
                start.lemma_forget_step(done, id);
                assert(ids@.take(at + 1).to_set() =~= done.insert(id)) by {
                    assert(ids@.take(at + 1) =~= ids@.take(at as int).push(id));
                    assert forall|x: Id| #[trigger] ids@.take(at + 1).to_set().contains(x) <==> (
                    done.contains(x) || x == id) by {
                        let longer = ids@.take(at + 1);
                        let shorter = ids@.take(at as int);
                        if shorter.contains(x) {
                            assert(longer[shorter.index_of(x)] == x);
                        }
                        assert(longer[at as int] == id);
                        if longer.contains(x) && x != id {
                            assert(shorter[longer.index_of(x)] == x);
                        }
                    }
                }
                let copy = choose|copy: Order|
                    cloned(before.closed.current[id], copy) && self.closed_orders@
                        == #[trigger] before.closed.remove(id, copy);
                assert(copy == before.closed.current[id]);
                assert(before.closed.remove(id, copy) =~= before.closed.remove(
                    id,
                    start.closed.current[id],
                ));
                assert(self.warm() =~= start.forget(done.insert(id)));
            }
            at = at + 1;
        }
        assert(ids@.take(at as int) =~= ids@);
    }
}

/// The ids in the batches that are no longer among `left`.
spec fn dropped_ids(batches: Map<SeqNo, Vec<Id>>, left: Map<SeqNo, Vec<Id>>) -> Set<Id> {
    Set::new(
        |id: Id|
            exists|seq: SeqNo| #[trigger]
                batches.contains_key(seq) && !left.contains_key(seq) && batches[seq]@.contains(id),
    )
}

impl<T: HotBook> WarmBook<T> {
    /// Restoring a batch takes its closed orders in, and any batch can be restored.
    pub proof fn law_restoring_goes_by_the_closed_orders(
        &self,
        orders: Seq<Order>,
        after: &WarmBook<T>,
    )
        requires
            self.restored(orders, after),
        ensures
            after.warm() == self.warm().restored(orders),
            self.restorable(orders),
            self.model() == self.warm().hot,
            self.source() == self.warm().closed.current,
            self.pending() == self.warm().pending(),
    {
    }
}

impl<T: HotBook> SnapshotableBook for WarmBook<T> {
    open spec fn restorable(&self, orders: Seq<Order>) -> bool {
        true
    }

    open spec fn restored(&self, orders: Seq<Order>, after: &Self) -> bool {
        after.warm() == self.warm().restored(orders)
    }

    /// Begins a snapshot over the current set of closed orders.
    ///
    /// Only one snapshot can be active at a time; attempting to take another
    /// while one is in progress returns `Error::AnotherSnapshotAlreadyTaken`.
    /// Orders closed after this call will not be part of the snapshot stream.
    fn take_snapshot(&mut self) -> (res: Result<(), Error>)
        ensures
            res is Ok ==> {
                &&& final(self).warm() == (WarmModel {
                    closed: old(self).warm().closed.begin(),
                    stream: final(self).warm().stream,
                    ..old(self).warm()
                })
                &&& final(self).warm().streams(old(self).warm().closed.current)
            },
            res is Err ==> final(self).warm() == old(self).warm(),
    {
        if self.snapshot.is_some() {
            return Err(Error::AnotherSnapshotAlreadyTaken);
        }
        proof {
            lemma_ids_are_lawful();
        }
        let keys = self.closed_orders.begin_snapshot();
        self.snapshot = Some(Snapshot { keys, cursor: 0 });
        proof {
            let base = old(self).warm().closed.current;
            crate::collections::model::law_begin_shows_current(old(self).closed_orders@);
            assert(keys@.skip(0) =~= keys@);
            assert forall|i: int| 0 <= i < keys@.len() implies base.contains_key(
                #[trigger] keys@[i],
            ) by {
                assert(keys@.to_set().contains(keys@[i]));
            }
            assert(self.pending() == Some(crate::order::book::orders_with(keys@, base)));
        }
        Ok(())
    }

    /// Returns up to `limit` closed orders from the active snapshot.
    ///
    /// When no more orders remain in the snapshot, returns `Ok(None)`.
    /// If called without an active snapshot, returns `Error::NoSnapshotTaken`.
    /// If orders are evicted or modified during an active snapshot, the
    /// previously snapshotted values are returned (snapshot isolation).
    fn snapshot_batch(&mut self, limit: usize) -> (res: Result<Option<Vec<Order>>, Error>)
        ensures
            final(self).warm() == (WarmModel {
                stream: final(self).warm().stream,
                ..old(self).warm()
            }),
            old(self).warm().stream matches Some(ids) ==> final(self).warm().stream == Some(
                ids.skip(
                    crate::order::book::batch_size(
                        old(self).pending()->0,
                        limit as nat,
                    ) as int,
                ),
            ),
    {
        let ghost pending = self.pending();
        let mut snapshot = match self.snapshot.take() {
            Some(snapshot) => snapshot,
            None => {
                return Err(Error::NoSnapshotTaken);
            },
        };
        let left: usize = snapshot.keys.len() - snapshot.cursor;
        let size: usize = if left < limit {
            left
        } else {
            limit
        };
        let mut orders: Vec<Order> = Vec::new();
        let ghost start = snapshot;
        let ghost p = pending->0;
        proof {
            lemma_ids_are_lawful();
            assert(p.len() == left);
        }
        while orders.len() < size
            invariant
                crate::collections::hash_map::lawful_key::<Id>(),
                self.hot_book == old(self).hot_book,
                self.client_id_to_order_id == old(self).client_id_to_order_id,
                self.closed_orders == old(self).closed_orders,
                self.closed_orders_by_seq == old(self).closed_orders_by_seq,
                p == crate::order::book::orders_with(
                    start.keys@.skip(start.cursor as int),
                    self.closed_orders@.visible(),
                ),
                p.len() == start.keys@.len() - start.cursor,
                size <= p.len(),
                snapshot.keys == start.keys,
                snapshot.cursor == start.cursor + orders@.len(),
                orders@.len() <= size,
                forall|i: int| 0 <= i < size ==> (#[trigger] p[i]) is Some,
                forall|i: int| 0 <= i < orders@.len() ==> Some(#[trigger] orders@[i]) == p[i],
            decreases size - orders@.len(),
        {
            assert(snapshot.cursor < snapshot.keys.len());
            let key = snapshot.keys[snapshot.cursor];
            assert(p[orders@.len() as int] == self.closed_orders@.visible().get(key));
            let order = self.closed_orders.get_for_snapshot(&key).unwrap();
            orders.push(order.clone());
            snapshot.cursor = snapshot.cursor + 1;
        }
        self.snapshot = Some(snapshot);
        proof {
            let ids = start.keys@.skip(start.cursor as int);
            assert(start.keys@.skip(snapshot.cursor as int) =~= ids.skip(size as int));
            assert(self.pending()->0 =~= p.skip(size as int));
            assert(orders@.map_values(|o: Order| Some(o)) =~= p.take(size as int));
        }
        if size == 0 {
            Ok(None)
        } else {
            Ok(Some(orders))
        }
    }

    /// Ends the current snapshot session and clears internal snapshot state.
    ///
    /// Returns `Error::NoSnapshotTaken` if no snapshot is active.
    fn end_snapshot(&mut self) -> (res: Result<(), Error>)
        ensures
            final(self).warm() == (WarmModel {
                closed: old(self).warm().closed.end(),
                stream: None,
                ..old(self).warm()
            }),
    {
        if self.snapshot.is_none() {
            return Err(Error::NoSnapshotTaken);
        }
        self.snapshot = None;
        self.closed_orders.end_snapshot();
        Ok(())
    }

    /// Restores a batch of closed orders back into the warm cache.
    ///
    /// Orders without `closed_by` are ignored. For the rest, this method:
    /// - Rebuilds the `(user_id, client_id) -> order_id` index,
    /// - Re-inserts the orders into the closed-order store, and
    /// - Reconstructs the batches that group orders by their closing seq.
    fn restore_snapshot_batch(&mut self, orders: Vec<Order>) -> (res: Result<(), Error>) {
        let ghost start = self.warm();
        let ghost batch = orders@;
        let mut at: usize = 0;
        assert(batch.take(0) =~= Seq::empty());
        while at < orders.len()
            invariant
                at <= orders@.len(),
                orders@ == batch,
                self.wf(),
                self.warm() == start.restored(batch.take(at as int)),
            decreases orders@.len() - at,
        {
            proof {
                start.lemma_restore_step(batch, at as int);
            }
            self.restore_closed(&orders[at]);
            at = at + 1;
        }
        assert(batch.take(at as int) =~= batch);
        Ok(())
    }
}

impl<T: HotBook> WarmBook<T> {
    /// Takes in an order from a snapshot, if it is closed.
    pub(crate) fn restore_closed(&mut self, order: &Order)
        requires
            old(self).wf(),
        ensures
            final(self).wf(),
            final(self).warm() == old(self).warm().restore(*order),
    {
        if let Some(seq) = order.closed_by {
            self.client_id_to_order_id.insert(order.user_client_id(), order.id);
            assert(self.warm() =~= (WarmModel {
                clients: old(self).warm().clients.insert(order.key(), order.id),
                ..old(self).warm()
            }));
            self.keep_closed(order.clone(), seq);
        }
    }

    /// Takes in an order from a snapshot: a closed one is kept, and an open one is added unless
    /// its id is open already.
    pub(crate) fn reload(&mut self, order: &Order)
        requires
            old(self).wf(),
            old(self).warm().hot.restores(*order) ==> old(self).warm().hot.accepts(*order),
        ensures
            final(self).wf(),
            final(self).warm() == old(self).warm().reload(*order),
    {
        if order.closed_by.is_some() {
            self.restore_closed(order);
            return;
        }
        match self.hot_book.add(order.clone()) {
            Ok(()) => {
                self.client_id_to_order_id.insert(order.user_client_id(), order.id);
                assert(self.warm() =~= old(self).warm().add(*order));
            },
            Err(_) => {
                assert(self.warm() =~= old(self).warm());
            },
        }
    }
}

impl<T: HotBook + SnapshotableBook> WarmBook<T> {
    /// Begins a snapshot of the open orders, and of the closed ones.
    pub(crate) fn take_full_snapshot(&mut self) -> (res: Result<(), Error>)
        requires
            old(self).wf(),
            old(self).warm().stream is Some ==> old(self).warm().hot_pending is Some,
        ensures
            final(self).wf(),
            if old(self).warm().hot_pending is Some {
                &&& res == Err::<(), Error>(Error::AnotherSnapshotAlreadyTaken)
                &&& final(self).warm() == old(self).warm()
            } else {
                &&& res == Ok::<(), Error>(())
                &&& final(self).warm() == (WarmModel {
                    closed: old(self).warm().closed.begin(),
                    stream: final(self).warm().stream,
                    hot_pending: final(self).warm().hot_pending,
                    ..old(self).warm()
                })
                &&& final(self).warm().hot_pending matches Some(open)
                &&& crate::order::book::lists_all(open, old(self).warm().hot.orders)
                &&& final(self).warm().pending() matches Some(closed)
                &&& crate::order::book::lists_all(closed, old(self).warm().closed.current)
                &&& final(self).warm().streams(old(self).warm().closed.current)
            },
    {
        proof {
            self.hot_book.lemma_wf();
        }
        match self.hot_book.take_snapshot() {
            Ok(()) => {
                let ghost mid = self.warm();
                assert(mid =~= (WarmModel { hot_pending: mid.hot_pending, ..old(self).warm() }));
                self.take_snapshot()?;
                Ok(())
            },
            Err(e) => {
                assert(self.warm() =~= old(self).warm());
                Err(e)
            },
        }
    }

    /// Returns up to `limit` orders of the snapshot in progress, the open ones first.
    pub(crate) fn full_snapshot_batch(&mut self, limit: usize) -> (res: Result<
        Option<Vec<Order>>,
        Error,
    >)
        requires
            old(self).wf(),
            old(self).warm().stream is Some ==> old(self).warm().hot_pending is Some,
            crate::order::book::batch_readable(old(self).warm().pending_all(), limit as nat),
        ensures
            final(self).wf(),
            final(self).warm() == (WarmModel {
                hot_pending: final(self).warm().hot_pending,
                stream: final(self).warm().stream,
                ..old(self).warm()
            }),
            match old(self).warm().pending_all() {
                Some(p) => {
                    let n = crate::order::book::batch_size(p, limit as nat);
                    &&& final(self).warm().stream is Some
                    &&& final(self).warm().hot_pending is Some
                    &&& final(self).warm().pending_all() == Some(p.skip(n as int))
                    &&& match res {
                        Ok(Some(orders)) => n > 0 && orders@.map_values(|o: Order| Some(o))
                            == p.take(n as int),
                        Ok(None) => n == 0,
                        Err(_) => false,
                    }
                },
                None => {
                    &&& res == Err::<Option<Vec<Order>>, Error>(Error::NoSnapshotTaken)
                    &&& final(self).warm() == old(self).warm()
                },
            },
    {
        if self.snapshot.is_none() {
            return Err(Error::NoSnapshotTaken);
        }
        let ghost start = self.warm();
        let ghost open = start.hot_pending->0;
        let ghost closed = start.pending()->0;
        let ghost p = open + closed;
        proof {
            assert forall|i: int|
                0 <= i < crate::order::book::batch_size(open, limit as nat) implies (
            #[trigger] open[i]) is Some by {
                assert(p[i] == open[i]);
            }
        }
        let mut orders = match self.hot_book.snapshot_batch(limit)? {
            Some(orders) => orders,
            None => Vec::new(),
        };
        let ghost n = crate::order::book::batch_size(open, limit as nat);
        let ghost some = |o: Order| Some(o);
        proof {
            assert(orders@.map_values(some) =~= open.take(n as int));
            assert(orders@.len() == orders@.map_values(some).len());
            assert(self.warm() =~= (WarmModel {
                hot_pending: Some(open.skip(n as int)),
                ..start
            }));
        }
        let left: usize = limit - orders.len();
        let ghost m = crate::order::book::batch_size(closed, left as nat);
        proof {
            assert forall|i: int| 0 <= i < m implies (#[trigger] closed[i]) is Some by {
                assert(p[open.len() + i] == closed[i]);
            }
        }
        let ghost first = orders@;
        let more = self.snapshot_batch(left)?;
        if let Some(mut more) = more {
            let ghost rest = more@;
            orders.append(&mut more);
            assert(orders@ =~= first + rest);
            assert(rest.map_values(some) =~= closed.take(m as int));
            assert(rest.len() == rest.map_values(some).len());
        } else {
            assert(m == 0);
        }
        proof {
            let all = orders@.map_values(some);
            assert(all.len() == n + m);
            assert forall|i: int| 0 <= i < all.len() implies all[i] == p[i] by {
                if i < n {
                    assert(open.take(n as int)[i] == open[i]);
                    assert(first.map_values(some)[i] == open[i]);
                } else {
                    assert(closed.take(m as int)[i - n] == closed[i - n]);
                }
            }
            assert(all =~= p.take((n + m) as int));
            assert(self.warm().pending_all()->0 =~= p.skip((n + m) as int));
        }
        if orders.len() == 0 {
            Ok(None)
        } else {
            Ok(Some(orders))
        }
    }

    /// Ends the snapshot of the open and closed orders.
    pub(crate) fn end_full_snapshot(&mut self) -> (res: Result<(), Error>)
        requires
            old(self).wf(),
            old(self).warm().stream is Some ==> old(self).warm().hot_pending is Some,
        ensures
            final(self).wf(),
            if old(self).warm().stream is Some {
                &&& res == Ok::<(), Error>(())
                &&& final(self).warm() == (WarmModel {
                    closed: old(self).warm().closed.end(),
                    stream: None,
                    hot_pending: None,
                    ..old(self).warm()
                })
            } else {
                &&& res == Err::<(), Error>(Error::NoSnapshotTaken)
                &&& final(self).warm() == old(self).warm()
            },
    {
        if self.snapshot.is_none() {
            return Err(Error::NoSnapshotTaken);
        }
        match self.hot_book.end_snapshot() {
            Ok(()) => {
                assert(self.warm() =~= (WarmModel { hot_pending: None, ..old(self).warm() }));
                self.end_snapshot()
            },
            Err(e) => Err(e),
        }
    }
}

} // verus!
