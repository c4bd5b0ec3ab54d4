//! Order book traits and shared types.
//!
//! This module defines the minimal interface expected from an order book
//! implementation and the common types used to represent market depth.

use crate::order::{ClientId, Id, Order, Price, Volume};
use crate::order::book::model::BookModel;
use crate::sequence::SeqNo;
use crate::trade::Trade;
use vstd::prelude::*;

pub mod fills;
pub mod laws;
pub mod model;
pub mod recovery;
pub mod tree_map;
pub mod warm_book;
pub mod warm_laws;
pub mod warm_model;

verus! {

/// Aggregated depth at a single price level.
#[derive(Debug, Copy, Clone, PartialEq, Eq, Structural)]
pub struct DepthItem {
    /// Price level.
    pub price: Price,
    /// Total visible volume at this price level.
    pub volume: Volume,
}

/// A snapshot of the best price levels on both sides of the book.
#[derive(Debug)]
pub struct Depth {
    /// Best bids in descending price order.
    pub bids: Vec<DepthItem>,
    /// Best asks in ascending price order.
    pub asks: Vec<DepthItem>,
}

impl Clone for Depth {
    fn clone(&self) -> (res: Self)
        ensures
            res.bids@ == self.bids@,
            res.asks@ == self.asks@,
    {
        let res = Depth { bids: self.bids.clone(), asks: self.asks.clone() };
        assert(res.bids@ =~= self.bids@);
        assert(res.asks@ =~= self.asks@);
        res
    }
}

/// Generic order-book errors.
#[derive(Debug)]
pub enum Error {
    /// Tried to operate on an order that does not exist.
    OrderIdNotFound(Id),
    /// Tried to add an order with an ID that already exists.
    OrderIdExists(Id),
    /// Tried to operate on an order that does not exist.
    OrderClientIdNotFound(ClientId),
    /// Tried to add an order with a client ID that already exists.
    OrderClientIdExists(ClientId),
    /// Tried to take a new snapshot while another is in progress.
    AnotherSnapshotAlreadyTaken,
    /// Tried to end a snapshot or get a batch when no snapshot is taken.
    NoSnapshotTaken,
    /// Tried an operation before initializing the book.
    NotReady,
}

impl Error {
    /// The text of the error.
    pub open spec fn text(self) -> Seq<char> {
        match self {
            Error::OrderIdNotFound(id) => "could not find order with id #"@
                + crate::text::decimal_chars(id as nat),
            Error::OrderIdExists(id) => "another order with the same id #"@
                + crate::text::decimal_chars(id as nat) + " already exists"@,
            Error::OrderClientIdNotFound(id) => "could not find order with client id #"@ + id@,
            Error::OrderClientIdExists(id) => "another order with the same client id #"@ + id@
                + " already exists"@,
            Error::AnotherSnapshotAlreadyTaken => "another snapshot is already in progress"@,
            Error::NoSnapshotTaken => "no snapshot is currently in progress"@,
            Error::NotReady => "matcher/book is not ready to process operations yet"@,
        }
    }

    /// The text of the error.
    pub fn message(&self) -> (res: String)
        ensures
            res@ == self.text(),
    {
        match self {
            Error::OrderIdNotFound(id) => "could not find order with id #".to_string().concat(
                crate::text::decimal(*id).as_str(),
            ),
            Error::OrderIdExists(id) => "another order with the same id #".to_string().concat(
                crate::text::decimal(*id).as_str(),
            ).concat(" already exists"),
            Error::OrderClientIdNotFound(id) => "could not find order with client id #".to_string().concat(
                id.as_str(),
            ),
            Error::OrderClientIdExists(id) => "another order with the same client id #".to_string().concat(
                id.as_str(),
            ).concat(" already exists"),
            Error::AnotherSnapshotAlreadyTaken => "another snapshot is already in progress".to_string(),
            Error::NoSnapshotTaken => "no snapshot is currently in progress".to_string(),
            Error::NotReady => "matcher/book is not ready to process operations yet".to_string(),
        }
    }
}

/// The orders that a snapshot has still to hand out. An entry is `None` where the order can
/// no longer be read.
pub type Pending = Seq<Option<Order>>;

/// The orders of `source` with these ids, `None` for an id that it does not hold.
pub open spec fn orders_with(ids: Seq<Id>, source: Map<Id, Order>) -> Pending {
    ids.map_values(|id: Id| source.get(id))
}

/// `pending` holds every order of `source`, each once.
pub open spec fn lists_all(pending: Pending, source: Map<Id, Order>) -> bool {
    exists|ids: Seq<Id>|
        {
            &&& ids.no_duplicates()
            &&& ids.to_set() == source.dom()
            &&& pending == #[trigger] orders_with(ids, source)
        }
}

/// The number of orders that a batch of at most `limit` takes from `pending`.
pub open spec fn batch_size(pending: Pending, limit: nat) -> nat {
    if pending.len() < limit {
        pending.len()
    } else {
        limit
    }
}

/// The next batch of at most `limit` orders can be read in full.
pub open spec fn batch_readable(pending: Option<Pending>, limit: nat) -> bool {
    pending matches Some(p) ==> forall|i: int|
        0 <= i < batch_size(p, limit) ==> (#[trigger] p[i]) is Some
}

/// The mathematical state behind an order book: what is open on it, and how far a snapshot
/// of it has been streamed.
pub trait BookState {
    /// The book's internal structure is sound.
    spec fn wf(&self) -> bool;

    /// The open orders.
    spec fn model(&self) -> BookModel;

    /// The orders that a snapshot taken now would stream.
    spec fn source(&self) -> Map<Id, Order>;

    /// The orders that the snapshot in progress has still to hand out; `None` if there is
    /// no snapshot in progress.
    spec fn pending(&self) -> Option<Pending>;
}

/// The core order book interface. Implementors must provide basic operations
/// for adding, canceling, obtaining depth, and matching orders.
pub trait HotBook: BookState {
    /// A sound book has a valid model, and its snapshots stream the open orders.
    proof fn lemma_wf(&self)
        requires
            self.wf(),
        ensures
            self.model().valid(),
            self.source() == self.model().orders,
    ;

    /// Add a new order to the book. Returns an error if the ID already exists.
    fn add(&mut self, order: Order) -> (res: Result<(), Error>)
        requires
            old(self).wf(),
            !old(self).model().orders.contains_key(order.id) ==> old(self).model().accepts(order),
        ensures
            final(self).wf(),
            final(self).pending() == old(self).pending(),
            match res {
                Ok(()) => {
                    &&& !old(self).model().orders.contains_key(order.id)
                    &&& final(self).model() == old(self).model().add(order)
                },
                Err(e) => {
                    &&& old(self).model().orders.contains_key(order.id)
                    &&& e == Error::OrderIdExists(order.id)
                    &&& final(self).model() == old(self).model()
                },
            },
    ;

    /// Cancel an existing order by its ID.
    fn cancel(&mut self, id: Id, seq: SeqNo) -> (res: Result<Order, Error>)
        requires
            old(self).wf(),
        ensures
            final(self).wf(),
            final(self).pending() == old(self).pending(),
            match res {
                Ok(order) => {
                    &&& old(self).model().orders.contains_key(id)
                    &&& order == old(self).model().orders[id].canceled(seq)
                    &&& final(self).model() == old(self).model().remove(id)
                },
                Err(e) => {
                    &&& !old(self).model().orders.contains_key(id)
                    &&& e == Error::OrderIdNotFound(id)
                    &&& final(self).model() == old(self).model()
                },
            },
    ;

    /// Returns a depth snapshot for the requested number of price levels per side.
    fn depth(&self, limit: usize) -> (res: Depth)
        requires
            self.wf(),
        ensures
            self.model().shows(crate::order::Side::Bid, limit as nat, res.bids@),
            self.model().shows(crate::order::Side::Ask, limit as nat, res.asks@),
    ;

    /// Matches orders until no more crossing prices remain, returning generated trades and
    /// closed orders.
    fn match_orders(&mut self) -> (res: (Vec<Trade>, Vec<Order>))
        requires
            old(self).wf(),
            old(self).model().matchable(),
        ensures
            final(self).wf(),
            final(self).pending() == old(self).pending(),
            final(self).model() == old(self).model().matched().book,
            res.0@.map_values(|t: Trade| t@) == old(self).model().matched().trades,
            res.1@ == old(self).model().matched().closed,
    ;

    /// Gets an order by its ID.
    fn lookup(&self, id: Id) -> (res: Option<&Order>)
        requires
            self.wf(),
        ensures
            match res {
                Some(order) => self.model().orders.contains_key(id) && *order
                    == self.model().orders[id],
                None => !self.model().orders.contains_key(id),
            },
    ;
}

/// Interface for streaming snapshots of the order book state and restoring from them.
///
/// Snapshotting is expected to work in batches so very large books can be
/// serialized without holding all orders in memory at once. A typical usage is:
///
/// - Call `take_snapshot()` to start a new snapshot session. Only one session
///   can be active at a time. Starting another while one is active returns
///   `Error::AnotherSnapshotAlreadyTaken`.
/// - Repeatedly call `snapshot_batch(limit)` until it returns `Ok(None)`, which
///   signals that there are no more orders to stream.
/// - Finally, call `end_snapshot()` to close the session and free any resources.
///
/// Restoring follows the reverse direction: feed batches of orders obtained from
/// a snapshot into `restore_snapshot_batch` until the whole snapshot has been
/// applied.
pub trait SnapshotableBook: BookState {
    /// The book can take in these orders.
    spec fn restorable(&self, orders: Seq<Order>) -> bool;

    /// `after` is this book once it has taken in these orders.
    spec fn restored(&self, orders: Seq<Order>, after: &Self) -> bool;

    /// Start a new snapshot session. Fails if another snapshot is already in progress.
    fn take_snapshot(&mut self) -> (res: Result<(), Error>)
        requires
            old(self).wf(),
        ensures
            final(self).wf(),
            final(self).model() == old(self).model(),
            final(self).source() == old(self).source(),
            match res {
                Ok(()) => {
                    &&& old(self).pending() is None
                    &&& final(self).pending() matches Some(p)
                    &&& lists_all(p, old(self).source())
                },
                Err(e) => {
                    &&& old(self).pending() is Some
                    &&& e == Error::AnotherSnapshotAlreadyTaken
                    &&& final(self).pending() == old(self).pending()
                },
            },
    ;

    /// Return up to `limit` orders from the ongoing snapshot.
    ///
    /// When there are no more orders to stream, returns `Ok(None)`. If no
    /// snapshot is currently in progress, returns `Error::NoSnapshotTaken`.
    fn snapshot_batch(&mut self, limit: usize) -> (res: Result<Option<Vec<Order>>, Error>)
        requires
            old(self).wf(),
            batch_readable(old(self).pending(), limit as nat),
        ensures
            final(self).wf(),
            final(self).model() == old(self).model(),
            final(self).source() == old(self).source(),
            match old(self).pending() {
                Some(p) => {
                    let n = batch_size(p, limit as nat);
                    &&& final(self).pending() == Some(p.skip(n as int))
                    &&& match res {
                        Ok(Some(orders)) => n > 0 && orders@.map_values(|o: Order| Some(o))
                            == p.take(n as int),
                        Ok(None) => n == 0,
                        Err(_) => false,
                    }
                },
                None => {
                    &&& res == Err::<Option<Vec<Order>>, Error>(Error::NoSnapshotTaken)
                    &&& final(self).pending() is None
                },
            },
    ;

    /// End the current snapshot session, releasing any temporary state.
    ///
    /// Returns `Error::NoSnapshotTaken` if called without an active snapshot.
    fn end_snapshot(&mut self) -> (res: Result<(), Error>)
        requires
            old(self).wf(),
        ensures
            final(self).wf(),
            final(self).model() == old(self).model(),
            final(self).source() == old(self).source(),
            final(self).pending() is None,
            res == match old(self).pending() {
                Some(_) => Ok::<(), Error>(()),
                None => Err(Error::NoSnapshotTaken),
            },
    ;

    /// Restore a batch of orders that belong to a previously taken snapshot.
    /// Implementations should accept multiple calls and apply orders idempotently
    /// within the context of the ongoing restore process.
    fn restore_snapshot_batch(&mut self, orders: Vec<Order>) -> (res: Result<(), Error>)
        requires
            old(self).wf(),
            old(self).restorable(orders@),
        ensures
            final(self).wf(),
            old(self).restored(orders@, final(self)),
            res is Ok,
    ;
}

/// The text of an error about an order names the order at its end, or before the words that say
/// that it exists already: by its id in decimal digits, or by its client id. The other errors have
/// one text each.
pub proof fn law_texts_name_the_order(e: Error)
    ensures
        e matches Error::OrderIdNotFound(id) ==> {
            let before = "could not find order with id #"@;
            &&& before.is_prefix_of(e.text())
            &&& e.text().skip(before.len() as int) == crate::text::decimal_chars(id as nat)
        },
        e matches Error::OrderIdExists(id) ==> {
            let before = "another order with the same id #"@;
            let rest = crate::text::decimal_chars(id as nat) + " already exists"@;
            &&& before.is_prefix_of(e.text())
            &&& e.text().skip(before.len() as int) == rest
        },
        e matches Error::OrderClientIdNotFound(id) ==> {
            let before = "could not find order with client id #"@;
            &&& before.is_prefix_of(e.text())
            &&& e.text().skip(before.len() as int) == id@
        },
        e matches Error::OrderClientIdExists(id) ==> {
            let before = "another order with the same client id #"@;
            let rest = id@ + " already exists"@;
            &&& before.is_prefix_of(e.text())
            &&& e.text().skip(before.len() as int) == rest
        },
        e is AnotherSnapshotAlreadyTaken ==> e.text() == "another snapshot is already in progress"@,
        e is NoSnapshotTaken ==> e.text() == "no snapshot is currently in progress"@,
        e is NotReady ==> e.text() == "matcher/book is not ready to process operations yet"@,
{
}

} // verus!
