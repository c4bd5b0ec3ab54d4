//! What a snapshot keeps of a book, and what restoring it brings back.

use crate::order::{Id, Order, Price, Side};
use crate::order::book::DepthItem;
use crate::order::book::fills::Fills;
use crate::order::book::model::BookModel;
use crate::order::book::warm_model::WarmModel;
use crate::sequence::SeqNo;
use vstd::prelude::*;

verus! {

/// The orders with these ids.
pub open spec fn orders_of(ids: Seq<Id>, source: Map<Id, Order>) -> Seq<Order> {
    ids.map_values(|id: Id| source[id])
}

/// Some of the orders have no more volume left than all of them.
pub proof fn lemma_part_has_less(part: Seq<Id>, whole: Seq<Id>, source: Map<Id, Order>)
    requires
        part.no_duplicates(),
        whole.no_duplicates(),
        part.to_set().subset_of(whole.to_set()),
        forall|i: int|
            0 <= i < whole.len() ==> source[#[trigger] whole[i]].executed_volume
                <= source[whole[i]].volume,
    ensures
        crate::order::book::model::open_volume(orders_of(part, source))
            <= crate::order::book::model::open_volume(orders_of(whole, source)),
    decreases part.len(),
{
    let all = orders_of(whole, source);
    assert forall|i: int| 0 <= i < all.len() implies (#[trigger] all[i]).executed_volume
        <= all[i].volume by {
        assert(all[i] == source[whole[i]]);
    }
    if part.len() == 0 {
        crate::order::book::model::lemma_open_volume_bounds(all);
    } else {
        let x = part.last();
        assert(part.to_set().contains(x));
        assert(whole.to_set().contains(x));
        let at = whole.index_of(x);
        let rest = whole.remove(at);
        let front = part.drop_last();
        assert forall|i: int| 0 <= i < rest.len() implies #[trigger] rest[i] == whole[if i < at {
            i
        } else {
            i + 1
        }] by {}
        assert forall|id: Id| #[trigger] front.to_set().contains(id) implies rest.to_set().contains(
            id,
        ) by {
            let i = front.index_of(id);
            assert(front[i] == id && part[i] == id);
            assert(part.to_set().contains(id));
            assert(whole.to_set().contains(id));
            let j = whole.index_of(id);
            assert(whole[j] == id);
            assert(j != at);
            assert(rest[if j < at { j } else { j - 1 }] == id);
        }
        lemma_part_has_less(front, rest, source);
        assert(orders_of(rest, source) =~= all.remove(at));
        crate::order::book::model::lemma_open_volume_remove(all, at);
        assert(orders_of(part, source).drop_last() =~= orders_of(front, source));
        assert(all[at] == source[x]);
    }
}

/// `queue` holds only ids that stand in the queue of `book` at a price, and each once; `book`
/// has at least its volume there.
pub proof fn lemma_queue_part(book: BookModel, side: Side, price: Price, queue: Seq<Id>)
    requires
        book.valid(),
        queue.no_duplicates(),
        forall|i: int|
            0 <= i < queue.len() ==> {
                &&& book.orders.contains_key(#[trigger] queue[i])
                &&& book.orders[queue[i]].side == side
                &&& book.orders[queue[i]].price == price
            },
    ensures
        crate::order::book::model::open_volume(orders_of(queue, book.orders)) <= book.volume(
            side,
            price,
        ),
        book.volume(side, price) <= u64::MAX,
{
    let whole = book.queue(side, price);
    if book.levels(side).contains_key(price) {
        assert(book.level_valid(side, price));
    } else {
        book.lemma_volume(side, price);
    }
    assert forall|id: Id| #[trigger] queue.to_set().contains(id) implies whole.to_set().contains(
        id,
    ) by {
        let i = queue.index_of(id);
        assert(queue[i] == id);
        assert(book.order_valid(id));
    }
    assert forall|i: int| 0 <= i < whole.len() implies book.orders[#[trigger] whole[i]].executed_volume
        <= book.orders[whole[i]].volume by {
        assert(book.orders.contains_key(whole[i]));
        assert(book.order_valid(whole[i]));
    }
    lemma_part_has_less(queue, whole, book.orders);
    assert(orders_of(whole, book.orders) =~= book.queue_orders(side, price));
}

/// A valid book holds a level wherever it holds an order.
proof fn lemma_level_has_order(book: BookModel, side: Side, price: Price)
    requires
        book.valid(),
    ensures
        book.levels(side).contains_key(price) <==> exists|id: Id| #[trigger]
            book.orders.contains_key(id) && book.orders[id].side == side && book.orders[id].price
                == price,
{
    if book.levels(side).contains_key(price) {
        assert(book.level_valid(side, price));
        let id = book.queue(side, price)[0];
        assert(book.orders.contains_key(id));
    }
    if exists|id: Id| #[trigger]
        book.orders.contains_key(id) && book.orders[id].side == side && book.orders[id].price
            == price {
        let id = choose|id: Id| #[trigger]
            book.orders.contains_key(id) && book.orders[id].side == side && book.orders[id].price
                == price;
        assert(book.order_valid(id));
    }
}

/// Two valid books with the same open orders have the same price levels with the same volumes,
/// in whatever sequence the orders stand in the queues: they show the same depth.
pub proof fn law_same_orders_show_same_depth(
    a: BookModel,
    b: BookModel,
    side: Side,
    limit: nat,
    items: Seq<DepthItem>,
)
    requires
        a.valid(),
        b.valid(),
        a.orders == b.orders,
        a.shows(side, limit, items),
    ensures
        b.shows(side, limit, items),
{
    assert forall|price: Price| #[trigger]
        a.levels(side).contains_key(price) == b.levels(side).contains_key(price) by {
        lemma_level_has_order(a, side, price);
        lemma_level_has_order(b, side, price);
    }
    assert(a.levels(side).dom() =~= b.levels(side).dom());
    assert forall|price: Price| #[trigger] a.levels(side).contains_key(price) implies a.volume(
        side,
        price,
    ) == b.volume(side, price) by {
        assert(a.level_valid(side, price));
        assert(b.levels(side).contains_key(price));
        assert(b.level_valid(side, price));
        lemma_queue_part(b, side, price, a.queue(side, price));
        lemma_queue_part(a, side, price, b.queue(side, price));
        assert(orders_of(a.queue(side, price), a.orders) =~= a.queue_orders(side, price));
        assert(orders_of(b.queue(side, price), b.orders) =~= b.queue_orders(side, price));
    }
    assert forall|i: int, price: Price|
        0 <= i < items.len() && #[trigger] b.levels(side).contains_key(price) implies (exists|
        j: int,
    | 0 <= j < items.len() && #[trigger] items[j].price == price)
        || crate::order::book::model::better(side, (#[trigger] items[i]).price, price) by {
        assert(a.levels(side).contains_key(price));
    }
}

impl WarmModel {
    /// Open orders say that they are open; closed orders that are kept stand under their id, say
    /// when they were closed, and are due for eviction then.
    pub open spec fn consistent(self) -> bool {
        &&& forall|id: Id| #[trigger]
            self.hot.orders.contains_key(id) ==> self.hot.orders[id].closed_by is None
        &&& forall|id: Id| #[trigger]
            self.closed.current.contains_key(id) ==> {
                let order = self.closed.current[id];
                &&& order.id == id
                &&& order.closed_by is Some
                &&& self.closing.contains((order.closed_by->0, id))
            }
    }

    /// Keeping closed orders keeps the book consistent.
    proof fn lemma_keep_all_consistent(self, orders: Seq<Order>)
        requires
            self.consistent(),
            forall|i: int| 0 <= i < orders.len() ==> (#[trigger] orders[i]).closed_by is Some,
        ensures
            self.keep_all(orders).consistent(),
        decreases orders.len(),
    {
        if orders.len() > 0 {
            let front = orders.drop_last();
            assert forall|i: int| 0 <= i < front.len() implies (
            #[trigger] front[i]).closed_by is Some by {
                assert(front[i] == orders[i]);
            }
            self.lemma_keep_all_consistent(front);
            assert(orders[orders.len() - 1] == orders.last());
        }
    }

    /// Everything that a book does keeps it consistent.
    pub proof fn law_stays_consistent(self, order: Order, id: Id, seq: SeqNo)
        requires
            self.consistent(),
            self.hot.valid(),
        ensures
            order.closed_by is None ==> self.add(order).consistent(),
            self.hot.orders.contains_key(id) ==> self.cancel(id, seq).consistent(),
            self.matched().consistent(),
            self.evict(seq).consistent(),
            self.reload(order).consistent(),
    {
        if self.hot.orders.contains_key(id) {
            assert(self.hot.order_valid(id));
        }
        self.hot.law_closed_orders();
        self.lemma_matched_hot();
        let hot = self.hot.matched().book;
        assert forall|other: Id| #[trigger] hot.orders.contains_key(other) implies hot.orders[other].closed_by is None by {
            if self.hot.orders.contains_key(other) {
                self.hot.law_matching_accounts_for_volume(other);
            } else {
                self.hot.lemma_never_open(other);
            }
        }
        WarmModel { hot, ..self }.lemma_keep_all_consistent(self.hot.matched().closed);
        assert forall|other: Id| #[trigger]
            self.evict(seq).closed.current.contains_key(other) implies self.evict(
            seq,
        ).closing.contains((self.closed.current[other].closed_by->0, other)) by {
            assert(!self.archived_ids(seq).contains(other));
        }
    }

    /// No order is both open and closed, and the client id of every order leads to it.
    pub open spec fn indexed(self) -> bool {
        &&& forall|id: Id| #[trigger]
            self.hot.orders.contains_key(id) ==> {
                &&& !self.closed.current.contains_key(id)
                &&& self.clients.contains_key(self.hot.orders[id].key())
                &&& self.clients[self.hot.orders[id].key()] == id
            }
        &&& forall|id: Id| #[trigger]
            self.closed.current.contains_key(id) ==> {
                &&& self.clients.contains_key(self.closed.current[id].key())
                &&& self.clients[self.closed.current[id].key()] == id
            }
    }

    /// Keeping closed orders of which none is open, and whose client ids lead to them, keeps the
    /// index.
    proof fn lemma_keep_all_indexed(self, orders: Seq<Order>)
        requires
            self.indexed(),
            forall|i: int|
                0 <= i < orders.len() ==> {
                    &&& !self.hot.orders.contains_key((#[trigger] orders[i]).id)
                    &&& self.clients.contains_key(orders[i].key())
                    &&& self.clients[orders[i].key()] == orders[i].id
                },
        ensures
            self.keep_all(orders).indexed(),
        decreases orders.len(),
    {
        if orders.len() > 0 {
            let front = orders.drop_last();
            assert forall|i: int| 0 <= i < front.len() implies {
                &&& !self.hot.orders.contains_key((#[trigger] front[i]).id)
                &&& self.clients.contains_key(front[i].key())
                &&& self.clients[front[i].key()] == front[i].id
            } by {
                assert(front[i] == orders[i]);
            }
            self.lemma_keep_all_indexed(front);
            self.lemma_keep_all(front);
            assert(orders[orders.len() - 1] == orders.last());
        }
    }

    /// Adding an order under a new id and a new client id, canceling, matching and evicting keep
    /// the client ids in order.
    pub proof fn law_index_is_kept(self, order: Order, id: Id, seq: SeqNo)
        requires
            self.indexed(),
            self.hot.valid(),
        ensures
            !self.clients.contains_key(order.key()) && !self.hot.orders.contains_key(order.id)
                && !self.closed.current.contains_key(order.id) ==> self.add(order).indexed(),
            self.hot.orders.contains_key(id) ==> self.cancel(id, seq).indexed(),
            self.matched().indexed(),
            self.evict(seq).indexed(),
    {
        if self.hot.orders.contains_key(id) {
            assert(self.hot.order_valid(id));
        }
        self.hot.law_closed_orders();
        let out = self.hot.matched();
        let mid = WarmModel { hot: out.book, ..self };
        assert forall|other: Id| #[trigger] out.book.orders.contains_key(other) implies {
            &&& self.hot.orders.contains_key(other)
            &&& out.book.orders[other].key() == self.hot.orders[other].key()
        } by {
            if self.hot.orders.contains_key(other) {
                self.hot.law_matching_accounts_for_volume(other);
            } else {
                self.hot.lemma_never_open(other);
            }
        }
        assert(mid.indexed());
        assert forall|i: int| 0 <= i < out.closed.len() implies {
            &&& !mid.hot.orders.contains_key((#[trigger] out.closed[i]).id)
            &&& mid.clients.contains_key(out.closed[i].key())
            &&& mid.clients[out.closed[i].key()] == out.closed[i].id
        } by {
            assert(self.hot.closes(out.closed[i]));
        }
        mid.lemma_keep_all_indexed(out.closed);
        let gone = self.archived_ids(seq);
        let after = self.evict(seq);
        assert forall|other: Id| #[trigger] after.hot.orders.contains_key(other) implies {
            &&& !after.closed.current.contains_key(other)
            &&& after.clients.contains_key(after.hot.orders[other].key())
            &&& after.clients[after.hot.orders[other].key()] == other
        } by {
            let key = self.hot.orders[other].key();
            if self.keys_of(gone).contains(key) {
                let k = choose|k: Id| #[trigger]
                    gone.contains(k) && self.closed.current.contains_key(k)
                        && self.closed.current[k].key() == key;
                assert(self.clients[key] == k);
            }
        }
        assert forall|other: Id| #[trigger] after.closed.current.contains_key(other) implies {
            &&& after.clients.contains_key(after.closed.current[other].key())
            &&& after.clients[after.closed.current[other].key()] == other
        } by {
            let key = self.closed.current[other].key();
            if self.keys_of(gone).contains(key) {
                let k = choose|k: Id| #[trigger]
                    gone.contains(k) && self.closed.current.contains_key(k)
                        && self.closed.current[k].key() == key;
                assert(self.clients[key] == k);
            }
        }
    }

    /// Where the client ids are in order, an order is found by its client id exactly as by its id.
    pub proof fn law_client_ids_find_orders(self, id: Id)
        requires
            self.indexed(),
        ensures
            self.find(id) matches Some(order) ==> self.find_by_key(order.key()) == Some(order),
    {
    }

    /// Taking in orders batch by batch is taking them in at once.
    pub proof fn law_batches_add_up(self, a: Seq<Order>, b: Seq<Order>)
        ensures
            self.reloaded(a + b) == self.reloaded(a).reloaded(b),
        decreases b.len(),
    {
        if b.len() == 0 {
            assert(a + b =~= a);
        } else {
            assert((a + b).drop_last() =~= a + b.drop_last());
            self.law_batches_add_up(a, b.drop_last());
        }
    }

    /// Taking the first `n` open orders of a valid book into a book with none gives those
    /// orders; the next one can be accepted.
    proof fn lemma_reload_open(self, ids: Seq<Id>, source: BookModel, n: int)
        requires
            self.hot == BookModel::empty(),
            source.valid(),
            ids.no_duplicates(),
            forall|i: int|
                0 <= i < ids.len() ==> {
                    &&& source.orders.contains_key(#[trigger] ids[i])
                    &&& source.orders[ids[i]].closed_by is None
                },
            0 <= n <= ids.len(),
        ensures
            ({
                let after = self.reloaded(orders_of(ids, source.orders).take(n));
                &&& after.hot.valid()
                &&& after.closed == self.closed
                &&& after.closing == self.closing
                &&& after.hot.orders.dom() == ids.take(n).to_set()
                &&& forall|id: Id| #[trigger]
                    after.hot.orders.contains_key(id) ==> {
                        &&& after.hot.orders[id] == source.orders[id]
                        &&& after.hot.fills[id] == Fills::of(source.orders[id])
                    }
                &&& n < ids.len() ==> {
                    &&& after.hot.restores(source.orders[ids[n]])
                    &&& after.hot.accepts(source.orders[ids[n]])
                }
            }),
        decreases n,
    {
        let orders = orders_of(ids, source.orders);
        let after = self.reloaded(orders.take(n));
        if n == 0 {
            assert(orders.take(0) =~= Seq::empty());
            assert(ids.take(0).to_set() =~= Set::empty());
            assert(after.hot.orders.dom() =~= ids.take(0).to_set());
        } else {
            self.lemma_reload_open(ids, source, n - 1);
            self.lemma_reload_step(orders, n - 1);
            let before = self.reloaded(orders.take(n - 1));
            let order = source.orders[ids[n - 1]];
            assert(orders[n - 1] == order);
            assert(source.order_valid(ids[n - 1]));
            before.hot.lemma_add(order);
            assert(after.hot.orders.dom() =~= ids.take(n).to_set()) by {
                assert forall|id: Id| #[trigger] ids.take(n).to_set().contains(id) <==> (ids.take(
                    n - 1,
                ).to_set().contains(id) || id == ids[n - 1]) by {
                    let longer = ids.take(n);
                    let shorter = ids.take(n - 1);
                    if shorter.contains(id) {
                        assert(longer[shorter.index_of(id)] == id);
                    }
                    assert(longer[n - 1] == ids[n - 1]);
                    if longer.contains(id) && id != ids[n - 1] {
                        assert(shorter[longer.index_of(id)] == id);
                    }
                }
            }
        }
        if n < ids.len() {
            let order = source.orders[ids[n]];
            assert(source.order_valid(ids[n]));
            assert(!after.hot.orders.contains_key(order.id)) by {
                if ids.take(n).to_set().contains(order.id) {
                    let i = ids.take(n).index_of(order.id);
                    assert(ids.take(n)[i] == order.id);
                    assert(ids[i] == ids[n]);
                }
            }
            let queue = after.hot.queue(order.side, order.price);
            let longer = queue.push(order.id);
            if after.hot.levels(order.side).contains_key(order.price) {
                assert(after.hot.level_valid(order.side, order.price));
            }
            assert forall|i: int| 0 <= i < queue.len() implies after.hot.orders.contains_key(
                #[trigger] queue[i],
            ) && ids.take(n).to_set().contains(queue[i]) by {}
            assert forall|i: int| 0 <= i < longer.len() implies {
                &&& source.orders.contains_key(#[trigger] longer[i])
                &&& source.orders[longer[i]].side == order.side
                &&& source.orders[longer[i]].price == order.price
            } by {
                if i < queue.len() {
                    assert(longer[i] == queue[i]);
                    let j = ids.take(n).index_of(queue[i]);
                    assert(ids.take(n)[j] == queue[i]);
                    assert(ids[j] == queue[i]);
                }
            }
            lemma_queue_part(source, order.side, order.price, longer);
            let standing = after.hot.queue_orders(order.side, order.price);
            assert(orders_of(longer, source.orders) =~= standing.push(order));
            crate::order::book::model::lemma_open_volume_push(standing, order);
        }
    }

    /// Taking in the first `n` closed orders keeps just those.
    proof fn lemma_reload_closed(self, ids: Seq<Id>, source: Map<Id, Order>, n: int)
        requires
            self.closed.current == Map::<Id, Order>::empty(),
            ids.no_duplicates(),
            forall|i: int|
                0 <= i < ids.len() ==> {
                    &&& source.contains_key(#[trigger] ids[i])
                    &&& source[ids[i]].id == ids[i]
                    &&& source[ids[i]].closed_by is Some
                },
            0 <= n <= ids.len(),
        ensures
            ({
                let after = self.reloaded(orders_of(ids, source).take(n));
                &&& after.hot == self.hot
                &&& after.closed.current.dom() == ids.take(n).to_set()
                &&& forall|id: Id| #[trigger]
                    after.closed.current.contains_key(id) ==> {
                        &&& after.closed.current[id] == source[id]
                        &&& after.closing.contains((source[id].closed_by->0, id))
                    }
            }),
        decreases n,
    {
        let orders = orders_of(ids, source);
        let after = self.reloaded(orders.take(n));
        if n == 0 {
            assert(orders.take(0) =~= Seq::empty());
            assert(ids.take(0).to_set() =~= Set::empty());
            assert(after.closed.current.dom() =~= ids.take(0).to_set());
        } else {
            self.lemma_reload_closed(ids, source, n - 1);
            self.lemma_reload_step(orders, n - 1);
            let before = self.reloaded(orders.take(n - 1));
            assert(orders[n - 1] == source[ids[n - 1]]);
            assert(after.closed.current.dom() =~= ids.take(n).to_set()) by {
                assert forall|id: Id| #[trigger] ids.take(n).to_set().contains(id) <==> (ids.take(
                    n - 1,
                ).to_set().contains(id) || id == ids[n - 1]) by {
                    let longer = ids.take(n);
                    let shorter = ids.take(n - 1);
                    if shorter.contains(id) {
                        assert(longer[shorter.index_of(id)] == id);
                    }
                    assert(longer[n - 1] == ids[n - 1]);
                    if longer.contains(id) && id != ids[n - 1] {
                        assert(shorter[longer.index_of(id)] == id);
                    }
                }
            }
        }
    }
}

impl WarmModel {
    /// Taking in the first `n` orders, of which each open one is new, makes their client ids lead
    /// to them, if no two of them have the same client id under different ids.
    proof fn lemma_reload_clients(self, orders: Seq<Order>, n: int)
        requires
            0 <= n <= orders.len(),
            forall|i: int, j: int|
                0 <= i < orders.len() && 0 <= j < orders.len() && (#[trigger] orders[i]).key() == (
                #[trigger] orders[j]).key() ==> orders[i].id == orders[j].id,
            forall|i: int|
                0 <= i < orders.len() ==> (#[trigger] orders[i]).closed_by is Some
                    || self.reloaded(orders.take(i)).hot.restores(orders[i]),
        ensures
            forall|i: int|
                0 <= i < n ==> {
                    let clients = self.reloaded(orders.take(n)).clients;
                    &&& clients.contains_key((#[trigger] orders[i]).key())
                    &&& clients[orders[i].key()] == orders[i].id
                },
        decreases n,
    {
        if n > 0 {
            self.lemma_reload_clients(orders, n - 1);
            self.lemma_reload_step(orders, n - 1);
            assert(orders[n - 1].closed_by is Some || self.reloaded(orders.take(n - 1)).hot.restores(
                orders[n - 1],
            ));
            let before = self.reloaded(orders.take(n - 1)).clients;
            let after = self.reloaded(orders.take(n)).clients;
            assert(after == before.insert(orders[n - 1].key(), orders[n - 1].id));
            assert forall|i: int| 0 <= i < n implies {
                &&& after.contains_key((#[trigger] orders[i]).key())
                &&& after[orders[i].key()] == orders[i].id
            } by {
                if i < n - 1 && orders[i].key() != orders[n - 1].key() {
                    assert(before.contains_key(orders[i].key()));
                }
            }
        }
    }
}

impl WarmModel {
    /// Taking orders into a book that has noted nothing notes only what is of these orders.
    proof fn lemma_reload_sources(self, orders: Seq<Order>)
        requires
            self.clients == Map::<Seq<char>, Id>::empty(),
            self.closing == Set::<(SeqNo, Id)>::empty(),
        ensures
            forall|key: Seq<char>| #[trigger]
                self.reloaded(orders).clients.contains_key(key) ==> exists|i: int|
                    {
                        &&& 0 <= i < orders.len()
                        &&& (#[trigger] orders[i]).key() == key
                        &&& orders[i].id == self.reloaded(orders).clients[key]
                    },
            forall|pair: (SeqNo, Id)| #[trigger]
                self.reloaded(orders).closing.contains(pair) ==> closes_pair(orders, pair),
        decreases orders.len(),
    {
        if orders.len() > 0 {
            let front = orders.drop_last();
            let last = orders.last();
            self.lemma_reload_sources(front);
            assert(orders[orders.len() - 1] == last);
            let before = self.reloaded(front);
            let after = self.reloaded(orders);
            assert forall|key: Seq<char>| #[trigger] after.clients.contains_key(key) implies exists|
                i: int,
            |
                {
                    &&& 0 <= i < orders.len()
                    &&& (#[trigger] orders[i]).key() == key
                    &&& orders[i].id == after.clients[key]
                } by {
                if key == last.key() && after.clients[key] == last.id {
                    assert(orders[orders.len() - 1].key() == key);
                } else {
                    assert(before.clients.contains_key(key));
                    let i = choose|i: int|
                        {
                            &&& 0 <= i < front.len()
                            &&& (#[trigger] front[i]).key() == key
                            &&& front[i].id == before.clients[key]
                        };
                    assert(orders[i] == front[i]);
                }
            }
            assert forall|pair: (SeqNo, Id)| #[trigger] after.closing.contains(
                pair,
            ) implies closes_pair(orders, pair) by {
                if before.closing.contains(pair) {
                    let i = choose|i: int|
                        {
                            &&& 0 <= i < front.len()
                            &&& (#[trigger] front[i]).closed_by == Some(pair.0)
                            &&& front[i].id == pair.1
                        };
                    assert(orders[i] == front[i]);
                } else {
                    assert(orders[orders.len() - 1].closed_by == Some(pair.0));
                }
            }
        }
    }
}

/// A snapshot of a consistent book, streamed to its end and restored into a new book, brings
/// back every open and every closed order, and nothing else: the new book can accept all of
/// them, shows the same depth, finds the same orders by id, and will evict the closed ones when
/// they were due. The average price of an open order goes on from the one that it tells. Where
/// client ids led to their orders, they do again, and nothing unknown is noted.
pub proof fn law_snapshot_restores_orders(m: WarmModel, open: Seq<Order>, closed: Seq<Order>)
    requires
        m.hot.valid(),
        m.consistent(),
        crate::order::book::lists_all(open.map_values(|o: Order| Some(o)), m.hot.orders),
        crate::order::book::lists_all(closed.map_values(|o: Order| Some(o)), m.closed.current),
    ensures
        ({
            let fresh = WarmModel::over(BookModel::empty(), None);
            let after = fresh.reloaded(open + closed);
            &&& fresh.reloadable(open + closed)
            &&& after.hot.valid()
            &&& after.hot.orders == m.hot.orders
            &&& forall|id: Id| #[trigger]
                after.hot.orders.contains_key(id) ==> after.hot.fills[id] == Fills::of(
                    m.hot.orders[id],
                )
            &&& after.closed.current == m.closed.current
            &&& after.consistent()
            &&& m.indexed() ==> after.indexed() && after.only_known()
            &&& forall|id: Id| #[trigger] after.find(id) == m.find(id)
            &&& forall|side: Side, limit: nat, items: Seq<DepthItem>| #[trigger]
                m.hot.shows(side, limit, items) ==> after.hot.shows(side, limit, items)
        }),
{
    let fresh = WarmModel::over(BookModel::empty(), None);
    let some = |o: Order| Some(o);
    let open_ids = choose|ids: Seq<Id>|
        {
            &&& ids.no_duplicates()
            &&& ids.to_set() == m.hot.orders.dom()
            &&& open.map_values(some) == #[trigger] crate::order::book::orders_with(
                ids,
                m.hot.orders,
            )
        };
    let closed_ids = choose|ids: Seq<Id>|
        {
            &&& ids.no_duplicates()
            &&& ids.to_set() == m.closed.current.dom()
            &&& closed.map_values(some) == #[trigger] crate::order::book::orders_with(
                ids,
                m.closed.current,
            )
        };
    lemma_listed(open, open_ids, m.hot.orders);
    lemma_listed(closed, closed_ids, m.closed.current);
    fresh.lemma_reload_open(open_ids, m.hot, open_ids.len() as int);
    let mid = fresh.reloaded(open);
    assert(open.take(open.len() as int) =~= open);
    assert(open_ids.take(open_ids.len() as int) =~= open_ids);
    mid.lemma_reload_closed(closed_ids, m.closed.current, closed_ids.len() as int);
    assert(closed.take(closed.len() as int) =~= closed);
    assert(closed_ids.take(closed_ids.len() as int) =~= closed_ids);
    fresh.law_batches_add_up(open, closed);
    let after = fresh.reloaded(open + closed);
    assert(after.hot.orders =~= m.hot.orders);
    assert(after.closed.current =~= m.closed.current);
    let all = open + closed;
    assert forall|i: int|
        0 <= i < all.len() && (#[trigger] fresh.reloaded(all.take(i))).hot.restores(
            all[i],
        ) implies fresh.reloaded(all.take(i)).hot.accepts(all[i]) by {
        if i < open.len() {
            assert(all.take(i) =~= open.take(i));
            fresh.lemma_reload_open(open_ids, m.hot, i);
        } else {
            assert(all[i] == closed[i - open.len()]);
            assert(m.closed.current.contains_key(closed_ids[i - open.len()]));
        }
    }
    if m.indexed() {
        assert forall|i: int| 0 <= i < all.len() implies (#[trigger] all[i]).closed_by is Some
            || fresh.reloaded(all.take(i)).hot.restores(all[i]) by {
            if i < open.len() {
                assert(all.take(i) =~= open.take(i));
                fresh.lemma_reload_open(open_ids, m.hot, i);
                assert(all[i] == m.hot.orders[open_ids[i]]);
            } else {
                assert(all[i] == closed[i - open.len()]);
                assert(m.closed.current.contains_key(closed_ids[i - open.len()]));
            }
        }
        assert forall|i: int| 0 <= i < all.len() implies m.clients[(#[trigger] all[i]).key()]
            == all[i].id by {
            if i < open.len() {
                assert(all[i] == m.hot.orders[open_ids[i]]);
                assert(m.hot.order_valid(open_ids[i]));
            } else {
                assert(all[i] == closed[i - open.len()]);
                assert(m.closed.current.contains_key(closed_ids[i - open.len()]));
            }
        }
        fresh.lemma_reload_clients(all, all.len() as int);
        assert(all.take(all.len() as int) =~= all);
        assert forall|id: Id| #[trigger] after.hot.orders.contains_key(id) implies {
            &&& after.clients.contains_key(after.hot.orders[id].key())
            &&& after.clients[after.hot.orders[id].key()] == id
        } by {
            assert(open_ids.to_set().contains(id));
            let i = open_ids.index_of(id);
            assert(open_ids[i] == id);
            assert(all[i] == m.hot.orders[id]);
            assert(m.hot.order_valid(id));
        }
        assert forall|id: Id| #[trigger] after.closed.current.contains_key(id) implies {
            &&& after.clients.contains_key(after.closed.current[id].key())
            &&& after.clients[after.closed.current[id].key()] == id
        } by {
            assert(closed_ids.to_set().contains(id));
            let i = closed_ids.index_of(id);
            assert(closed_ids[i] == id);
            assert(all[open.len() + i] == m.closed.current[id]);
        }
        fresh.lemma_reload_sources(all);
        assert forall|key: Seq<char>| #[trigger] after.clients.contains_key(key) implies match after.find(
            after.clients[key],
        ) {
            Some(order) => order.key() == key,
            None => false,
        } by {
            let i = choose|i: int|
                {
                    &&& 0 <= i < all.len()
                    &&& (#[trigger] all[i]).key() == key
                    &&& all[i].id == after.clients[key]
                };
            if i < open.len() {
                assert(all[i] == m.hot.orders[open_ids[i]]);
                assert(m.hot.order_valid(open_ids[i]));
            } else {
                assert(all[i] == closed[i - open.len()]);
                assert(m.closed.current.contains_key(closed_ids[i - open.len()]));
            }
        }
        assert forall|seq: SeqNo, id: Id| #[trigger] after.closing.contains((seq, id)) implies {
            &&& after.closed.current.contains_key(id)
            &&& after.closed.current[id].closed_by == Some(seq)
        } by {
            let i = choose|i: int|
                {
                    &&& 0 <= i < all.len()
                    &&& (#[trigger] all[i]).closed_by == Some(seq)
                    &&& all[i].id == id
                };
            if i < open.len() {
                assert(all[i] == m.hot.orders[open_ids[i]]);
            } else {
                assert(all[i] == closed[i - open.len()]);
                assert(m.closed.current.contains_key(closed_ids[i - open.len()]));
            }
        }
    }
    assert forall|side: Side, limit: nat, items: Seq<DepthItem>| #[trigger]
        m.hot.shows(side, limit, items) implies after.hot.shows(side, limit, items) by {
        law_same_orders_show_same_depth(m.hot, after.hot, side, limit, items);
    }
}

/// The id of a closed order among `orders`.
pub open spec fn closes_id(orders: Seq<Order>, id: Id) -> bool {
    exists|i: int|
        0 <= i < orders.len() && (#[trigger] orders[i]).closed_by is Some && orders[i].id == id
}

/// The client id of a closed order among `orders`.
pub open spec fn closes_key(orders: Seq<Order>, key: Seq<char>) -> bool {
    exists|i: int|
        0 <= i < orders.len() && (#[trigger] orders[i]).closed_by is Some && orders[i].key() == key
}

/// A closed order among `orders`, by closing number and id.
pub open spec fn closes_pair(orders: Seq<Order>, pair: (SeqNo, Id)) -> bool {
    exists|i: int|
        {
            &&& 0 <= i < orders.len()
            &&& (#[trigger] orders[i]).closed_by == Some(pair.0)
            &&& orders[i].id == pair.1
        }
}

impl WarmModel {
    /// What restoring leaves under an id or a client id depends on the orders alone, where one
    /// of them has it, and is what was there before, where none has.
    proof fn lemma_restored_entries(self, other: WarmModel, orders: Seq<Order>)
        requires
            self.closed.session is Some == other.closed.session is Some,
        ensures
            ({
                let a = self.restored(orders);
                let b = other.restored(orders);
                &&& a.hot == self.hot
                &&& a.hot_pending == self.hot_pending
                &&& a.stream == self.stream
                &&& a.closed.session is Some == self.closed.session is Some
                &&& forall|id: Id| #[trigger]
                    a.closed.current.contains_key(id) <==> self.closed.current.contains_key(id)
                        || closes_id(orders, id)
                &&& forall|id: Id| #[trigger]
                    closes_id(orders, id) ==> a.closed.current[id] == b.closed.current[id]
                &&& forall|id: Id|
                    !#[trigger] closes_id(orders, id) ==> a.closed.current[id]
                        == self.closed.current[id]
                &&& forall|key: Seq<char>| #[trigger]
                    a.clients.contains_key(key) <==> self.clients.contains_key(key) || closes_key(
                        orders,
                        key,
                    )
                &&& forall|key: Seq<char>| #[trigger]
                    closes_key(orders, key) ==> a.clients[key] == b.clients[key]
                &&& forall|key: Seq<char>|
                    !#[trigger] closes_key(orders, key) ==> a.clients[key] == self.clients[key]
                &&& forall|pair: (SeqNo, Id)| #[trigger]
                    a.closing.contains(pair) <==> self.closing.contains(pair) || closes_pair(
                        orders,
                        pair,
                    )
                &&& a.closed.session matches Some(s) ==> {
                    &&& s.stash == self.closed.session->0.stash
                    &&& forall|id: Id| #[trigger]
                        s.added.contains(id) <==> self.closed.session->0.added.contains(id)
                            || closes_id(orders, id)
                }
            }),
        decreases orders.len(),
    {
        if orders.len() > 0 {
            let front = orders.drop_last();
            let last = orders.last();
            self.lemma_restored_entries(other, front);
            assert(orders[orders.len() - 1] == last);
            assert forall|id: Id| #[trigger] closes_id(orders, id) <==> closes_id(front, id) || (
            last.closed_by is Some && last.id == id) by {
                if closes_id(front, id) {
                    let i = choose|i: int|
                        0 <= i < front.len() && (#[trigger] front[i]).closed_by is Some
                            && front[i].id == id;
                    assert(orders[i] == front[i]);
                }
                if closes_id(orders, id) {
                    let i = choose|i: int|
                        0 <= i < orders.len() && (#[trigger] orders[i]).closed_by is Some
                            && orders[i].id == id;
                    if i < front.len() {
                        assert(front[i] == orders[i]);
                    }
                }
            }
            assert forall|key: Seq<char>| #[trigger] closes_key(orders, key) <==> closes_key(
                front,
                key,
            ) || (last.closed_by is Some && last.key() == key) by {
                if closes_key(front, key) {
                    let i = choose|i: int|
                        0 <= i < front.len() && (#[trigger] front[i]).closed_by is Some
                            && front[i].key() == key;
                    assert(orders[i] == front[i]);
                }
                if closes_key(orders, key) {
                    let i = choose|i: int|
                        0 <= i < orders.len() && (#[trigger] orders[i]).closed_by is Some
                            && orders[i].key() == key;
                    if i < front.len() {
                        assert(front[i] == orders[i]);
                    }
                }
            }
            assert forall|pair: (SeqNo, Id)| #[trigger] closes_pair(orders, pair) <==> closes_pair(
                front,
                pair,
            ) || (last.closed_by == Some(pair.0) && last.id == pair.1) by {
                if closes_pair(front, pair) {
                    let i = choose|i: int|
                        0 <= i < front.len() && (#[trigger] front[i]).closed_by == Some(pair.0)
                            && front[i].id == pair.1;
                    assert(orders[i] == front[i]);
                }
                if closes_pair(orders, pair) {
                    let i = choose|i: int|
                        0 <= i < orders.len() && (#[trigger] orders[i]).closed_by == Some(pair.0)
                            && orders[i].id == pair.1;
                    if i < front.len() {
                        assert(front[i] == orders[i]);
                    }
                }
            }
        }
    }
}

/// Taking in the same closed orders once more changes nothing.
pub proof fn law_restoring_closed_orders_is_idempotent(m: WarmModel, orders: Seq<Order>)
    ensures
        m.restored(orders).restored(orders) == m.restored(orders),
{
    let once = m.restored(orders);
    m.lemma_restored_entries(m, orders);
    once.lemma_restored_entries(m, orders);
    let twice = once.restored(orders);
    assert forall|id: Id| #[trigger]
        twice.closed.current.contains_key(id) implies twice.closed.current[id]
        == once.closed.current[id] by {
        if closes_id(orders, id) {
            assert(twice.closed.current[id] == once.closed.current[id]);
        }
    }
    assert forall|key: Seq<char>| #[trigger] twice.clients.contains_key(key) implies twice.clients[key]
        == once.clients[key] by {
        if closes_key(orders, key) {
            assert(twice.clients[key] == once.clients[key]);
        }
    }
    assert(twice.closed.current =~= once.closed.current);
    assert(twice.clients =~= once.clients);
    assert(twice.closing =~= once.closing);
    if once.closed.session is Some {
        assert(twice.closed.session->0.added =~= once.closed.session->0.added);
    }
    assert(twice =~= once);
}

impl WarmModel {
    /// Taking in open and closed orders adds the open ones to the open orders, and keeps the
    /// closed ones with the closed orders, each apart from the other.
    proof fn lemma_reloaded_parts(self, like: WarmModel, orders: Seq<Order>)
        requires
            like.closed == self.closed,
            like.closing == self.closing,
        ensures
            self.reloaded(orders).hot == self.hot.restored(orders),
            self.reloaded(orders).hot_pending == self.hot_pending,
            self.reloaded(orders).stream == self.stream,
            self.reloaded(orders).closed == like.restored(orders).closed,
            self.reloaded(orders).closing == like.restored(orders).closing,
        decreases orders.len(),
    {
        if orders.len() > 0 {
            self.lemma_reloaded_parts(like, orders.drop_last());
        }
    }
}

/// No open order among `orders` shares its client id with a closed one that has another id.
pub open spec fn keys_agree(orders: Seq<Order>) -> bool {
    forall|i: int, j: int|
        {
            &&& 0 <= i < orders.len()
            &&& 0 <= j < orders.len()
            &&& (#[trigger] orders[i]).closed_by is None
            &&& (#[trigger] orders[j]).closed_by is Some
            &&& orders[i].key() == orders[j].key()
        } ==> orders[i].id == orders[j].id
}

impl WarmModel {
    /// Where the open orders among `orders` are all open on the book, taking `orders` in takes
    /// in the closed ones only.
    proof fn lemma_reload_known(self, orders: Seq<Order>)
        requires
            forall|i: int|
                0 <= i < orders.len() && (#[trigger] orders[i]).closed_by is None
                    ==> self.hot.orders.contains_key(orders[i].id),
        ensures
            self.reloaded(orders) == self.restored(orders),
            self.restored(orders).hot == self.hot,
        decreases orders.len(),
    {
        if orders.len() > 0 {
            let front = orders.drop_last();
            assert forall|i: int|
                0 <= i < front.len() && (
                #[trigger] front[i]).closed_by is None implies self.hot.orders.contains_key(
                front[i].id,
            ) by {
                assert(front[i] == orders[i]);
            }
            self.lemma_reload_known(front);
            assert(orders[orders.len() - 1] == orders.last());
        }
    }

    /// The client id of a closed order among `orders` leads, once they are taken in, to the same
    /// closed order whether the open ones are taken in with it or not.
    proof fn lemma_reloaded_keys(self, orders: Seq<Order>)
        requires
            keys_agree(orders),
        ensures
            forall|key: Seq<char>| #[trigger]
                closes_key(orders, key) ==> {
                    let id = self.restored(orders).clients[key];
                    &&& self.reloaded(orders).clients.contains_key(key)
                    &&& self.reloaded(orders).clients[key] == id
                    &&& exists|j: int|
                        {
                            &&& 0 <= j < orders.len()
                            &&& (#[trigger] orders[j]).closed_by is Some
                            &&& orders[j].key() == key
                            &&& orders[j].id == id
                        }
                },
        decreases orders.len(),
    {
        if orders.len() > 0 {
            let front = orders.drop_last();
            let last = orders.last();
            let at = orders.len() - 1;
            assert(orders[at] == last);
            assert forall|i: int| 0 <= i < front.len() implies #[trigger] front[i]
                == orders[i] by {}
            assert(keys_agree(front)) by {
                assert forall|i: int, j: int|
                    {
                        &&& 0 <= i < front.len()
                        &&& 0 <= j < front.len()
                        &&& (#[trigger] front[i]).closed_by is None
                        &&& (#[trigger] front[j]).closed_by is Some
                        &&& front[i].key() == front[j].key()
                    } implies front[i].id == front[j].id by {
                    assert(front[i] == orders[i] && front[j] == orders[j]);
                }
            }
            self.lemma_reloaded_keys(front);
            assert forall|key: Seq<char>| #[trigger] closes_key(orders, key) implies {
                let id = self.restored(orders).clients[key];
                &&& self.reloaded(orders).clients.contains_key(key)
                &&& self.reloaded(orders).clients[key] == id
                &&& exists|j: int|
                    {
                        &&& 0 <= j < orders.len()
                        &&& (#[trigger] orders[j]).closed_by is Some
                        &&& orders[j].key() == key
                        &&& orders[j].id == id
                    }
            } by {
                if last.closed_by is Some && last.key() == key {
                    assert(orders[at].id == self.restored(orders).clients[key]);
                } else {
                    let i = choose|i: int|
                        0 <= i < orders.len() && (#[trigger] orders[i]).closed_by is Some
                            && orders[i].key() == key;
                    assert(front[i] == orders[i]);
                    assert(closes_key(front, key));
                    let id = self.restored(front).clients[key];
                    let j = choose|j: int|
                        {
                            &&& 0 <= j < front.len()
                            &&& (#[trigger] front[j]).closed_by is Some
                            &&& front[j].key() == key
                            &&& front[j].id == id
                        };
                    assert(orders[j] == front[j]);
                    assert(self.restored(orders).clients[key] == id);
                    if last.key() == key {
                        assert(orders[at].id == orders[j].id);
                    }
                }
            }
        }
    }
}

/// Taking in the same open and closed orders once more changes neither the open nor the closed
/// orders; and it changes nothing at all, if no open order among them shares its client id with
/// a closed one.
pub proof fn law_reloading_is_idempotent(m: WarmModel, orders: Seq<Order>)
    ensures
        ({
            let once = m.reloaded(orders);
            let twice = once.reloaded(orders);
            &&& twice.hot == once.hot
            &&& twice.hot_pending == once.hot_pending
            &&& twice.closed == once.closed
            &&& twice.closing == once.closing
            &&& twice.stream == once.stream
            &&& keys_agree(orders) ==> twice == once
        }),
{
    let once = m.reloaded(orders);
    let twice = once.reloaded(orders);
    m.lemma_reloaded_parts(m, orders);
    once.lemma_reloaded_parts(m.restored(orders), orders);
    m.hot.law_restoring_is_idempotent(orders);
    law_restoring_closed_orders_is_idempotent(m, orders);
    if keys_agree(orders) {
        m.hot.lemma_restored_ids(orders);
        once.lemma_reload_known(orders);
        m.lemma_reloaded_keys(orders);
        m.lemma_restored_entries(m, orders);
        once.lemma_restored_entries(m, orders);
        assert forall|key: Seq<char>| #[trigger]
            twice.clients.contains_key(key) implies twice.clients[key] == once.clients[key] by {
            if closes_key(orders, key) {
                assert(twice.clients[key] == m.restored(orders).clients[key]);
            }
        }
        assert forall|key: Seq<char>| #[trigger] twice.clients.contains_key(key)
            == once.clients.contains_key(key) by {
            if closes_key(orders, key) {
                assert(once.clients.contains_key(key));
            }
        }
        assert(twice.clients =~= once.clients);
        assert(twice =~= once);
    }
}

impl WarmModel {
    /// Nothing unknown is noted: every client id leads to an order that has it, and every closing
    /// number stands for a closed order that is kept and was closed then.
    pub open spec fn only_known(self) -> bool {
        &&& forall|key: Seq<char>| #[trigger]
            self.clients.contains_key(key) ==> match self.find(self.clients[key]) {
                Some(order) => order.key() == key,
                None => false,
            }
        &&& forall|seq: SeqNo, id: Id| #[trigger]
            self.closing.contains((seq, id)) ==> {
                &&& self.closed.current.contains_key(id)
                &&& self.closed.current[id].closed_by == Some(seq)
            }
    }

    /// Keeping closed orders keeps what restoring them keeps.
    proof fn lemma_kept_as_restored(self, orders: Seq<Order>)
        requires
            forall|i: int| 0 <= i < orders.len() ==> (#[trigger] orders[i]).closed_by is Some,
        ensures
            self.keep_all(orders).closed == self.restored(orders).closed,
            self.keep_all(orders).closing == self.restored(orders).closing,
        decreases orders.len(),
    {
        if orders.len() > 0 {
            let front = orders.drop_last();
            assert forall|i: int| 0 <= i < front.len() implies (
            #[trigger] front[i]).closed_by is Some by {
                assert(front[i] == orders[i]);
            }
            self.lemma_kept_as_restored(front);
            assert(orders[orders.len() - 1] == orders.last());
        }
    }

    /// Matching notes nothing unknown.
    proof fn lemma_matched_known(self)
        requires
            self.indexed(),
            self.only_known(),
            self.hot.valid(),
        ensures
            self.matched().only_known(),
    {
        let out = self.hot.matched();
        let mid = WarmModel { hot: out.book, ..self };
        let after = self.matched();
        self.hot.law_closed_orders();
        self.lemma_matched_hot();
        assert forall|i: int| 0 <= i < out.closed.len() implies {
            &&& (#[trigger] out.closed[i]).closed_by is Some
            &&& self.hot.orders.contains_key(out.closed[i].id)
            &&& out.closed[i].key() == self.hot.orders[out.closed[i].id].key()
            &&& !self.closed.current.contains_key(out.closed[i].id)
            &&& after.closed.current.contains_key(out.closed[i].id)
            &&& after.closed.current[out.closed[i].id] == out.closed[i]
        } by {
            assert(self.hot.closes(out.closed[i]));
            mid.lemma_kept(out.closed, i);
        }
        mid.lemma_kept_as_restored(out.closed);
        mid.lemma_restored_entries(mid, out.closed);
        assert forall|key: Seq<char>| #[trigger] after.clients.contains_key(key) implies match after.find(
            after.clients[key],
        ) {
            Some(order) => order.key() == key,
            None => false,
        } by {
            assert(self.clients.contains_key(key));
            let id = self.clients[key];
            if self.closed.current.contains_key(id) {
                assert(!closes_id(out.closed, id));
                assert(after.closed.current.contains_key(id));
            } else {
                assert(self.hot.orders.contains_key(id));
                self.hot.law_matching_accounts_for_volume(id);
                assert(self.hot.order_valid(id));
                if out.book.orders.contains_key(id) {
                    assert(!closes_id(out.closed, id));
                } else {
                    let done = self.hot.order_after(id, out.trades);
                    let closer = choose|closer: SeqNo|
                        out.closed.contains(#[trigger] done.closed_out(closer));
                    let i = out.closed.index_of(done.closed_out(closer));
                    assert(out.closed[i].id == id);
                }
            }
        }
        assert forall|seq: SeqNo, id: Id| #[trigger] after.closing.contains((seq, id)) implies {
            &&& after.closed.current.contains_key(id)
            &&& after.closed.current[id].closed_by == Some(seq)
        } by {
            if closes_pair(out.closed, (seq, id)) {
                let i = choose|i: int|
                    {
                        &&& 0 <= i < out.closed.len()
                        &&& (#[trigger] out.closed[i]).closed_by == Some(seq)
                        &&& out.closed[i].id == id
                    };
                assert(after.closed.current[out.closed[i].id] == out.closed[i]);
            } else {
                assert(self.closing.contains((seq, id)));
                assert(!closes_id(out.closed, id));
                assert(after.closed.current.contains_key(id));
            }
        }
    }

    /// Adding an order under a new id, canceling, matching and evicting note nothing unknown.
    pub proof fn law_only_known_orders_are_noted(self, order: Order, id: Id, seq: SeqNo)
        requires
            self.indexed(),
            self.only_known(),
            self.hot.valid(),
        ensures
            self.find(order.id) is None ==> self.add(order).only_known(),
            self.hot.orders.contains_key(id) ==> self.cancel(id, seq).only_known(),
            self.matched().only_known(),
            self.evict(seq).only_known(),
    {
        if self.find(order.id) is None {
            let after = self.add(order);
            assert forall|key: Seq<char>| #[trigger] after.clients.contains_key(key) implies match after.find(
                after.clients[key],
            ) {
                Some(found) => found.key() == key,
                None => false,
            } by {
                if key != order.key() {
                    assert(self.clients.contains_key(key));
                }
            }
        }
        if self.hot.orders.contains_key(id) {
            assert(self.hot.order_valid(id));
            let after = self.cancel(id, seq);
            assert forall|key: Seq<char>| #[trigger] after.clients.contains_key(key) implies match after.find(
                after.clients[key],
            ) {
                Some(found) => found.key() == key,
                None => false,
            } by {
                assert(self.clients.contains_key(key));
            }
        }
        self.lemma_matched_known();
        let gone = self.archived_ids(seq);
        let after = self.evict(seq);
        assert forall|key: Seq<char>| #[trigger] after.clients.contains_key(key) implies match after.find(
            after.clients[key],
        ) {
            Some(found) => found.key() == key,
            None => false,
        } by {
            assert(self.clients.contains_key(key));
            let other = self.clients[key];
            if self.closed.current.contains_key(other) && gone.contains(other) {
                assert(self.keys_of(gone).contains(key));
            }
        }
        assert forall|s: SeqNo, other: Id| #[trigger] after.closing.contains((s, other)) implies {
            &&& after.closed.current.contains_key(other)
            &&& after.closed.current[other].closed_by == Some(s)
        } by {
            assert(self.closing.contains((s, other)));
            if gone.contains(other) {
                let early = choose|early: SeqNo|
                    early <= seq && #[trigger] self.closing.contains((early, other));
                assert(self.closed.current[other].closed_by == Some(early));
            }
        }
    }

    /// A client id of a user is taken exactly if an order that the book knows of, open or closed,
    /// is of that user and has that client id.
    pub proof fn law_taken_client_ids(self, user_id: Seq<char>, client_id: Seq<char>)
        requires
            self.indexed(),
            self.only_known(),
        ensures
            self.clients.contains_key(crate::order::client_key(user_id, client_id))
                <==> self.knows_pair(user_id, client_id),
    {
        let key = crate::order::client_key(user_id, client_id);
        if self.clients.contains_key(key) {
            let id = self.clients[key];
            let order = self.find(id)->0;
            crate::order::law_client_key_is_unique(
                order.user_id@,
                order.client_id@,
                user_id,
                client_id,
            );
            assert(self.find(id) is Some);
        }
        if self.knows_pair(user_id, client_id) {
            let id = choose|id: Id| {
                let found = #[trigger] self.find(id);
                &&& found is Some
                &&& found->0.user_id@ == user_id
                &&& found->0.client_id@ == client_id
            };
            assert(self.find(id) is Some);
        }
    }

    /// The book knows of an order of this user with this client id.
    pub open spec fn knows_pair(self, user_id: Seq<char>, client_id: Seq<char>) -> bool {
        exists|id: Id| {
            let found = #[trigger] self.find(id);
            &&& found is Some
            &&& found->0.user_id@ == user_id
            &&& found->0.client_id@ == client_id
        }
    }

    /// An order under a new id is refused for its client id exactly if the book knows of an order
    /// of the same user with the same client id; otherwise it is added, and then found by its id
    /// and by its client id.
    pub proof fn law_add_refuses_known_pairs(self, order: Order)
        requires
            self.indexed(),
            self.only_known(),
            self.hot.valid(),
            self.find(order.id) is None,
        ensures
            self.clients.contains_key(order.key()) <==> self.knows_pair(
                order.user_id@,
                order.client_id@,
            ),
            !self.hot.orders.contains_key(order.id),
            !self.clients.contains_key(order.key()) ==> {
                &&& self.add(order).find(order.id) == Some(order)
                &&& self.add(order).find_by_key(order.key()) == Some(order)
                &&& self.add(order).indexed()
                &&& self.add(order).only_known()
            },
    {
        self.law_taken_client_ids(order.user_id@, order.client_id@);
        self.law_index_is_kept(order, order.id, 0);
        self.law_only_known_orders_are_noted(order, order.id, 0);
    }
}

/// A new book over no orders is in order.
pub proof fn law_new_book_is_in_order(hot_pending: Option<crate::order::book::Pending>)
    ensures
        ({
            let fresh = WarmModel::over(BookModel::empty(), hot_pending);
            &&& fresh.hot.valid()
            &&& fresh.consistent()
            &&& fresh.indexed()
            &&& fresh.only_known()
        }),
{
}

/// Listed orders are the orders with the listed ids.
proof fn lemma_listed(orders: Seq<Order>, ids: Seq<Id>, source: Map<Id, Order>)
    requires
        ids.to_set() == source.dom(),
        orders.map_values(|o: Order| Some(o)) == crate::order::book::orders_with(ids, source),
    ensures
        orders == orders_of(ids, source),
        forall|i: int| 0 <= i < ids.len() ==> source.contains_key(#[trigger] ids[i]),
{
    assert forall|i: int| 0 <= i < ids.len() implies source.contains_key(#[trigger] ids[i]) by {
        assert(ids.to_set().contains(ids[i]));
    }
    let listed = orders.map_values(|o: Order| Some(o));
    assert(listed.len() == ids.len());
    assert forall|i: int| 0 <= i < orders.len() implies orders[i] == orders_of(ids, source)[i] by {
        assert(listed[i] == Some(orders[i]));
        assert(crate::order::book::orders_with(ids, source)[i] == source.get(ids[i]));
    }
    assert(orders =~= orders_of(ids, source));
}

} // verus!
