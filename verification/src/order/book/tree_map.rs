//! Order book implementation backed by BTreeMap price levels.
//!
//! This module provides a simple price-time priority limit order book using two
//! BTreeMaps (one for bids descending, one for asks ascending). Each price level
//! maintains a FIFO queue of orders via indices into a slab, avoiding frequent
//! allocations and allowing O(1) insertion/removal within a level. Matching is
//! performed by crossing the best bid and best ask while prices overlap.

use crate::collections::key_order::{first_key, last_key};
use crate::collections::model::SnapshotModel;
use crate::collections::snapshot_slab::SnapshotableSlab;
use crate::order::{Id, Order, Price, Side, Status, Volume};
use crate::order::book::{BookState, Depth, DepthItem, Error, HotBook, Pending, SnapshotableBook};
use crate::order::book::fills::{FillTotals, Fills};
use crate::order::book::model::BookModel;
use crate::sequence::SeqNo;
use crate::trade::{now_utc, Trade};
use std::collections::{BTreeMap, HashMap};
use vstd::prelude::*;

verus! {

broadcast use {
    vstd::std_specs::hash::group_hash_axioms,
    vstd::std_specs::btree::group_btree_axioms,
    vstd::laws_cmp::group_laws_cmp,
};

/// Node representing an individual order stored in a slab and linked within a
/// price level's FIFO queue.
#[derive(Debug)]
pub struct OrderNode {
    order: Order,
    /// What has been executed of the order.
    fills: FillTotals,
    next: Option<usize>,
    prev: Option<usize>,
}

impl Clone for OrderNode {
    fn clone(&self) -> (res: Self)
        ensures
            res == *self,
    {
        OrderNode {
            order: self.order.clone(),
            fills: self.fills,
            next: self.next,
            prev: self.prev,
        }
    }
}

/// The orders at these slab indices.
spec fn orders_at(queue: Seq<usize>, nodes: Map<usize, OrderNode>) -> Seq<Order> {
    queue.map_values(|idx: usize| nodes[idx].order)
}

/// The node at position `i` of the queue points at the ones before and after it.
spec fn node_linked(queue: Seq<usize>, nodes: Map<usize, OrderNode>, i: int) -> bool {
    &&& nodes[queue[i]].prev == if i == 0 {
        None
    } else {
        Some(queue[i - 1])
    }
    &&& nodes[queue[i]].next == if i == queue.len() - 1 {
        None
    } else {
        Some(queue[i + 1])
    }
}

/// The nodes at these slab indices are linked in this order.
spec fn linked(queue: Seq<usize>, nodes: Map<usize, OrderNode>) -> bool {
    &&& queue.no_duplicates()
    &&& forall|i: int| 0 <= i < queue.len() ==> nodes.contains_key(#[trigger] queue[i])
    &&& forall|i: int| 0 <= i < queue.len() ==> #[trigger] node_linked(queue, nodes, i)
}

/// `after` holds the nodes of `before` with the same orders; only links of nodes in `queue`
/// may differ.
spec fn relinked(
    before: Map<usize, OrderNode>,
    after: Map<usize, OrderNode>,
    queue: Seq<usize>,
) -> bool {
    &&& after.dom() == before.dom()
    &&& forall|idx: usize| #[trigger]
        after.contains_key(idx) ==> {
            &&& after[idx].order == before[idx].order
            &&& after[idx].fills == before[idx].fills
            &&& !queue.contains(idx) ==> after[idx] == before[idx]
        }
}

/// Sets the forward link of a node.
fn set_next(orders: &mut SnapshotableSlab<OrderNode>, idx: usize, next: Option<usize>)
    requires
        old(orders).wf(),
        old(orders)@.current.contains_key(idx),
    ensures
        final(orders).wf(),
        old(orders)@.keeps_snapshots(final(orders)@),
        final(orders)@.current == old(orders)@.current.insert(
            idx,
            (OrderNode { next, ..old(orders)@.current[idx] }),
        ),
{
    let node = orders.index_mut(idx);
    node.next = next;
    proof {
        lemma_node_written(old(orders)@, orders@, idx);
    }
}

/// Sets the backward link of a node.
fn set_prev(orders: &mut SnapshotableSlab<OrderNode>, idx: usize, prev: Option<usize>)
    requires
        old(orders).wf(),
        old(orders)@.current.contains_key(idx),
    ensures
        final(orders).wf(),
        old(orders)@.keeps_snapshots(final(orders)@),
        final(orders)@.current == old(orders)@.current.insert(
            idx,
            (OrderNode { prev, ..old(orders)@.current[idx] }),
        ),
{
    let node = orders.index_mut(idx);
    node.prev = prev;
    proof {
        lemma_node_written(old(orders)@, orders@, idx);
    }
}

/// A node and its neighbours are different nodes.
proof fn lemma_links_differ(queue: Seq<usize>, nodes: Map<usize, OrderNode>, at: int)
    requires
        linked(queue, nodes),
        0 <= at < queue.len(),
    ensures
        nodes[queue[at]].prev matches Some(p) ==> {
            &&& at > 0
            &&& p == queue[at - 1]
            &&& p != queue[at]
            &&& nodes.contains_key(p)
            &&& nodes[queue[at]].next != Some(p)
        },
        nodes[queue[at]].next matches Some(n) ==> {
            &&& at < queue.len() - 1
            &&& n == queue[at + 1]
            &&& n != queue[at]
            &&& nodes.contains_key(n)
        },
{
    assert(node_linked(queue, nodes, at));
}

/// `now` holds the nodes of `nodes` with the node at `at` cut out of the list: its neighbours
/// point at each other.
spec fn cut_out(
    queue: Seq<usize>,
    nodes: Map<usize, OrderNode>,
    now: Map<usize, OrderNode>,
    at: int,
) -> bool {
    let node = nodes[queue[at]];
    &&& now.dom() == nodes.dom()
    &&& now[queue[at]].order == node.order
    &&& now[queue[at]].fills == node.fills
    &&& forall|idx: usize| #[trigger]
        now.contains_key(idx) && idx != queue[at] ==> now[idx] == (OrderNode {
            order: nodes[idx].order,
            fills: nodes[idx].fills,
            next: if node.prev == Some(idx) {
                node.next
            } else {
                nodes[idx].next
            },
            prev: if node.next == Some(idx) {
                node.prev
            } else {
                nodes[idx].prev
            },
        })
}

/// Cutting a node out leaves the rest of the queue linked.
proof fn lemma_unlinked(
    queue: Seq<usize>,
    nodes: Map<usize, OrderNode>,
    now: Map<usize, OrderNode>,
    at: int,
)
    requires
        linked(queue, nodes),
        0 <= at < queue.len(),
        cut_out(queue, nodes, now, at),
    ensures
        linked(queue.remove(at), now),
        relinked(nodes, now, queue),
        orders_at(queue.remove(at), now) == orders_at(queue, nodes).remove(at),
{
    let after = queue.remove(at);
    assert(node_linked(queue, nodes, at));
    assert forall|i: int| 0 <= i < after.len() implies #[trigger] after[i] == queue[if i < at {
        i
    } else {
        i + 1
    }] by {}
    assert forall|i: int| 0 <= i < after.len() implies #[trigger] node_linked(after, now, i) by {
        let j = if i < at {
            i
        } else {
            i + 1
        };
        assert(node_linked(queue, nodes, j));
        assert(after[i] == queue[j]);
        assert(queue[j] != queue[at]);
        assert(now.contains_key(queue[j]));
    }
    assert forall|idx: usize| #[trigger] now.contains_key(idx) implies {
        &&& now[idx].order == nodes[idx].order
        &&& now[idx].fills == nodes[idx].fills
        &&& !queue.contains(idx) ==> now[idx] == nodes[idx]
    } by {
        assert(queue.contains(queue[at]));
        if at > 0 {
            assert(queue.contains(queue[at - 1]));
        }
        if at < queue.len() - 1 {
            assert(queue.contains(queue[at + 1]));
        }
    }
    assert forall|i: int| 0 <= i < after.len() implies orders_at(after, now)[i] == orders_at(
        queue,
        nodes,
    ).remove(at)[i] by {
        assert(after[i] == queue[if i < at { i } else { i + 1 }]);
    }
    assert(orders_at(after, now) =~= orders_at(queue, nodes).remove(at));
}

/// Changing a node in place keeps every snapshot.
proof fn lemma_node_written(
    before: SnapshotModel<usize, OrderNode>,
    after: SnapshotModel<usize, OrderNode>,
    idx: usize,
)
    requires
        before.current.contains_key(idx),
        after.current == before.current.insert(idx, after.current[idx]),
        exists|copy: OrderNode|
            {
                &&& cloned(before.current[idx], copy)
                &&& after.session == (#[trigger] before.stash_old(idx, copy)).session
            },
    ensures
        before.keeps_snapshots(after),
{
    let copy = choose|copy: OrderNode|
        {
            &&& cloned(before.current[idx], copy)
            &&& after.session == (#[trigger] before.stash_old(idx, copy)).session
        };
    reveal(SnapshotModel::keeps_snapshots);
    assert(copy == before.current[idx]);
    assert(after =~= before.write(idx, copy, after.current[idx]));
    assert forall|base: Map<usize, OrderNode>| #[trigger]
        before.isolates(base) implies after.isolates(base) by {
        crate::collections::model::law_write_keeps_isolation(
            before,
            base,
            idx,
            after.current[idx],
        );
    }
}

/// Removing a node keeps every snapshot.
proof fn lemma_node_removed(
    before: SnapshotModel<usize, OrderNode>,
    after: SnapshotModel<usize, OrderNode>,
    idx: usize,
)
    requires
        before.current.contains_key(idx),
        exists|copy: OrderNode|
            {
                &&& cloned(before.current[idx], copy)
                &&& after == #[trigger] before.remove(idx, copy)
            },
    ensures
        before.keeps_snapshots(after),
{
    let copy = choose|copy: OrderNode|
        cloned(before.current[idx], copy) && after == #[trigger] before.remove(idx, copy);
    reveal(SnapshotModel::keeps_snapshots);
    assert(copy == before.current[idx]);
    assert forall|base: Map<usize, OrderNode>| #[trigger]
        before.isolates(base) implies after.isolates(base) by {
        crate::collections::model::law_remove_keeps_isolation(before, base, idx);
    }
}

/// Inserting a node under a free index keeps every snapshot.
proof fn lemma_node_inserted(
    before: SnapshotModel<usize, OrderNode>,
    idx: usize,
    node: OrderNode,
)
    requires
        !before.current.contains_key(idx),
    ensures
        before.keeps_snapshots(before.insert(idx, node)),
{
    reveal(SnapshotModel::keeps_snapshots);
    assert forall|base: Map<usize, OrderNode>| #[trigger]
        before.isolates(base) implies before.insert(idx, node).isolates(base) by {
        crate::collections::model::law_insert_keeps_isolation(before, base, idx, node);
    }
}

/// Aggregated state for a single price level.
///
/// Keeps the head/tail of a doubly-linked list of orders (by slab index), as
/// well as cumulative volume and order count for quick depth queries.
struct PriceLevel {
    head: Option<usize>,
    tail: Option<usize>,
    total_volume: Volume,
    total_orders: usize,
    /// The slab indices in the list, from head to tail.
    queue: Ghost<Seq<usize>>,
}

impl PriceLevel {
    /// The list, its ends and the aggregates agree with the nodes.
    spec fn wf(self, nodes: Map<usize, OrderNode>) -> bool {
        &&& linked(self.queue@, nodes)
        &&& self.head == if self.queue@.len() == 0 {
            None
        } else {
            Some(self.queue@[0])
        }
        &&& self.tail == if self.queue@.len() == 0 {
            None
        } else {
            Some(self.queue@.last())
        }
        &&& self.total_orders == self.queue@.len()
        &&& self.total_volume == crate::order::book::model::open_volume(
            orders_at(self.queue@, nodes),
        )
        &&& forall|i: int|
            0 <= i < self.queue@.len() ==> nodes[#[trigger] self.queue@[i]].order.executed_volume
                <= nodes[self.queue@[i]].order.volume
    }

    /// A level with no orders.
    fn empty() -> (res: Self)
        ensures
            res.queue@ == Seq::<usize>::empty(),
            res.total_volume == 0,
            forall|nodes: Map<usize, OrderNode>| #[trigger] res.wf(nodes),
    {
        PriceLevel {
            head: None,
            tail: None,
            total_volume: 0,
            total_orders: 0,
            queue: Ghost(Seq::empty()),
        }
    }

    /// Append an order node to the back of the level's FIFO queue and update
    /// aggregates. The `order_idx` must reference a valid entry in `orders`.
    fn push(&mut self, orders: &mut SnapshotableSlab<OrderNode>, order_idx: usize)
        requires
            old(orders).wf(),
            old(self).wf(old(orders)@.current),
            old(orders)@.current.contains_key(order_idx),
            !old(self).queue@.contains(order_idx),
            old(orders)@.current[order_idx].next is None,
            old(orders)@.current[order_idx].order.executed_volume <= old(
                orders,
            )@.current[order_idx].order.volume,
            old(self).total_volume + old(orders)@.current[order_idx].order.remaining() <= u64::MAX,
            old(self).total_orders < usize::MAX,
        ensures
            final(orders).wf(),
            old(orders)@.keeps_snapshots(final(orders)@),
            final(self).queue@ == old(self).queue@.push(order_idx),
            final(self).wf(final(orders)@.current),
            relinked(old(orders)@.current, final(orders)@.current, final(self).queue@),
    {
        let ghost nodes = orders@.current;
        let ghost before = self.queue@;
        let ghost after = before.push(order_idx);
        match self.tail {
            Some(tail) => {
                set_next(orders, tail, Some(order_idx));
                let ghost mid = orders@;
                set_prev(orders, order_idx, Some(tail));
                proof {
                    crate::collections::model::lemma_keeps_snapshots_trans(old(orders)@, mid, orders@);
                }
                self.tail = Some(order_idx);
            },
            None => {
                self.head = Some(order_idx);
                self.tail = Some(order_idx);
                set_prev(orders, order_idx, None);
            },
        }
        self.queue = Ghost(after);
        let added = orders[order_idx].order.remaining_volume();
        self.total_volume = self.total_volume + added;
        self.total_orders = self.total_orders + 1;
        proof {
            let now = orders@.current;
            assert(after.last() == order_idx);
            assert(relinked(nodes, now, after)) by {
                assert(now.dom() =~= nodes.dom());
                if before.len() > 0 {
                    assert(after[before.len() - 1] == before.last());
                    assert(after.contains(before.last()));
                }
                assert(after[before.len() as int] == order_idx);
                assert(after.contains(order_idx));
            }
            assert forall|i: int| 0 <= i < after.len() implies #[trigger] node_linked(
                after,
                now,
                i,
            ) by {
                if i < before.len() {
                    assert(node_linked(before, nodes, i));
                    assert(before.contains(before[i]));
                }
            }
            assert(after.no_duplicates()) by {
                assert forall|i: int, j: int| 0 <= i < after.len() && 0 <= j < after.len() && i != j
                    implies after[i] != after[j] by {
                    if i < before.len() { assert(before.contains(before[i])); }
                    if j < before.len() { assert(before.contains(before[j])); }
                }
            }
            assert(orders_at(after, now) =~= orders_at(before, nodes).push(nodes[order_idx].order));
            crate::order::book::model::lemma_open_volume_push(
                orders_at(before, nodes),
                nodes[order_idx].order,
            );
            assert forall|i: int| 0 <= i < after.len() implies now[#[trigger] after[i]].order.executed_volume
                <= now[after[i]].order.volume by {
                if i < before.len() {
                    assert(after[i] == before[i]);
                }
            }
        }
    }

    /// Remove a specific order node from the level's queue and update
    /// aggregates. The node must be currently linked in this level.
    fn remove(&mut self, orders: &mut SnapshotableSlab<OrderNode>, order_idx: usize)
        requires
            old(orders).wf(),
            old(self).wf(old(orders)@.current),
            old(self).queue@.contains(order_idx),
        ensures
            final(orders).wf(),
            old(orders)@.keeps_snapshots(final(orders)@),
            final(self).queue@ == old(self).queue@.remove(old(self).queue@.index_of(order_idx)),
            final(self).wf(final(orders)@.current),
            relinked(old(orders)@.current, final(orders)@.current, old(self).queue@),
            final(orders)@.current[order_idx].prev is None,
            final(orders)@.current[order_idx].next is None,
    {
        let ghost nodes = orders@.current;
        let ghost before = self.queue@;
        let ghost at = before.index_of(order_idx);
        let ghost after = before.remove(at);
        assert(before[at] == order_idx);
        let prev = orders[order_idx].prev;
        let next = orders[order_idx].next;
        proof {
            lemma_links_differ(before, nodes, at);
            crate::collections::model::lemma_keeps_snapshots_refl(orders@);
        }
        match prev {
            Some(p) => {
                set_next(orders, p, next);
            },
            None => {
                self.head = next;
            },
        }
        let ghost bridged = orders@;
        match next {
            Some(n) => {
                set_prev(orders, n, prev);
                proof {
                    crate::collections::model::lemma_keeps_snapshots_trans(old(orders)@, bridged, orders@);
                }
            },
            None => {
                self.tail = prev;
            },
        }
        let ghost cut = orders@;
        assert(cut.current[order_idx] == nodes[order_idx]);
        proof {
            crate::order::book::model::lemma_open_volume_remove(orders_at(before, nodes), at);
            crate::order::book::model::lemma_open_volume_bounds(orders_at(before, nodes));
            assert(orders_at(before, nodes)[at] == nodes[order_idx].order);
        }
        self.total_orders = self.total_orders - 1;
        self.total_volume = self.total_volume - orders[order_idx].order.remaining_volume();
        set_prev(orders, order_idx, None);
        let ghost lone = orders@;
        set_next(orders, order_idx, None);
        self.queue = Ghost(after);
        proof {
            crate::collections::model::lemma_keeps_snapshots_trans(cut, lone, orders@);
            crate::collections::model::lemma_keeps_snapshots_trans(old(orders)@, cut, orders@);
            assert(orders@.current.dom() =~= nodes.dom());
            lemma_unlinked(before, nodes, orders@.current, at);
            assert(node_linked(before, nodes, at));
            assert forall|i: int| 0 <= i < after.len() implies #[trigger] after[i] == before[if i
                < at {
                i
            } else {
                i + 1
            }] by {}
        }
    }
}

/// Pushing a node to the queue of a level and then removing it restores the queue.
pub proof fn law_remove_undoes_push(queue: Seq<usize>, order_idx: usize)
    requires
        !queue.contains(order_idx),
    ensures
        ({
            let longer = queue.push(order_idx);
            &&& longer.contains(order_idx)
            &&& longer.remove(longer.index_of(order_idx)) == queue
        }),
{
    let longer = queue.push(order_idx);
    assert(longer[queue.len() as int] == order_idx);
    let at = longer.index_of(order_idx);
    assert(longer[at] == order_idx);
    if at < queue.len() {
        assert(queue.contains(queue[at]));
    }
    assert(longer.remove(at) =~= queue);
}

/// A lightweight iterator-like state used while a snapshot of the open orders is streamed.
struct Snapshot {
    /// The slab indices of the orders that were open when the snapshot was taken.
    keys: Vec<usize>,
    /// How many of them have been handed out.
    cursor: usize,
    /// The nodes as they were when the snapshot was taken.
    base: Ghost<Map<usize, OrderNode>>,
}

/// The slab shows the nodes of the snapshot as they were, and the keys still to be handed out
/// are among them; without a snapshot, the slab has none active either.
spec fn streams(orders: SnapshotModel<usize, OrderNode>, snapshot: Option<Snapshot>) -> bool {
    match snapshot {
        Some(s) => {
            &&& orders.isolates(s.base@)
            &&& s.cursor <= s.keys@.len()
            &&& forall|i: int| 0 <= i < s.keys@.len() ==> s.base@.contains_key(#[trigger] s.keys@[i])
        },
        None => orders.session is None,
    }
}

/// The ids of the orders at these slab indices.
spec fn ids_at(queue: Seq<usize>, nodes: Map<usize, OrderNode>) -> Seq<Id> {
    queue.map_values(|idx: usize| nodes[idx].order.id)
}

/// The queues of these levels, by ids.
spec fn queues(levels: Map<Price, PriceLevel>, nodes: Map<usize, OrderNode>) -> Map<
    Price,
    Seq<Id>,
> {
    levels.map_values(|level: PriceLevel| ids_at(level.queue@, nodes))
}

/// BTreeMap-backed order book implementing price-time priority.
pub struct TreeMap {
    bids: BTreeMap<Price, PriceLevel>,
    asks: BTreeMap<Price, PriceLevel>,
    orders: SnapshotableSlab<OrderNode>,
    order_indexes: HashMap<Id, usize>,
    snapshot: Option<Snapshot>,
}

impl TreeMap {
    /// The levels of one side.
    spec fn levels(self, side: Side) -> Map<Price, PriceLevel> {
        match side {
            Side::Bid => self.bids@,
            Side::Ask => self.asks@,
        }
    }

    /// The nodes, by slab index.
    spec fn nodes(self) -> Map<usize, OrderNode> {
        self.orders@.current
    }

    /// A level is in order, not empty, and holds orders of its side and price only.
    spec fn level_wf(self, side: Side, price: Price) -> bool {
        let level = self.levels(side)[price];
        &&& level.wf(self.nodes())
        &&& level.queue@.len() > 0
        &&& forall|i: int|
            0 <= i < level.queue@.len() ==> {
                &&& self.nodes()[#[trigger] level.queue@[i]].order.side == side
                &&& self.nodes()[level.queue@[i]].order.price == price
            }
    }

    /// A node is found under its order's id, stands in the queue of its order's level, and holds
    /// executions that its order can have.
    spec fn node_wf(self, idx: usize) -> bool {
        let order = self.nodes()[idx].order;
        &&& self.nodes()[idx].fills@.fit(order)
        &&& self.order_indexes@.contains_key(order.id)
        &&& self.order_indexes@[order.id] == idx
        &&& self.levels(order.side).contains_key(order.price)
        &&& self.levels(order.side)[order.price].queue@.contains(idx)
    }

    /// An id leads to the node of the order with that id.
    spec fn id_wf(self, id: Id) -> bool {
        &&& self.nodes().contains_key(self.order_indexes@[id])
        &&& self.nodes()[self.order_indexes@[id]].order.id == id
    }

    /// Levels, nodes and ids fit together.
    spec fn shape_wf(self) -> bool {
        &&& self.orders.wf()
        &&& forall|side: Side, price: Price| #[trigger]
            self.levels(side).contains_key(price) ==> self.level_wf(side, price)
        &&& forall|idx: usize| #[trigger] self.nodes().contains_key(idx) ==> self.node_wf(idx)
        &&& forall|id: Id| #[trigger] self.order_indexes@.contains_key(id) ==> self.id_wf(id)
    }

    /// The open orders, and their queues.
    spec fn book(self) -> BookModel {
        BookModel {
            orders: self.order_indexes@.map_values(|idx: usize| self.nodes()[idx].order),
            fills: self.order_indexes@.map_values(|idx: usize| self.nodes()[idx].fills@),
            bids: queues(self.bids@, self.nodes()),
            asks: queues(self.asks@, self.nodes()),
        }
    }

    /// What the book says of a level is what its nodes say.
    proof fn lemma_level(self, side: Side, price: Price)
        requires
            self.shape_wf(),
        ensures
            self.book().levels(side).contains_key(price) == self.levels(side).contains_key(price),
            self.levels(side).contains_key(price) ==> {
                let level = self.levels(side)[price];
                &&& self.level_wf(side, price)
                &&& self.book().queue(side, price) == ids_at(level.queue@, self.nodes())
                &&& self.book().queue_orders(side, price) == orders_at(level.queue@, self.nodes())
                &&& self.book().volume(side, price) == level.total_volume
            },
    {
        if self.levels(side).contains_key(price) {
            let level = self.levels(side)[price];
            assert(self.level_wf(side, price));
            assert(self.book().queue(side, price) == ids_at(level.queue@, self.nodes()));
            assert forall|i: int| 0 <= i < level.queue@.len() implies self.book().queue_orders(
                side,
                price,
            )[i] == #[trigger] orders_at(level.queue@, self.nodes())[i] by {
                let idx = level.queue@[i];
                assert(self.nodes().contains_key(idx));
                assert(self.node_wf(idx));
            }
            assert(self.book().queue_orders(side, price) =~= orders_at(level.queue@, self.nodes()));
        }
    }

    /// A book whose parts fit together is valid.
    proof fn lemma_book_valid(self)
        requires
            self.shape_wf(),
        ensures
            self.book().valid(),
    {
        let book = self.book();
        assert(book.orders.dom() =~= self.order_indexes@.dom());
        assert(book.fills.dom() =~= self.order_indexes@.dom());
        assert(book.bids.dom() =~= self.bids@.dom());
        assert(book.asks.dom() =~= self.asks@.dom());
        assert forall|id: Id| #[trigger] book.orders.contains_key(id) implies book.order_valid(
            id,
        ) by {
            assert(self.order_indexes@.contains_key(id));
            assert(self.id_wf(id));
            let idx = self.order_indexes@[id];
            assert(self.node_wf(idx));
            let order = self.nodes()[idx].order;
            self.lemma_level(order.side, order.price);
            let queue = self.levels(order.side)[order.price].queue@;
            let at = queue.index_of(idx);
            assert(queue[at] == idx);
            assert(ids_at(queue, self.nodes())[at] == id);
        }
        assert forall|side: Side, price: Price| #[trigger]
            book.levels(side).contains_key(price) implies book.level_valid(side, price) by {
            self.lemma_level(side, price);
            let queue = self.levels(side)[price].queue@;
            let ids = book.queue(side, price);
            assert forall|i: int| 0 <= i < ids.len() implies {
                &&& book.orders.contains_key(#[trigger] ids[i])
                &&& book.orders[ids[i]].side == side
                &&& book.orders[ids[i]].price == price
            } by {
                assert(self.nodes().contains_key(queue[i]));
                assert(self.node_wf(queue[i]));
            }
            assert forall|i: int, j: int|
                0 <= i < ids.len() && 0 <= j < ids.len() && i != j implies ids[i] != ids[j] by {
                assert(self.nodes().contains_key(queue[i]));
                assert(self.nodes().contains_key(queue[j]));
                assert(self.node_wf(queue[i]));
                assert(self.node_wf(queue[j]));
            }
        }
    }
}

/// Nodes that stay as they are leave their level in order.
proof fn lemma_level_frame(
    level: PriceLevel,
    before: Map<usize, OrderNode>,
    after: Map<usize, OrderNode>,
)
    requires
        level.wf(before),
        forall|i: int|
            0 <= i < level.queue@.len() ==> {
                &&& after.contains_key(#[trigger] level.queue@[i])
                &&& after[level.queue@[i]] == before[level.queue@[i]]
            },
    ensures
        level.wf(after),
        ids_at(level.queue@, after) == ids_at(level.queue@, before),
{
    let queue = level.queue@;
    assert forall|i: int| 0 <= i < queue.len() implies #[trigger] node_linked(queue, after, i) by {
        assert(node_linked(queue, before, i));
        assert(after[queue[i]] == before[queue[i]]);
    }
    assert(orders_at(queue, after) =~= orders_at(queue, before));
    assert(ids_at(queue, after) =~= ids_at(queue, before));
}

impl TreeMap {
    /// Every level but the one at `price` of `side` is the same in both books.
    spec fn same_but(self, other: TreeMap, side: Side, price: Price) -> bool {
        forall|s: Side, p: Price|
            s != side || p != price ==> {
                &&& #[trigger] other.levels(s).contains_key(p) == self.levels(s).contains_key(p)
                &&& other.levels(s)[p] == self.levels(s)[p]
            }
    }

    /// The slab indices in the queues of all levels but the one at `price` of `side` hold the
    /// same nodes in both books.
    proof fn lemma_others_kept(self, other: TreeMap, side: Side, price: Price, changed: Set<usize>)
        requires
            self.shape_wf(),
            self.same_but(other, side, price),
            forall|idx: usize| #[trigger]
                self.nodes().contains_key(idx) && !changed.contains(idx) ==> {
                    &&& other.nodes().contains_key(idx)
                    &&& other.nodes()[idx] == self.nodes()[idx]
                },
            forall|idx: usize| #[trigger]
                changed.contains(idx) && self.nodes().contains_key(idx) ==> {
                    &&& self.nodes()[idx].order.side == side
                    &&& self.nodes()[idx].order.price == price
                },
        ensures
            forall|s: Side, p: Price| #[trigger]
                other.levels(s).contains_key(p) && (s != side || p != price) ==> {
                    &&& other.level_wf(s, p)
                    &&& ids_at(other.levels(s)[p].queue@, other.nodes()) == ids_at(
                        self.levels(s)[p].queue@,
                        self.nodes(),
                    )
                },
    {
        assert forall|s: Side, p: Price| #[trigger]
            other.levels(s).contains_key(p) && (s != side || p != price) implies {
            &&& other.level_wf(s, p)
            &&& ids_at(other.levels(s)[p].queue@, other.nodes()) == ids_at(
                self.levels(s)[p].queue@,
                self.nodes(),
            )
        } by {
            assert(self.levels(s).contains_key(p));
            assert(self.level_wf(s, p));
            let level = self.levels(s)[p];
            assert forall|i: int| 0 <= i < level.queue@.len() implies {
                &&& other.nodes().contains_key(#[trigger] level.queue@[i])
                &&& other.nodes()[level.queue@[i]] == self.nodes()[level.queue@[i]]
            } by {
                assert(self.nodes().contains_key(level.queue@[i]));
            }
            lemma_level_frame(level, self.nodes(), other.nodes());
        }
    }

    /// Takes a level out of its side; `None` if there is no such level.
    fn take_level(&mut self, side: Side, price: Price) -> (res: Option<PriceLevel>)
        ensures
            final(self).orders == old(self).orders,
            final(self).order_indexes == old(self).order_indexes,
            final(self).snapshot == old(self).snapshot,
            final(self).bids@ == if side == Side::Bid {
                old(self).bids@.remove(price)
            } else {
                old(self).bids@
            },
            final(self).asks@ == if side == Side::Ask {
                old(self).asks@.remove(price)
            } else {
                old(self).asks@
            },
            match res {
                Some(level) => old(self).levels(side).contains_key(price) && level == old(
                    self,
                ).levels(side)[price],
                None => !old(self).levels(side).contains_key(price),
            },
    {
        match side {
            Side::Bid => self.bids.remove(&price),
            Side::Ask => self.asks.remove(&price),
        }
    }

    /// Puts a level into its side, unless no order is left in it.
    fn put_level(&mut self, side: Side, price: Price, level: PriceLevel)
        requires
            !old(self).levels(side).contains_key(price),
        ensures
            final(self).orders == old(self).orders,
            final(self).order_indexes == old(self).order_indexes,
            final(self).snapshot == old(self).snapshot,
            final(self).bids@ == if side == Side::Bid && level.total_orders > 0 {
                old(self).bids@.insert(price, level)
            } else {
                old(self).bids@
            },
            final(self).asks@ == if side == Side::Ask && level.total_orders > 0 {
                old(self).asks@.insert(price, level)
            } else {
                old(self).asks@
            },
    {
        if level.total_orders != 0 {
            match side {
                Side::Bid => {
                    self.bids.insert(price, level);
                },
                Side::Ask => {
                    self.asks.insert(price, level);
                },
            }
        }
    }

    /// Remove an order (by slab index) from its corresponding price level and
    /// delete it from the book, cleaning up empty price levels.
    fn remove_order_from_level(&mut self, idx: usize) -> (res: Order)
        requires
            old(self).shape_wf(),
            streams(old(self).orders@, old(self).snapshot),
            old(self).nodes().contains_key(idx),
        ensures
            final(self).shape_wf(),
            streams(final(self).orders@, final(self).snapshot),
            final(self).snapshot == old(self).snapshot,
            res == old(self).nodes()[idx].order,
            final(self).book() == old(self).book().remove(res.id),
    {
        let side = self.orders[idx].order.side;
        let price = self.orders[idx].order.price;
        assert(self.node_wf(idx));
        assert(self.level_wf(side, price));
        let mut level = self.take_level(side, price).unwrap();
        level.remove(&mut self.orders, idx);
        let ghost rest = level;
        self.put_level(side, price, level);
        let ghost unlinked = self.orders@;
        let node = self.orders.remove(idx);
        self.order_indexes.remove(&node.order.id);
        proof {
            let queue = old(self).levels(side)[price].queue@;
            let at = queue.index_of(idx);
            assert forall|i: int| 0 <= i < rest.queue@.len() implies #[trigger] rest.queue@[i]
                != idx by {
                assert(rest.queue@[i] == queue[if i < at { i } else { i + 1 }]);
            }
            lemma_level_frame(rest, unlinked.current, self.nodes());
            assert(self.nodes().dom() =~= old(self).nodes().dom().remove(idx));
            assert(old(self).same_but(*self, side, price));
            old(self).lemma_removed(*self, idx);
            lemma_node_removed(unlinked, self.orders@, idx);
            crate::collections::model::lemma_keeps_snapshots_trans(
                old(self).orders@,
                unlinked,
                self.orders@,
            );
            reveal(SnapshotModel::keeps_snapshots);
        }
        node.order
    }

    /// Taking a node out of its level, of the slab and of the index takes its order out of the
    /// book.
    proof fn lemma_removed(self, after: TreeMap, idx: usize)
        requires
            self.shape_wf(),
            self.nodes().contains_key(idx),
            after.orders.wf(),
            ({
                let order = self.nodes()[idx].order;
                let level = self.levels(order.side)[order.price];
                let rest = level.queue@.remove(level.queue@.index_of(idx));
                &&& self.same_but(after, order.side, order.price)
                &&& after.levels(order.side).contains_key(order.price) <==> rest.len() > 0
                &&& rest.len() > 0 ==> {
                    &&& after.levels(order.side)[order.price].queue@ == rest
                    &&& after.levels(order.side)[order.price].wf(after.nodes())
                }
                &&& after.nodes().dom() == self.nodes().dom().remove(idx)
                &&& forall|i: usize| #[trigger]
                    after.nodes().contains_key(i) ==> {
                        &&& after.nodes()[i].order == self.nodes()[i].order
                        &&& after.nodes()[i].fills == self.nodes()[i].fills
                        &&& !level.queue@.contains(i) ==> after.nodes()[i] == self.nodes()[i]
                    }
                &&& after.order_indexes@ == self.order_indexes@.remove(order.id)
            }),
        ensures
            after.shape_wf(),
            after.book() == self.book().remove(self.nodes()[idx].order.id),
    {
        let order = self.nodes()[idx].order;
        let side = order.side;
        let price = order.price;
        assert(self.node_wf(idx));
        assert(self.level_wf(side, price));
        let queue = self.levels(side)[price].queue@;
        let at = queue.index_of(idx);
        let rest = queue.remove(at);
        assert(queue[at] == idx);
        self.lemma_others_kept(after, side, price, queue.to_set());
        assert forall|i: int| 0 <= i < rest.len() implies #[trigger] rest[i] == queue[if i < at {
            i
        } else {
            i + 1
        }] by {}
        assert forall|s: Side, p: Price| #[trigger]
            after.levels(s).contains_key(p) implies after.level_wf(s, p) by {
            if s == side && p == price {
                assert forall|i: int| 0 <= i < rest.len() implies {
                    &&& after.nodes()[#[trigger] rest[i]].order.side == side
                    &&& after.nodes()[rest[i]].order.price == price
                } by {
                    assert(after.nodes().contains_key(rest[i]));
                }
            }
        }
        assert forall|i: usize| #[trigger] after.nodes().contains_key(i) implies after.node_wf(
            i,
        ) by {
            assert(self.node_wf(i));
            let o = self.nodes()[i].order;
            if o.side == side && o.price == price {
                let j = queue.index_of(i);
                assert(queue[j] == i);
                assert(rest[if j < at { j } else { j - 1 }] == i);
            } else {
                assert(self.levels(o.side).contains_key(o.price));
                assert(after.levels(o.side).contains_key(o.price));
            }
        }
        assert forall|id: Id| #[trigger] after.order_indexes@.contains_key(id) implies after.id_wf(
            id,
        ) by {
            assert(self.id_wf(id));
            let i = self.order_indexes@[id];
            assert(self.nodes().contains_key(i));
            assert(i != idx);
            assert(after.nodes().contains_key(i));
        }
        let model = self.book();
        let target = model.remove(order.id);
        self.lemma_level(side, price);
        self.lemma_book_valid();
        model.lemma_remove(order.id);
        assert(model.orders[order.id] == order);
        assert(ids_at(queue, self.nodes())[at] == order.id);
        crate::order::book::model::lemma_index_of(model.queue(side, price), at);
        assert(after.book().orders =~= target.orders) by {
            assert forall|id: Id| #[trigger]
                after.order_indexes@.contains_key(id) implies after.book().orders[id]
                == target.orders[id] by {
                assert(after.id_wf(id));
                assert(self.id_wf(id));
            }
        }
        assert(after.book().fills =~= target.fills) by {
            assert forall|id: Id| #[trigger]
                after.order_indexes@.contains_key(id) implies after.book().fills[id]
                == target.fills[id] by {
                assert(after.id_wf(id));
                assert(self.id_wf(id));
            }
        }
        assert(ids_at(rest, after.nodes()) =~= ids_at(queue, self.nodes()).remove(at)) by {
            assert forall|i: int| 0 <= i < rest.len() implies ids_at(rest, after.nodes())[i]
                == ids_at(queue, self.nodes()).remove(at)[i] by {
                assert(after.nodes().contains_key(rest[i]));
            }
        }
        assert forall|s: Side| #[trigger] after.book().levels(s) == target.levels(s) by {
            assert forall|p: Price|
                #![trigger after.book().levels(s).contains_key(p)]
                after.book().levels(s).contains_key(p) == target.levels(s).contains_key(p) by {
                assert(after.levels(s).contains_key(p) == after.book().levels(s).contains_key(p));
                if s != side || p != price {
                    assert(after.levels(s).contains_key(p) == self.levels(s).contains_key(p));
                    assert(self.levels(s).contains_key(p) == model.levels(s).contains_key(p));
                }
            }
            assert forall|p: Price| #[trigger]
                after.book().levels(s).contains_key(p) implies after.book().levels(s)[p]
                == target.levels(s)[p] by {
                assert(after.levels(s).contains_key(p));
                if s != side || p != price {
                    assert(self.levels(s).contains_key(p));
                }
            }
            assert(after.book().levels(s) =~= target.levels(s));
        }
        assert(after.book().levels(Side::Bid) == target.levels(Side::Bid));
        assert(after.book().levels(Side::Ask) == target.levels(Side::Ask));
        assert(after.book() =~= target);
    }
}

impl TreeMap {
    /// Executes `volume` more of the order at a slab index, which stays open.
    fn fill_order(&mut self, idx: usize, paid: Price, volume: Volume)
        requires
            old(self).shape_wf(),
            streams(old(self).orders@, old(self).snapshot),
            old(self).nodes().contains_key(idx),
            volume <= old(self).nodes()[idx].order.remaining(),
        ensures
            final(self).shape_wf(),
            streams(final(self).orders@, final(self).snapshot),
            final(self).snapshot == old(self).snapshot,
            final(self).book() == old(self).book().fill(
                old(self).nodes()[idx].order.id,
                paid,
                volume as int,
            ),
    {
        let side = self.orders[idx].order.side;
        let price = self.orders[idx].order.price;
        assert(self.node_wf(idx));
        assert(self.level_wf(side, price));
        let mut level = self.take_level(side, price).unwrap();
        proof {
            let orders = orders_at(level.queue@, self.nodes());
            let at = level.queue@.index_of(idx);
            assert(level.queue@[at] == idx);
            crate::order::book::model::lemma_open_volume_bounds(orders);
            assert(orders[at] == self.nodes()[idx].order);
        }
        level.total_volume = level.total_volume - volume;
        let fills = self.orders[idx].fills.plus(paid, volume);
        let node = self.orders.index_mut(idx);
        node.order.execute(fills, volume);
        node.fills = fills;
        self.put_level(side, price, level);
        proof {
            lemma_node_written(old(self).orders@, self.orders@, idx);
            reveal(SnapshotModel::keeps_snapshots);
            old(self).lemma_filled(*self, idx, paid, volume);
        }
    }

    /// Filling an order in its node and in its level fills it in the book.
    proof fn lemma_filled(self, after: TreeMap, idx: usize, paid: Price, volume: Volume)
        requires
            self.shape_wf(),
            self.nodes().contains_key(idx),
            volume <= self.nodes()[idx].order.remaining(),
            after.orders.wf(),
            ({
                let order = self.nodes()[idx].order;
                let level = self.levels(order.side)[order.price];
                &&& self.same_but(after, order.side, order.price)
                &&& after.levels(order.side).contains_key(order.price)
                &&& after.levels(order.side)[order.price] == (PriceLevel {
                    total_volume: (level.total_volume - volume) as u64,
                    ..level
                })
                &&& after.nodes() == self.nodes().insert(
                    idx,
                    after.nodes()[idx],
                )
                &&& after.nodes()[idx] == (OrderNode {
                    order: order.filled(self.nodes()[idx].fills@, paid, volume as int),
                    fills: after.nodes()[idx].fills,
                    ..self.nodes()[idx]
                })
                &&& after.nodes()[idx].fills@ == self.nodes()[idx].fills@.plus(paid, volume as int)
                &&& after.order_indexes@ == self.order_indexes@
            }),
        ensures
            after.shape_wf(),
            after.book() == self.book().fill(self.nodes()[idx].order.id, paid, volume as int),
    {
        let order = self.nodes()[idx].order;
        let side = order.side;
        let price = order.price;
        assert(self.node_wf(idx));
        assert(self.level_wf(side, price));
        let level = self.levels(side)[price];
        let queue = level.queue@;
        let at = queue.index_of(idx);
        assert(queue[at] == idx);
        self.lemma_others_kept(after, side, price, set![idx]);
        let before = orders_at(queue, self.nodes());
        let filled = order.filled(self.nodes()[idx].fills@, paid, volume as int);
        self.nodes()[idx].fills@.lemma_plus_fits(order, paid, volume as int);
        assert(orders_at(queue, after.nodes()) =~= before.update(at, filled));
        crate::order::book::model::lemma_open_volume_update(before, at, filled);
        crate::order::book::model::lemma_open_volume_bounds(before);
        assert(before[at] == order);
        assert(after.levels(side)[price].wf(after.nodes())) by {
            assert forall|i: int| 0 <= i < queue.len() implies #[trigger] node_linked(
                queue,
                after.nodes(),
                i,
            ) by {
                assert(node_linked(queue, self.nodes(), i));
            }
        }
        assert forall|s: Side, p: Price| #[trigger]
            after.levels(s).contains_key(p) implies after.level_wf(s, p) by {
            if s == side && p == price {
                assert(after.levels(s)[p].queue@ == queue);
            }
        }
        assert forall|i: usize| #[trigger] after.nodes().contains_key(i) implies after.node_wf(
            i,
        ) by {
            assert(self.nodes().contains_key(i));
            assert(self.node_wf(i));
            let o = self.nodes()[i].order;
            assert(after.levels(o.side).contains_key(o.price) == self.levels(o.side).contains_key(
                o.price,
            ));
        }
        assert forall|id: Id| #[trigger] after.order_indexes@.contains_key(id) implies after.id_wf(
            id,
        ) by {
            assert(self.id_wf(id));
        }
        let target = self.book().fill(order.id, paid, volume as int);
        assert(after.book().orders =~= target.orders) by {
            assert forall|id: Id| #[trigger]
                after.order_indexes@.contains_key(id) implies after.book().orders[id]
                == target.orders[id] by {
                assert(self.id_wf(id));
            }
        }
        assert(after.book().fills =~= target.fills) by {
            assert forall|id: Id| #[trigger]
                after.order_indexes@.contains_key(id) implies after.book().fills[id]
                == target.fills[id] by {
                assert(self.id_wf(id));
            }
        }
        assert(ids_at(queue, after.nodes()) =~= ids_at(queue, self.nodes()));
        self.lemma_same_queues(after, side, price);
        assert(after.book() =~= target);
    }

    /// Where one level keeps its queue and the others are kept, all queues are the same.
    proof fn lemma_same_queues(self, after: TreeMap, side: Side, price: Price)
        requires
            self.same_but(after, side, price),
            self.levels(side).contains_key(price),
            after.levels(side).contains_key(price),
            ids_at(after.levels(side)[price].queue@, after.nodes()) == ids_at(
                self.levels(side)[price].queue@,
                self.nodes(),
            ),
            forall|s: Side, p: Price| #[trigger]
                after.levels(s).contains_key(p) && (s != side || p != price) ==> ids_at(
                    after.levels(s)[p].queue@,
                    after.nodes(),
                ) == ids_at(self.levels(s)[p].queue@, self.nodes()),
        ensures
            after.book().bids == self.book().bids,
            after.book().asks == self.book().asks,
    {
        assert forall|s: Side| #[trigger] after.book().levels(s) == self.book().levels(s) by {
            assert forall|p: Price| #[trigger]
                after.book().levels(s).contains_key(p) == self.book().levels(s).contains_key(
                    p,
                ) by {
                assert(after.levels(s).contains_key(p) == self.levels(s).contains_key(p));
            }
            assert forall|p: Price| #[trigger]
                after.book().levels(s).contains_key(p) implies after.book().levels(s)[p]
                == self.book().levels(s)[p] by {
                assert(after.levels(s).contains_key(p));
            }
            assert(after.book().levels(s) =~= self.book().levels(s));
        }
        assert(after.book().levels(Side::Bid) == self.book().levels(Side::Bid));
        assert(after.book().levels(Side::Ask) == self.book().levels(Side::Ask));
    }
}

impl TreeMap {
    /// A queue is shorter than the slab holds nodes, where one of the nodes is not in it.
    proof fn lemma_queue_fits(self, queue: Seq<usize>, idx: usize)
        requires
            queue.no_duplicates(),
            forall|i: int| 0 <= i < queue.len() ==> self.nodes().contains_key(#[trigger] queue[i]),
            !queue.contains(idx),
            self.nodes().contains_key(idx),
        ensures
            queue.len() < usize::MAX,
    {
        self.orders.lemma_len_fits();
        queue.unique_seq_to_set();
        let others = self.nodes().dom().remove(idx);
        assert(queue.to_set().subset_of(others));
        vstd::set_lib::lemma_len_subset(queue.to_set(), others);
    }

    /// Inserts an order that has no node yet, at the end of the queue of its level.
    fn insert_order(&mut self, order: Order)
        requires
            old(self).shape_wf(),
            streams(old(self).orders@, old(self).snapshot),
            !old(self).order_indexes@.contains_key(order.id),
            old(self).book().accepts(order),
        ensures
            final(self).shape_wf(),
            streams(final(self).orders@, final(self).snapshot),
            final(self).snapshot == old(self).snapshot,
            final(self).book() == old(self).book().add(order),
    {
        let id = order.id;
        let side = order.side;
        let price = order.price;
        proof {
            self.lemma_level(side, price);
        }
        let fills = FillTotals::of(&order);
        let ghost node = OrderNode { order, fills, next: None, prev: None };
        let idx = self.orders.insert(OrderNode { order, fills, next: None, prev: None });
        let ghost inserted = self.orders@;
        self.order_indexes.insert(id, idx);
        let mut level = match self.take_level(side, price) {
            Some(level) => level,
            None => PriceLevel::empty(),
        };
        proof {
            if old(self).levels(side).contains_key(price) {
                assert(old(self).level_wf(side, price));
                lemma_level_frame(level, old(self).nodes(), self.nodes());
            } else {
                assert(old(self).book().queue_orders(side, price) =~= Seq::empty());
            }
            assert(level.wf(self.nodes()));
            assert(!level.queue@.contains(idx));
            self.lemma_queue_fits(level.queue@, idx);
        }
        level.push(&mut self.orders, idx);
        self.put_level(side, price, level);
        proof {
            lemma_node_inserted(old(self).orders@, idx, node);
            crate::collections::model::lemma_keeps_snapshots_trans(
                old(self).orders@,
                inserted,
                self.orders@,
            );
            reveal(SnapshotModel::keeps_snapshots);
            assert(self.nodes().dom() =~= old(self).nodes().dom().insert(idx));
            assert(old(self).same_but(*self, side, price));
            assert forall|i: usize| #[trigger] old(self).nodes().contains_key(i) implies {
                &&& self.nodes()[i].order == old(self).nodes()[i].order
                &&& self.nodes()[i].fills == old(self).nodes()[i].fills
                &&& !level.queue@.contains(i) ==> self.nodes()[i] == old(self).nodes()[i]
            } by {
                assert(self.nodes().contains_key(i));
            }
            old(self).lemma_added(*self, idx, order);
        }
    }

    /// Linking a new node at the end of its level adds its order to the book.
    proof fn lemma_added(self, after: TreeMap, idx: usize, order: Order)
        requires
            self.shape_wf(),
            !self.nodes().contains_key(idx),
            !self.order_indexes@.contains_key(order.id),
            after.orders.wf(),
            self.same_but(after, order.side, order.price),
            after.levels(order.side).contains_key(order.price),
            ({
                let level = after.levels(order.side)[order.price];
                let queue = if self.levels(order.side).contains_key(order.price) {
                    self.levels(order.side)[order.price].queue@
                } else {
                    Seq::empty()
                };
                &&& level.wf(after.nodes())
                &&& level.queue@ == queue.push(idx)
                &&& after.nodes().dom() == self.nodes().dom().insert(idx)
                &&& after.nodes()[idx].order == order
                &&& after.nodes()[idx].fills@ == Fills::of(order)
                &&& forall|i: usize| #[trigger]
                    self.nodes().contains_key(i) ==> {
                        &&& after.nodes()[i].order == self.nodes()[i].order
                        &&& after.nodes()[i].fills == self.nodes()[i].fills
                        &&& !level.queue@.contains(i) ==> after.nodes()[i] == self.nodes()[i]
                    }
            }),
            after.order_indexes@ == self.order_indexes@.insert(order.id, idx),
        ensures
            after.shape_wf(),
            after.book() == self.book().add(order),
    {
        let side = order.side;
        let price = order.price;
        let queue = if self.levels(side).contains_key(price) {
            self.levels(side)[price].queue@
        } else {
            Seq::empty()
        };
        let longer = queue.push(idx);
        if self.levels(side).contains_key(price) {
            assert(self.level_wf(side, price));
        }
        assert forall|i: usize| #[trigger]
            longer.to_set().contains(i) && self.nodes().contains_key(i) implies {
            &&& self.nodes()[i].order.side == side
            &&& self.nodes()[i].order.price == price
        } by {
            let j = longer.index_of(i);
            assert(longer[j] == i);
            assert(queue[j] == i);
        }
        self.lemma_others_kept(after, side, price, longer.to_set());
        assert forall|s: Side, p: Price| #[trigger]
            after.levels(s).contains_key(p) implies after.level_wf(s, p) by {
            if s == side && p == price {
                assert forall|i: int| 0 <= i < longer.len() implies {
                    &&& after.nodes()[#[trigger] longer[i]].order.side == side
                    &&& after.nodes()[longer[i]].order.price == price
                } by {
                    if i < queue.len() {
                        assert(longer[i] == queue[i]);
                        assert(self.nodes().contains_key(queue[i]));
                    }
                }
            }
        }
        assert forall|i: usize| #[trigger] after.nodes().contains_key(i) implies after.node_wf(
            i,
        ) by {
            if i == idx {
                assert(longer[queue.len() as int] == idx);
                Fills::lemma_of_fits(order);
            } else {
                assert(self.nodes().contains_key(i));
                assert(self.node_wf(i));
                let o = self.nodes()[i].order;
                if o.side == side && o.price == price {
                    assert(longer[queue.index_of(i)] == i);
                } else {
                    assert(after.levels(o.side).contains_key(o.price) == self.levels(
                        o.side,
                    ).contains_key(o.price));
                }
            }
        }
        assert forall|id: Id| #[trigger] after.order_indexes@.contains_key(id) implies after.id_wf(
            id,
        ) by {
            if id != order.id {
                assert(self.id_wf(id));
                assert(self.nodes().contains_key(self.order_indexes@[id]));
                assert(after.nodes().contains_key(self.order_indexes@[id]));
            }
        }
        let model = self.book();
        let target = model.add(order);
        self.lemma_level(side, price);
        assert(after.book().orders =~= target.orders) by {
            assert forall|id: Id| #[trigger]
                after.order_indexes@.contains_key(id) implies after.book().orders[id]
                == target.orders[id] by {
                if id != order.id {
                    assert(self.id_wf(id));
                    assert(self.nodes().contains_key(self.order_indexes@[id]));
                }
            }
        }
        assert(after.book().fills =~= target.fills) by {
            assert forall|id: Id| #[trigger]
                after.order_indexes@.contains_key(id) implies after.book().fills[id]
                == target.fills[id] by {
                if id != order.id {
                    assert(self.id_wf(id));
                    assert(self.nodes().contains_key(self.order_indexes@[id]));
                }
            }
        }
        assert(ids_at(longer, after.nodes()) =~= model.queue(side, price).push(order.id)) by {
            assert forall|i: int| 0 <= i < queue.len() implies ids_at(longer, after.nodes())[i]
                == model.queue(side, price).push(order.id)[i] by {
                assert(longer[i] == queue[i]);
                assert(self.nodes().contains_key(queue[i]));
            }
        }
        assert forall|s: Side| #[trigger] after.book().levels(s) == target.levels(s) by {
            assert forall|p: Price| #[trigger]
                after.book().levels(s).contains_key(p) == target.levels(s).contains_key(p) by {
                assert(after.levels(s).contains_key(p) == after.book().levels(s).contains_key(p));
                if s != side || p != price {
                    assert(after.levels(s).contains_key(p) == self.levels(s).contains_key(p));
                    assert(self.levels(s).contains_key(p) == model.levels(s).contains_key(p));
                }
            }
            assert forall|p: Price| #[trigger]
                after.book().levels(s).contains_key(p) implies after.book().levels(s)[p]
                == target.levels(s)[p] by {
                assert(after.levels(s).contains_key(p));
                if s != side || p != price {
                    assert(self.levels(s).contains_key(p));
                }
            }
            assert(after.book().levels(s) =~= target.levels(s));
        }
        assert(after.book().levels(Side::Bid) == target.levels(Side::Bid));
        assert(after.book().levels(Side::Ask) == target.levels(Side::Ask));
        assert(after.book() =~= target);
    }
}

impl TreeMap {
    /// The slab index of the earliest order of a level.
    fn head(&self, side: Side, price: Price) -> (idx: usize)
        requires
            self.shape_wf(),
            self.levels(side).contains_key(price),
        ensures
            self.nodes().contains_key(idx),
            self.nodes()[idx].order == self.book().orders[self.book().queue(side, price)[0]],
            self.nodes()[idx].order.executed_volume <= self.nodes()[idx].order.volume,
    {
        proof {
            self.lemma_level(side, price);
            let queue = self.levels(side)[price].queue@;
            assert(self.nodes().contains_key(queue[0]));
            assert(self.node_wf(queue[0]));
        }
        let level = match side {
            Side::Bid => self.bids.get(&price),
            Side::Ask => self.asks.get(&price),
        };
        level.unwrap().head.unwrap()
    }

    /// Reduce (and possibly remove) orders from the given price level by a
    /// target `volume` that was traded for `paid`, walking from the head to
    /// preserve FIFO. The volume must not exceed the level's total available
    /// volume.
    fn remove_by_volume(
        &mut self,
        side: Side,
        price: Price,
        volume: Volume,
        paid: Price,
        closer_seq: SeqNo,
    ) -> (res: Vec<Order>)
        requires
            old(self).shape_wf(),
            streams(old(self).orders@, old(self).snapshot),
            volume <= old(self).book().volume(side, price),
        ensures
            final(self).shape_wf(),
            streams(final(self).orders@, final(self).snapshot),
            final(self).snapshot == old(self).snapshot,
            (final(self).book(), res@) == old(self).book().reduce(
                side,
                price,
                volume as int,
                paid,
                closer_seq,
            ),
    {
        let mut remaining_volume = volume;
        let mut closed_orders: Vec<Order> = Vec::new();
        let ghost goal = self.book().reduce(side, price, volume as int, paid, closer_seq);
        while remaining_volume > 0
            invariant
                self.shape_wf(),
                streams(self.orders@, self.snapshot),
                self.snapshot == old(self).snapshot,
                remaining_volume <= self.book().volume(side, price),
                goal.0 == self.book().reduce(
                    side,
                    price,
                    remaining_volume as int,
                    paid,
                    closer_seq,
                ).0,
                goal.1 == closed_orders@ + self.book().reduce(
                    side,
                    price,
                    remaining_volume as int,
                    paid,
                    closer_seq,
                ).1,
                goal == old(self).book().reduce(side, price, volume as int, paid, closer_seq),
            decreases self.book().queue(side, price).len(),
        {
            let ghost book = self.book();
            let ghost rest = book.reduce(side, price, remaining_volume as int, paid, closer_seq);
            proof {
                self.lemma_book_valid();
                book.lemma_volume(side, price);
                self.lemma_level(side, price);
                book.lemma_remove_first(side, price);
            }
            let idx = self.head(side, price);
            let order_volume = self.orders[idx].order.remaining_volume();
            if order_volume <= remaining_volume {
                // The order is covered completely: remove it and continue.
                let ghost first = self.nodes()[idx].order;
                let fills = self.orders[idx].fills.plus(paid, order_volume);
                let mut closed_order = self.remove_order_from_level(idx);
                remaining_volume = remaining_volume - order_volume;
                closed_order.execute(fills, order_volume);
                closed_order.status = Status::Executed;
                closed_order.closed_by = Some(closer_seq);
                let ghost done = closed_orders@;
                closed_orders.push(closed_order);
                proof {
                    book.lemma_remove(first.id);
                    let next = self.book().reduce(
                        side,
                        price,
                        remaining_volume as int,
                        paid,
                        closer_seq,
                    );
                    assert(closed_order == first.executed(book.fills[first.id], paid, closer_seq));
                    assert(rest.1 == seq![first.executed(book.fills[first.id], paid, closer_seq)] + next.1);
                    assert(done + rest.1 =~= closed_orders@ + next.1);
                }
            } else {
                // Otherwise, partially execute the order by the remaining volume and stop.
                self.fill_order(idx, paid, remaining_volume);
                assert(closed_orders@ + rest.1 =~= closed_orders@);
                return closed_orders;
            }
        }
        assert(closed_orders@ + Seq::<Order>::empty() =~= closed_orders@);
        closed_orders
    }
}

/// All levels with their volumes, from the lowest price to the highest.
fn level_items(levels: &BTreeMap<Price, PriceLevel>) -> (items: Vec<DepthItem>)
    ensures
        items@.len() == levels@.dom().len(),
        forall|i: int|
            0 <= i < items@.len() ==> {
                &&& levels@.contains_key((#[trigger] items@[i]).price)
                &&& items@[i].volume == levels@[items@[i].price].total_volume
            },
        forall|i: int, j: int|
            0 <= i < j < items@.len() ==> (#[trigger] items@[i]).price < (#[trigger] items@[j]).price,
        forall|price: Price| #[trigger]
            levels@.contains_key(price) ==> exists|i: int|
                0 <= i < items@.len() && (#[trigger] items@[i]).price == price,
{
    let mut items: Vec<DepthItem> = Vec::new();
    for entry in it: levels.iter()
        invariant
            items@.len() == it.index(),
            forall|i: int|
                0 <= i < items@.len() ==> {
                    &&& (#[trigger] items@[i]).price == *it.seq()[i].0
                    &&& items@[i].volume == it.seq()[i].1.total_volume
                },
    {
        items.push(DepthItem { price: *entry.0, volume: entry.1.total_volume });
    }
    proof {
        let listed = vstd::std_specs::iter::IteratorSpec::remaining(&levels.iter());
        let keys = listed.map_values(|kv: (&Price, &PriceLevel)| *kv.0);
        assert(vstd::std_specs::btree::increasing_seq(keys));
        assert forall|i: int, j: int| 0 <= i < j < items@.len() implies (#[trigger] items@[i]).price
            < (#[trigger] items@[j]).price by {
            assert(vstd::std_specs::cmp::OrdSpec::cmp_spec(&keys[i], &keys[j]) is Less);
            assert(keys[i] == items@[i].price);
            assert(keys[j] == items@[j].price);
        }
        assert forall|price: Price| #[trigger] levels@.contains_key(price) implies exists|i: int|
            0 <= i < items@.len() && (#[trigger] items@[i]).price == price by {
            let at = listed.index_of((&price, &levels@[price]));
            assert(listed[at] == (&price, &levels@[price]));
            assert(items@[at].price == price);
        }
    }
    items
}

impl Default for TreeMap {
    fn default() -> (res: Self)
        ensures
            res.wf(),
            res.model() == BookModel::empty(),
            res.pending() is None,
    {
        let res = TreeMap {
            bids: BTreeMap::new(),
            asks: BTreeMap::new(),
            orders: SnapshotableSlab::default(),
            order_indexes: HashMap::new(),
            snapshot: None,
        };
        assert(res.book() =~= BookModel::empty());
        res
    }
}

impl TreeMap {
    /// Create a new, empty TreeMap order book.
    pub fn new() -> (res: Self)
        ensures
            res.wf(),
            res.model() == BookModel::empty(),
            res.pending() is None,
    {
        TreeMap::default()
    }
}

impl BookState for TreeMap {
    closed spec fn wf(&self) -> bool {
        &&& self.shape_wf()
        &&& streams(self.orders@, self.snapshot)
    }

    closed spec fn model(&self) -> BookModel {
        self.book()
    }

    closed spec fn source(&self) -> Map<Id, Order> {
        self.book().orders
    }

    closed spec fn pending(&self) -> Option<Pending> {
        match self.snapshot {
            Some(s) => Some(
                s.keys@.skip(s.cursor as int).map_values(|idx: usize| Some(s.base@[idx].order)),
            ),
            None => None,
        }
    }
}

impl HotBook for TreeMap {
    proof fn lemma_wf(&self) {
        self.lemma_book_valid();
    }

    /// Insert a new order into the book at its price level.
    fn add(&mut self, order: Order) -> (res: Result<(), Error>) {
        if self.order_indexes.contains_key(&order.id) {
            return Err(Error::OrderIdExists(order.id));
        }
        self.insert_order(order);
        Ok(())
    }

    /// Cancel an existing order by id.
    fn cancel(&mut self, id: Id, seq: SeqNo) -> (res: Result<Order, Error>) {
        let idx = match self.order_indexes.get(&id) {
            Some(idx) => *idx,
            None => {
                return Err(Error::OrderIdNotFound(id));
            },
        };
        assert(self.id_wf(id));
        let mut order = self.remove_order_from_level(idx);
        order.status = Status::Canceled;
        order.closed_by = Some(seq);
        Ok(order)
    }

    /// Return a snapshot of top-of-book depth up to `limit` levels per side.
    fn depth(&self, limit: usize) -> (res: Depth) {
        let bid_items = level_items(&self.bids);
        let ask_items = level_items(&self.asks);
        let bids = best_first(&bid_items, limit, true);
        let asks = best_first(&ask_items, limit, false);
        proof {
            self.lemma_shows(Side::Bid, limit as nat, bid_items@, bids@);
            self.lemma_shows(Side::Ask, limit as nat, ask_items@, asks@);
        }
        Depth { bids, asks }
    }

    /// Match the best bid and best ask while there is price overlap, producing
    /// trades and updating order states. The trade price follows maker-taker
    /// precedence: the earlier order at the top levels sets the price.
    #[verifier::rlimit(30)]
    fn match_orders(&mut self) -> (res: (Vec<Trade>, Vec<Order>)) {
        let mut trades: Vec<Trade> = Vec::new();
        let mut closed_orders: Vec<Order> = Vec::new();
        let ghost goal = self.book().matched();
        proof {
            self.lemma_book_valid();
            if self.book().all_live() {
                self.book().law_matching_ends_uncrossed();
            }
            assert(trades@.map_values(|t: Trade| t@) + goal.trades =~= goal.trades);
            assert(closed_orders@ + goal.closed =~= goal.closed);
        }
        loop
            invariant
                self.wf(),
                self.pending() == old(self).pending(),
                goal == old(self).book().matched(),
                !goal.book.crossing(),
                goal.book == self.book().matched().book,
                goal.trades == trades@.map_values(|t: Trade| t@) + self.book().matched().trades,
                goal.closed == closed_orders@ + self.book().matched().closed,
            ensures
                !self.book().crossing(),
            decreases self.book().orders.len(),
        {
            let ghost book = self.book();
            proof {
                self.lemma_book_valid();
            }
            let bid_price = match last_key(&self.bids) {
                Some(price) => price,
                None => {
                    assert(!book.levels(Side::Bid).contains_key(book.best(Side::Bid)));
                    break;
                },
            };
            let ask_price = match first_key(&self.asks) {
                Some(price) => price,
                None => {
                    assert(!book.levels(Side::Ask).contains_key(book.best(Side::Ask)));
                    break;
                },
            };
            proof {
                self.lemma_best_prices(bid_price, ask_price);
            }
            if ask_price > bid_price {
                break;
            }
            proof {
                book.lemma_top();
                assert(book.tradable());
                book.lemma_trade_volume();
                book.lemma_trade();
            }
            let bid_idx = self.head(Side::Bid, bid_price);
            let ask_idx = self.head(Side::Ask, ask_price);
            let bid_id = self.orders[bid_idx].order.id;
            let ask_id = self.orders[ask_idx].order.id;
            let bid_volume = self.orders[bid_idx].order.remaining_volume();
            let ask_volume = self.orders[ask_idx].order.remaining_volume();
            let volume: Volume = if bid_volume < ask_volume {
                bid_volume
            } else {
                ask_volume
            };
            let is_bid_maker = bid_id < ask_id;
            let paid: Price = if is_bid_maker {
                bid_price
            } else {
                ask_price
            };
            let trade = Trade {
                id: 0,
                bid_order_id: bid_id,
                ask_order_id: ask_id,
                is_bid_maker,
                price: paid,
                volume,
                timestamp: now_utc(),
            };
            assert(trade@ == book.next_trade());
            let closer_seq: SeqNo = if is_bid_maker {
                bid_id
            } else {
                ask_id
            };
            let mut closed_bids = self.remove_by_volume(
                Side::Bid,
                bid_price,
                volume,
                paid,
                closer_seq,
            );
            let mut closed_asks = self.remove_by_volume(
                Side::Ask,
                ask_price,
                volume,
                paid,
                closer_seq,
            );
            let ghost done_trades = trades@.map_values(|t: Trade| t@);
            let ghost done_closed = closed_orders@;
            let ghost bids = closed_bids@;
            let ghost asks = closed_asks@;
            trades.push(trade);
            closed_orders.append(&mut closed_bids);
            closed_orders.append(&mut closed_asks);
            proof {
                let step = book.trade();
                let rest = self.book().matched();
                assert(step.book == self.book());
                assert(step.closed == bids + asks);
                assert(book.matched().trades == step.trades + rest.trades);
                assert(book.matched().closed == step.closed + rest.closed);
                assert(trades@.map_values(|t: Trade| t@) =~= done_trades.push(trade@));
                assert(done_trades + (step.trades + rest.trades) =~= done_trades.push(trade@)
                    + rest.trades);
                assert(closed_orders@ =~= done_closed + bids + asks);
                assert(done_closed + (step.closed + rest.closed) =~= closed_orders@ + rest.closed);
            }
        }
        proof {
            let book = self.book();
            assert(book.matched().book == book);
            assert(trades@.map_values(|t: Trade| t@) + Seq::empty() =~= trades@.map_values(
                |t: Trade| t@,
            ));
            assert(closed_orders@ + Seq::empty() =~= closed_orders@);
        }
        (trades, closed_orders)
    }

    /// Gets an order by its ID.
    fn lookup(&self, id: Id) -> (res: Option<&Order>) {
        match self.order_indexes.get(&id) {
            Some(idx) => {
                let idx = *idx;
                assert(self.id_wf(id));
                Some(&self.orders[idx].order)
            },
            None => None,
        }
    }
}

/// The first `limit` items, or the last `limit` items in reverse.
fn best_first(items: &Vec<DepthItem>, limit: usize, reversed: bool) -> (res: Vec<DepthItem>)
    ensures
        res@.len() == if items@.len() < limit {
            items@.len()
        } else {
            limit as nat
        },
        forall|i: int|
            0 <= i < res@.len() ==> #[trigger] res@[i] == if reversed {
                items@[items@.len() - 1 - i]
            } else {
                items@[i]
            },
{
    let mut res: Vec<DepthItem> = Vec::new();
    while res.len() < limit && res.len() < items.len()
        invariant
            res@.len() <= limit,
            res@.len() <= items@.len(),
            forall|i: int|
                0 <= i < res@.len() ==> #[trigger] res@[i] == if reversed {
                    items@[items@.len() - 1 - i]
                } else {
                    items@[i]
                },
        decreases items@.len() - res@.len(),
    {
        if reversed {
            res.push(items[items.len() - 1 - res.len()]);
        } else {
            res.push(items[res.len()]);
        }
    }
    res
}

impl TreeMap {
    /// The highest bid and the lowest ask are the best prices.
    proof fn lemma_best_prices(self, bid_price: Price, ask_price: Price)
        requires
            self.bids@.contains_key(bid_price),
            forall|p: Price| #[trigger] self.bids@.contains_key(p) ==> p <= bid_price,
            self.asks@.contains_key(ask_price),
            forall|p: Price| #[trigger] self.asks@.contains_key(p) ==> ask_price <= p,
        ensures
            self.book().best(Side::Bid) == bid_price,
            self.book().best(Side::Ask) == ask_price,
            self.book().is_best(Side::Bid, bid_price),
            self.book().is_best(Side::Ask, ask_price),
    {
        let book = self.book();
        assert(book.levels(Side::Bid).contains_key(bid_price));
        assert(book.levels(Side::Ask).contains_key(ask_price));
        assert forall|p: Price| #[trigger] book.levels(Side::Bid).contains_key(p) implies p
            == bid_price || crate::order::book::model::better(Side::Bid, bid_price, p) by {
            assert(self.bids@.contains_key(p));
        }
        assert forall|p: Price| #[trigger] book.levels(Side::Ask).contains_key(p) implies p
            == ask_price || crate::order::book::model::better(Side::Ask, ask_price, p) by {
            assert(self.asks@.contains_key(p));
        }
        book.lemma_best(Side::Bid, bid_price);
        book.lemma_best(Side::Ask, ask_price);
    }

    /// The levels of a side in ascending order, read from the better end, are its depth.
    proof fn lemma_shows(
        self,
        side: Side,
        limit: nat,
        items: Seq<DepthItem>,
        shown: Seq<DepthItem>,
    )
        requires
            self.shape_wf(),
            items.len() == self.levels(side).dom().len(),
            forall|i: int|
                0 <= i < items.len() ==> {
                    &&& self.levels(side).contains_key((#[trigger] items[i]).price)
                    &&& items[i].volume == self.levels(side)[items[i].price].total_volume
                },
            forall|i: int, j: int|
                0 <= i < j < items.len() ==> (#[trigger] items[i]).price < (
                #[trigger] items[j]).price,
            forall|price: Price| #[trigger]
                self.levels(side).contains_key(price) ==> exists|i: int|
                    0 <= i < items.len() && (#[trigger] items[i]).price == price,
            shown.len() == if items.len() < limit {
                items.len()
            } else {
                limit
            },
            forall|i: int|
                0 <= i < shown.len() ==> #[trigger] shown[i] == if side == Side::Bid {
                    items[items.len() - 1 - i]
                } else {
                    items[i]
                },
        ensures
            self.book().shows(side, limit, shown),
    {
        let book = self.book();
        assert(book.levels(side).dom() =~= self.levels(side).dom());
        assert forall|i: int| 0 <= i < shown.len() implies {
            &&& book.levels(side).contains_key((#[trigger] shown[i]).price)
            &&& shown[i].volume == book.volume(side, shown[i].price)
        } by {
            self.lemma_level(side, shown[i].price);
        }
        assert forall|i: int, price: Price|
            0 <= i < shown.len() && #[trigger] book.levels(side).contains_key(price) implies (
        exists|j: int| 0 <= j < shown.len() && #[trigger] shown[j].price == price)
            || crate::order::book::model::better(side, (#[trigger] shown[i]).price, price) by {
            assert(self.levels(side).contains_key(price));
            let k = choose|k: int| 0 <= k < items.len() && (#[trigger] items[k]).price == price;
            let j = if side == Side::Bid {
                items.len() - 1 - k
            } else {
                k
            };
            if j < shown.len() {
                assert(shown[j].price == price);
            }
        }
    }
}

impl TreeMap {
    /// A book with the same levels, nodes and ids is the same book.
    proof fn lemma_same_shape(self, after: TreeMap)
        requires
            self.shape_wf(),
            after.orders.wf(),
            after.bids == self.bids,
            after.asks == self.asks,
            after.order_indexes == self.order_indexes,
            after.nodes() == self.nodes(),
        ensures
            after.shape_wf(),
            after.book() == self.book(),
    {
        assert forall|s: Side, p: Price| #[trigger]
            after.levels(s).contains_key(p) implies after.level_wf(s, p) by {
            assert(self.level_wf(s, p));
        }
        assert forall|idx: usize| #[trigger] after.nodes().contains_key(idx) implies after.node_wf(
            idx,
        ) by {
            assert(self.node_wf(idx));
        }
        assert forall|id: Id| #[trigger] after.order_indexes@.contains_key(id) implies after.id_wf(
            id,
        ) by {
            assert(self.id_wf(id));
        }
        assert(after.book() =~= self.book());
    }
}

impl TreeMap {
    /// Whatever has happened to the book since a snapshot was taken, every order that the
    /// snapshot has still to hand out can be read.
    pub proof fn law_snapshot_stays_readable(&self, limit: nat)
        requires
            self.wf(),
        ensures
            crate::order::book::batch_readable(self.pending(), limit),
    {
    }
}

impl TreeMap {
    /// Restoring a batch adds the open orders of it to those of the book, and leaves a snapshot that
    /// is in progress alone; the batch can be restored if the book's orders and those of the batch
    /// fit together.
    pub proof fn law_restoring_goes_by_the_open_orders(&self, orders: Seq<Order>, after: &TreeMap)
        requires
            self.restored(orders, after),
        ensures
            after.model() == self.model().restored(orders),
            after.pending() == self.pending(),
            self.restorable(orders) <==> self.model().restorable(orders),
    {
    }
}

impl SnapshotableBook for TreeMap {
    open spec fn restorable(&self, orders: Seq<Order>) -> bool {
        self.model().restorable(orders)
    }

    open spec fn restored(&self, orders: Seq<Order>, after: &Self) -> bool {
        &&& after.model() == self.model().restored(orders)
        &&& after.pending() == self.pending()
    }

    /// Begins a snapshot of the orders that are open now.
    ///
    /// Orders added, filled or closed after this call do not change what is streamed.
    fn take_snapshot(&mut self) -> (res: Result<(), Error>) {
        if self.snapshot.is_some() {
            return Err(Error::AnotherSnapshotAlreadyTaken);
        }
        let ghost base = self.nodes();
        let keys = self.orders.begin_snapshot();
        self.snapshot = Some(Snapshot { keys, cursor: 0, base: Ghost(base) });
        proof {
            crate::collections::model::law_begin_shows_current(old(self).orders@);
            assert forall|i: int| 0 <= i < keys@.len() implies base.contains_key(
                #[trigger] keys@[i],
            ) by {
                assert(keys@.to_set().contains(keys@[i]));
            }
            old(self).lemma_same_shape(*self);
            let ids = ids_at(keys@, base);
            assert forall|i: int, j: int|
                0 <= i < ids.len() && 0 <= j < ids.len() && i != j implies ids[i] != ids[j] by {
                assert(base.contains_key(keys@[i]) && base.contains_key(keys@[j]));
                assert(old(self).node_wf(keys@[i]) && old(self).node_wf(keys@[j]));
            }
            assert(ids.to_set() =~= old(self).source().dom()) by {
                assert forall|id: Id| old(self).source().dom().contains(id) implies #[trigger] ids.to_set().contains(
                id) by {
                    assert(old(self).order_indexes@.contains_key(id));
                    assert(old(self).id_wf(id));
                    let idx = old(self).order_indexes@[id];
                    assert(keys@.to_set().contains(idx));
                    let at = keys@.index_of(idx);
                    assert(keys@[at] == idx);
                    assert(ids[at] == id);
                }
                assert forall|id: Id| #[trigger] ids.to_set().contains(id) implies old(
                    self,
                ).source().dom().contains(id) by {
                    let at = ids.index_of(id);
                    assert(ids[at] == id);
                    assert(base.contains_key(keys@[at]));
                    assert(old(self).node_wf(keys@[at]));
                }
            }
            assert(self.pending()->0 =~= crate::order::book::orders_with(
                ids,
                old(self).source(),
            )) by {
                assert forall|i: int| 0 <= i < ids.len() implies self.pending()->0[i]
                    == crate::order::book::orders_with(ids, old(self).source())[i] by {
                    assert(base.contains_key(keys@[i]));
                    assert(old(self).node_wf(keys@[i]));
                }
            }
        }
        Ok(())
    }

    /// Returns up to `limit` of the orders that were open when the snapshot was taken, as they
    /// were then.
    fn snapshot_batch(&mut self, limit: usize) -> (res: Result<Option<Vec<Order>>, Error>) {
        let ghost pending = self.pending();
        let mut snapshot = match self.snapshot.take() {
            Some(snapshot) => snapshot,
            None => {
                return Err(Error::NoSnapshotTaken);
            },
        };
        let left: usize = snapshot.keys.len() - snapshot.cursor;
        let size: usize = if left < limit {
            left
        } else {
            limit
        };
        let mut orders: Vec<Order> = Vec::new();
        let ghost start = snapshot;
        while orders.len() < size
            invariant
                self.orders == old(self).orders,
                self.bids == old(self).bids,
                self.asks == old(self).asks,
                self.order_indexes == old(self).order_indexes,
                self.orders@.isolates(start.base@),
                size <= start.keys@.len() - start.cursor,
                snapshot.keys == start.keys,
                snapshot.base == start.base,
                snapshot.cursor == start.cursor + orders@.len(),
                orders@.len() <= size,
                forall|i: int| 0 <= i < start.keys@.len() ==> start.base@.contains_key(#[trigger] start.keys@[i]),
                forall|i: int|
                    0 <= i < orders@.len() ==> #[trigger] orders@[i]
                        == start.base@[start.keys@[start.cursor + i]].order,
            decreases size - orders@.len(),
        {
            assert(snapshot.cursor < snapshot.keys.len());
            let key = snapshot.keys[snapshot.cursor];
            let node = self.orders.get_for_snapshot(key).unwrap();
            orders.push(node.order.clone());
            snapshot.cursor = snapshot.cursor + 1;
        }
        self.snapshot = Some(snapshot);
        proof {
            old(self).lemma_same_shape(*self);
            let p = pending->0;
            assert(self.pending()->0 =~= p.skip(size as int));
            assert(orders@.map_values(|o: Order| Some(o)) =~= p.take(size as int));
        }
        if size == 0 {
            Ok(None)
        } else {
            Ok(Some(orders))
        }
    }

    /// Ends the current snapshot session and clears internal snapshot state.
    fn end_snapshot(&mut self) -> (res: Result<(), Error>) {
        if self.snapshot.is_none() {
            return Err(Error::NoSnapshotTaken);
        }
        self.snapshot = None;
        self.orders.end_snapshot();
        proof {
            old(self).lemma_same_shape(*self);
        }
        Ok(())
    }

    /// Adds the open orders of the batch, in order. Closed orders are ignored, and so is an
    /// order whose id is on the book already.
    fn restore_snapshot_batch(&mut self, orders: Vec<Order>) -> (res: Result<(), Error>) {
        let ghost batch = orders@;
        let mut at: usize = 0;
        assert(batch.take(0) =~= Seq::empty());
        while at < orders.len()
            invariant
                at <= orders@.len(),
                orders@ == batch,
                self.wf(),
                self.pending() == old(self).pending(),
                self.model() == old(self).model().restored(batch.take(at as int)),
                old(self).model().restorable(batch),
            decreases orders@.len() - at,
        {
            proof {
                old(self).model().lemma_restored_step(batch, at as int);
            }
            let order = &orders[at];
            if order.closed_by.is_none() && !self.order_indexes.contains_key(&order.id) {
                self.insert_order(order.clone());
            }
            at = at + 1;
        }
        assert(batch.take(at as int) =~= batch);
        Ok(())
    }
}

} // verus!
