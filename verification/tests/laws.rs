use chortke::matcher::{Matcher, SnapshotMetadata};
use chortke::order::book::tree_map::TreeMap;
use chortke::order::book::warm_book::WarmBook;
use chortke::order::book::{Depth, Error, HotBook, SnapshotableBook};
use chortke::order::{Order, Side, Status};

fn o(id: u64, side: Side, price: u64, vol: u64) -> Order {
    Order::new(id, format!("u{id}"), format!("c{id}"), side, price, vol)
}

fn prices(d: &Depth) -> (Vec<(u64, u64)>, Vec<(u64, u64)>) {
    (
        d.bids.iter().map(|i| (i.price, i.volume)).collect(),
        d.asks.iter().map(|i| (i.price, i.volume)).collect(),
    )
}

fn crowded() -> TreeMap {
    let mut book = TreeMap::new();
    book.add(o(1, Side::Bid, 100, 4)).unwrap();
    book.add(o(2, Side::Bid, 102, 3)).unwrap();
    book.add(o(3, Side::Bid, 102, 5)).unwrap();
    book.add(o(4, Side::Ask, 105, 6)).unwrap();
    book.add(o(5, Side::Ask, 101, 4)).unwrap();
    book.add(o(6, Side::Ask, 101, 7)).unwrap();
    book
}

#[test]
fn matching_follows_price_and_then_time() {
    let mut book = crowded();
    let (trades, closed) = book.match_orders();
    let seen: Vec<_> = trades
        .iter()
        .map(|t| (t.bid_order_id, t.ask_order_id, t.price, t.volume))
        .collect();
    assert_eq!(
        seen,
        vec![(2, 5, 102, 3), (3, 5, 102, 1), (3, 6, 102, 4)]
    );
    assert!(trades.iter().all(|t| t.is_bid_maker && t.id == 0));
    let ids: Vec<_> = closed.iter().map(|c| c.id).collect();
    assert_eq!(ids, vec![2, 5, 3]);
}

#[test]
fn matching_leaves_no_crossing_prices() {
    let mut book = crowded();
    book.match_orders();
    assert_eq!(
        prices(&book.depth(10)),
        (vec![(100, 4)], vec![(101, 3), (105, 6)])
    );
    let (trades, closed) = book.match_orders();
    assert!(trades.is_empty() && closed.is_empty());
}

#[test]
fn matching_accounts_for_every_unit() {
    let mut book = crowded();
    let (trades, closed) = book.match_orders();
    for id in 1..=6u64 {
        let volume = [4u64, 3, 5, 6, 4, 7][id as usize - 1];
        let traded: u64 = trades
            .iter()
            .filter(|t| t.bid_order_id == id || t.ask_order_id == id)
            .map(|t| t.volume)
            .sum();
        match book.lookup(id) {
            Some(order) => assert_eq!(order.executed_volume, traded),
            None => {
                assert_eq!(traded, volume);
                let c = closed.iter().find(|c| c.id == id).expect("closed");
                assert_eq!(c.executed_volume, volume);
                assert_eq!(c.status, Status::Executed);
            }
        }
    }
}

#[test]
fn closed_orders_name_the_maker() {
    let mut book = crowded();
    let (_, closed) = book.match_orders();
    let by: Vec<_> = closed.iter().map(|c| (c.id, c.closed_by)).collect();
    assert_eq!(by, vec![(2, Some(2)), (5, Some(3)), (3, Some(3))]);
}

#[test]
fn closed_orders_follow_their_last_trades() {
    let mut book = TreeMap::new();
    book.add(o(1, Side::Ask, 100, 2)).unwrap();
    book.add(o(2, Side::Ask, 100, 3)).unwrap();
    book.add(o(3, Side::Bid, 101, 1)).unwrap();
    book.add(o(4, Side::Bid, 100, 4)).unwrap();
    let (trades, closed) = book.match_orders();
    assert!(trades.len() <= closed.len() && closed.len() <= 2 * trades.len());
    let last = |id: u64| {
        trades
            .iter()
            .rposition(|t| t.bid_order_id == id || t.ask_order_id == id)
            .expect("traded")
    };
    for c in &closed {
        let t = &trades[last(c.id)];
        assert_eq!(c.closed_by, Some(t.bid_order_id.min(t.ask_order_id)));
    }
    for pair in closed.windows(2) {
        let (t, u) = (last(pair[0].id), last(pair[1].id));
        assert!(t < u || (t == u && pair[0].side == Side::Bid && pair[1].side == Side::Ask));
    }
    let ids: Vec<_> = closed.iter().map(|c| c.id).collect();
    assert_eq!(ids, vec![3, 1, 4, 2]);
    // Every trade of the better bid comes before every trade of the other.
    let bids: Vec<_> = trades.iter().map(|t| t.bid_order_id).collect();
    assert_eq!(bids, vec![3, 4, 4]);
}

#[test]
fn trades_stay_within_both_limits() {
    let mut book = TreeMap::new();
    book.add(o(9, Side::Bid, 110, 5)).unwrap();
    book.add(o(3, Side::Ask, 90, 5)).unwrap();
    let (trades, _) = book.match_orders();
    assert_eq!(trades.len(), 1);
    // The order with the lower id is the maker, whenever it was added.
    assert!(!trades[0].is_bid_maker);
    assert_eq!(trades[0].price, 90);
}

#[test]
fn executed_orders_carry_their_average_price() {
    let mut book = TreeMap::new();
    book.add(o(1, Side::Ask, 100, 3)).unwrap();
    book.add(o(2, Side::Ask, 103, 4)).unwrap();
    book.add(o(3, Side::Ask, 110, 5)).unwrap();
    book.add(o(4, Side::Bid, 105, 9)).unwrap();
    let (trades, closed) = book.match_orders();
    assert_eq!(trades.len(), 2);
    assert_eq!(closed[0].executed_price, Some(100));
    assert_eq!(closed[1].executed_price, Some(103));
    // (3 * 100 + 4 * 103) / 7 = 101.7..
    let bid = book.lookup(4).unwrap();
    assert_eq!(bid.executed_volume, 7);
    assert_eq!(bid.executed_price, Some(101));
    assert_eq!(book.lookup(3).unwrap().executed_price, None);

    // The rest goes at the bid's own price: (3 * 100 + 4 * 103 + 2 * 105) / 9 = 102.4..
    book.add(o(5, Side::Ask, 90, 2)).unwrap();
    let (trades, closed) = book.match_orders();
    assert_eq!(trades[0].price, 105);
    let bid = closed.iter().find(|c| c.id == 4).unwrap();
    assert_eq!(bid.executed_price, Some(102));
    assert_eq!(book.cancel(3, 6).unwrap().executed_price, None);
}

#[test]
fn average_price_is_exact_over_several_matchings() {
    let mut book = TreeMap::new();
    book.add(o(100, Side::Bid, 9, 4)).unwrap();
    for (id, price, average) in [(1, 1, 1), (2, 2, 1), (3, 2, 1)] {
        book.add(o(id, Side::Ask, price, 1)).unwrap();
        book.match_orders();
        assert_eq!(book.lookup(100).unwrap().executed_price, Some(average));
    }
    book.add(o(4, Side::Ask, 3, 1)).unwrap();
    let (_, closed) = book.match_orders();
    assert_eq!((closed[0].id, closed[0].executed_price), (100, Some(2)));
}

#[test]
fn average_price_goes_on_from_what_an_order_tells() {
    let mut book = TreeMap::new();
    let mut bid = o(9, Side::Bid, 100, 10);
    bid.executed_volume = 6;
    bid.executed_price = Some(80);
    book.restore_snapshot_batch(vec![bid]).unwrap();
    book.add(o(1, Side::Ask, 95, 4)).unwrap();
    let (_, closed) = book.match_orders();
    // (6 * 80 + 4 * 95) / 10
    assert_eq!((closed[0].id, closed[0].executed_price), (9, Some(86)));
}

#[test]
fn average_price_does_not_overflow() {
    let mut book = TreeMap::new();
    book.add(o(1, Side::Ask, u64::MAX, u64::MAX - 1)).unwrap();
    book.add(o(2, Side::Ask, u64::MAX, 1)).unwrap();
    book.add(o(3, Side::Bid, u64::MAX, u64::MAX)).unwrap();
    let (trades, closed) = book.match_orders();
    assert_eq!(trades.len(), 2);
    assert_eq!(closed.len(), 3);
    assert!(closed.iter().all(|c| c.executed_price == Some(u64::MAX)));
}

#[test]
fn cancel_undoes_add() {
    let mut book = crowded();
    let before = prices(&book.depth(10));
    book.add(o(7, Side::Ask, 101, 9)).unwrap();
    book.add(o(8, Side::Bid, 55, 1)).unwrap();
    assert_ne!(prices(&book.depth(10)), before);
    let canceled = book.cancel(8, 77).unwrap();
    assert_eq!(canceled.status, Status::Canceled);
    assert_eq!(canceled.closed_by, Some(77));
    book.cancel(7, 78).unwrap();
    assert_eq!(prices(&book.depth(10)), before);
}

#[test]
fn zero_volume_orders_can_be_added_and_canceled() {
    let mut book = TreeMap::new();
    book.add(o(1, Side::Bid, 10, 0)).unwrap();
    assert_eq!(prices(&book.depth(1)), (vec![(10, 0)], vec![]));
    let (trades, closed) = book.match_orders();
    assert!(trades.is_empty() && closed.is_empty());
    book.cancel(1, 2).unwrap();
    assert_eq!(prices(&book.depth(1)), (vec![], vec![]));
}

#[test]
fn middle_and_last_of_a_queue_can_be_canceled() {
    let mut book = TreeMap::new();
    for id in 1..=4 {
        book.add(o(id, Side::Ask, 50, 1)).unwrap();
    }
    book.cancel(2, 0).unwrap();
    book.cancel(4, 0).unwrap();
    book.add(o(5, Side::Ask, 50, 1)).unwrap();
    book.add(o(6, Side::Bid, 50, 3)).unwrap();
    let (trades, _) = book.match_orders();
    let asks: Vec<_> = trades.iter().map(|t| t.ask_order_id).collect();
    assert_eq!(asks, vec![1, 3, 5]);
}

#[test]
fn depth_shows_the_best_levels_of_many() {
    let mut book = TreeMap::new();
    for i in 0..20u64 {
        book.add(o(i + 1, Side::Bid, 100 + (i * 7) % 20, i + 1)).unwrap();
        book.add(o(i + 100, Side::Ask, 200 + (i * 7) % 20, i + 1)).unwrap();
    }
    let d = book.depth(3);
    let (bids, asks) = prices(&d);
    assert_eq!(bids.iter().map(|b| b.0).collect::<Vec<_>>(), vec![119, 118, 117]);
    assert_eq!(asks.iter().map(|a| a.0).collect::<Vec<_>>(), vec![200, 201, 202]);
    assert_eq!(book.depth(usize::MAX).bids.len(), 20);
    let copy = d.clone();
    assert_eq!(prices(&copy), (bids, asks));
}

#[test]
fn tree_map_snapshot_is_isolated_from_what_follows() {
    let mut book = crowded();
    assert!(matches!(book.snapshot_batch(1), Err(Error::NoSnapshotTaken)));
    assert!(matches!(book.end_snapshot(), Err(Error::NoSnapshotTaken)));
    book.take_snapshot().unwrap();
    assert!(matches!(
        book.take_snapshot(),
        Err(Error::AnotherSnapshotAlreadyTaken)
    ));
    book.cancel(1, 50).unwrap();
    book.match_orders();
    book.add(o(7, Side::Bid, 1, 1)).unwrap();
    let mut seen = Vec::new();
    while let Some(batch) = book.snapshot_batch(4).unwrap() {
        assert!(batch.len() <= 4);
        seen.extend(batch);
    }
    seen.sort_by_key(|s| s.id);
    assert_eq!(seen.iter().map(|s| s.id).collect::<Vec<_>>(), vec![1, 2, 3, 4, 5, 6]);
    assert!(seen.iter().all(|s| s.executed_volume == 0 && s.status == Status::Open));
    book.end_snapshot().unwrap();
    assert!(matches!(book.snapshot_batch(1), Err(Error::NoSnapshotTaken)));
}

#[test]
fn empty_batches_do_not_advance_a_snapshot() {
    let mut book = crowded();
    book.take_snapshot().unwrap();
    assert!(book.snapshot_batch(0).unwrap().is_none());
    assert_eq!(book.snapshot_batch(100).unwrap().unwrap().len(), 6);
    assert!(book.snapshot_batch(100).unwrap().is_none());
}

#[test]
fn restoring_open_orders_is_idempotent() {
    let mut source = crowded();
    source.take_snapshot().unwrap();
    let orders = source.snapshot_batch(100).unwrap().unwrap();
    let mut closed = o(50, Side::Bid, 5, 5);
    closed.closed_by = Some(3);
    let mut batch = orders.clone();
    batch.push(closed);
    let mut book = TreeMap::new();
    book.restore_snapshot_batch(batch.clone()).unwrap();
    let once = prices(&book.depth(10));
    assert_eq!(once, prices(&source.depth(10)));
    assert!(book.lookup(50).is_none());
    book.restore_snapshot_batch(batch).unwrap();
    assert_eq!(prices(&book.depth(10)), once);
}

#[test]
fn restoring_closed_orders_is_idempotent() {
    let mut book = WarmBook::new(TreeMap::new());
    let mut a = o(1, Side::Bid, 5, 5);
    a.closed_by = Some(3);
    let mut b = o(2, Side::Ask, 6, 6);
    b.closed_by = Some(4);
    book.restore_snapshot_batch(vec![a.clone(), b.clone()]).unwrap();
    book.restore_snapshot_batch(vec![a, b]).unwrap();
    assert_eq!(book.lookup(1).unwrap().price, 5);
    assert_eq!(book.lookup_by_client_id("u2".into(), "c2".into()).unwrap().id, 2);
    book.evict_closed_orders(3);
    assert!(book.lookup(1).is_none());
    assert!(book.lookup(2).is_some());
}

#[test]
fn new_closures_do_not_join_a_snapshot() {
    let mut book = WarmBook::new(TreeMap::new());
    book.add(o(1, Side::Bid, 100, 1)).unwrap();
    book.add(o(2, Side::Bid, 100, 1)).unwrap();
    book.cancel(1, 5).unwrap();
    book.take_snapshot().unwrap();
    book.cancel(2, 6).unwrap();
    book.evict_closed_orders(5);
    let batch = book.snapshot_batch(10).unwrap().unwrap();
    assert_eq!(batch.len(), 1);
    assert_eq!(batch[0].id, 1);
    assert_eq!(batch[0].closed_by, Some(5));
    assert!(book.snapshot_batch(10).unwrap().is_none());
}

#[test]
fn evicted_client_ids_can_be_used_again() {
    let mut book = WarmBook::new(TreeMap::new());
    book.add(o(1, Side::Bid, 100, 1)).unwrap();
    book.cancel(1, 5).unwrap();
    let again = Order::new(2, "u1".into(), "c1".into(), Side::Bid, 100, 1);
    assert!(matches!(
        book.add(again.clone()),
        Err(Error::OrderClientIdExists(c)) if c == "c1"
    ));
    book.evict_closed_orders(4);
    assert!(book.add(again.clone()).is_err());
    book.evict_closed_orders(5);
    book.add(again).unwrap();
    assert_eq!(book.lookup_by_client_id("u1".into(), "c1".into()).unwrap().id, 2);
}

#[test]
fn warm_book_reports_known_ids_and_closed_ones() {
    let mut book = WarmBook::new(TreeMap::new());
    book.add(o(1, Side::Bid, 100, 1)).unwrap();
    let clash = Order::new(1, "x".into(), "y".into(), Side::Bid, 100, 1);
    assert!(matches!(book.add(clash), Err(Error::OrderIdExists(1))));
    assert!(book.lookup_by_client_id("x".into(), "y".into()).is_none());
    book.cancel(1, 3).unwrap();
    assert!(matches!(book.cancel(1, 4), Err(Error::OrderIdNotFound(1))));
    assert!(matches!(
        book.cancel_by_client_id("u1".into(), "c1".into(), 4),
        Err(Error::OrderIdNotFound(1))
    ));
    assert_eq!(book.lookup(1).unwrap().closed_by, Some(3));
}

#[test]
fn client_keys_are_unique_to_the_pair() {
    let order = Order::new(1, "a".into(), "b:c".into(), Side::Bid, 1, 1);
    assert_eq!(order.user_client_id(), "a:b:c");
    let key = |u: &str, c: &str| Order::format_user_client_id(&u.to_string(), &c.to_string());
    assert_eq!(key("user-1", "c-1"), "user-1:c-1");
    assert_eq!(key("\\", "x"), "\\:x");
    assert_eq!(key("a\\", ":c\\"), "a\\::c\\");
    assert_eq!(key("a:b", "c"), "a\\.b\\/c");
    assert_eq!(key(":\\", "c:d"), "\\.\\\\\\/c\\.d");
    let parts = ["", "a", ":", "\\", "a:b", "b:c", "\\:", ":\\", "\u{e9}:", "c", "\\.", "\\/", ".", "/"];
    let mut keys = Vec::new();
    for u in parts {
        for c in parts {
            keys.push(key(u, c));
        }
    }
    keys.sort();
    keys.dedup();
    assert_eq!(keys.len(), parts.len() * parts.len());
}

#[test]
fn a_colon_in_a_user_id_leads_to_no_other_user() {
    let mut book = WarmBook::new(TreeMap::new());
    book.add(Order::new(1, "a:b".into(), "c".into(), Side::Bid, 100, 1))
        .unwrap();
    book.add(Order::new(2, "a".into(), "b:c".into(), Side::Bid, 100, 1))
        .unwrap();
    assert_eq!(book.lookup_by_client_id("a:b".into(), "c".into()).unwrap().id, 1);
    assert_eq!(book.lookup_by_client_id("a".into(), "b:c".into()).unwrap().id, 2);
    assert_eq!(book.cancel_by_client_id("a".into(), "b:c".into(), 9).unwrap().id, 2);
    assert!(matches!(
        book.add(Order::new(3, "a:b".into(), "c".into(), Side::Bid, 100, 1)),
        Err(Error::OrderClientIdExists(_))
    ));
}

fn ready() -> Matcher<TreeMap> {
    let mut m = Matcher::new(TreeMap::new());
    m.init(SnapshotMetadata {
        last_seq: 10,
        last_archived_seq: 4,
    });
    m
}

#[test]
fn matcher_refuses_everything_before_init() {
    let mut m = Matcher::new(TreeMap::new());
    assert!(matches!(m.add_order(o(0, Side::Bid, 1, 1)), Err(Error::NotReady)));
    assert!(matches!(m.add_and_match(o(0, Side::Bid, 1, 1)), Err(Error::NotReady)));
    assert!(matches!(m.match_orders(), Err(Error::NotReady)));
    assert!(matches!(m.cancel_order(1), Err(Error::NotReady)));
    assert!(matches!(
        m.cancel_by_client_id("u".into(), "c".into()),
        Err(Error::NotReady)
    ));
    assert!(matches!(m.depth(1), Err(Error::NotReady)));
    assert!(matches!(m.lookup(1), Err(Error::NotReady)));
    assert!(matches!(
        m.lookup_by_client_id("u".into(), "c".into()),
        Err(Error::NotReady)
    ));
    assert!(matches!(m.take_snapshot(), Err(Error::NotReady)));
    assert!(matches!(m.snapshot_batch(1), Err(Error::NoSnapshotTaken)));
    assert!(matches!(m.end_snapshot(), Err(Error::NoSnapshotTaken)));
}

#[test]
fn matcher_numbers_orders_from_the_last_sequence_on() {
    let mut m = ready();
    m.add_order(o(999, Side::Bid, 100, 1)).unwrap();
    assert!(m.lookup(999).unwrap().is_none());
    assert_eq!(m.lookup(11).unwrap().unwrap().client_id, "c999");
    assert!(matches!(m.cancel_order(5), Err(Error::OrderIdNotFound(5))));
    assert_eq!(m.cancel_order(11).unwrap().closed_by, Some(12));
    assert_eq!(m.take_snapshot().unwrap().last_seq, 12);
}

#[test]
fn matcher_keeps_and_reports_the_archived_sequence() {
    let mut m = ready();
    m.add_order(o(0, Side::Bid, 100, 1)).unwrap();
    m.cancel_order(11).unwrap();
    m.set_archived_seq(11);
    assert!(m.lookup(11).unwrap().is_some());
    m.set_archived_seq(12);
    assert!(m.lookup(11).unwrap().is_none());
    let meta = m.take_snapshot().unwrap();
    assert_eq!(meta.last_archived_seq, 12);
    assert!(matches!(
        m.take_snapshot(),
        Err(Error::AnotherSnapshotAlreadyTaken)
    ));
    m.end_snapshot().unwrap();
    m.take_snapshot().unwrap();
}

#[test]
fn snapshot_brings_back_open_and_closed_orders() {
    let mut m = ready();
    m.add_order(o(1, Side::Bid, 100, 3)).unwrap(); // id=11
    m.add_order(o(2, Side::Ask, 110, 2)).unwrap(); // id=12
    m.add_and_match(o(3, Side::Ask, 100, 1)).unwrap(); // id=13, closes
    m.cancel_order(12).unwrap(); // seq=14
    let meta = m.take_snapshot().unwrap();
    m.add_order(o(4, Side::Ask, 120, 1)).unwrap(); // id=15, too late
    m.cancel_order(11).unwrap();

    let mut sizes = Vec::new();
    let mut all = Vec::new();
    while let Some(batch) = m.snapshot_batch(2).unwrap() {
        sizes.push(batch.len());
        all.extend(batch);
    }
    assert_eq!(sizes, vec![2, 1]);
    assert_eq!(all[0].id, 11);
    m.end_snapshot().unwrap();

    let mut back = Matcher::new(TreeMap::new());
    back.restore_snapshot_batch(all.clone()).unwrap();
    back.restore_snapshot_batch(all).unwrap();
    back.init(meta);
    let open = back.lookup(11).unwrap().unwrap();
    assert_eq!(open.status, Status::Open);
    assert_eq!(open.remaining_volume(), 2);
    assert_eq!(back.lookup(12).unwrap().unwrap().closed_by, Some(14));
    assert_eq!(back.lookup(13).unwrap().unwrap().status, Status::Executed);
    assert!(back.lookup(15).unwrap().is_none());
    assert_eq!(
        prices(&back.depth(10).unwrap()),
        (vec![(100, 2)], vec![])
    );
    for (u, c, id) in [("u1", "c1", 11), ("u2", "c2", 12), ("u3", "c3", 13)] {
        let found = back.lookup_by_client_id(u.into(), c.into()).unwrap().unwrap();
        assert_eq!(found.id, id);
    }
    back.add_order(o(5, Side::Bid, 1, 1)).unwrap();
    assert!(back.lookup(15).unwrap().is_some());
    back.set_archived_seq(14);
    assert!(back.lookup(12).unwrap().is_none());
    assert!(back.lookup(13).unwrap().is_none());
}

#[test]
fn batches_add_up_to_the_whole_snapshot() {
    let mut m = ready();
    for i in 1..=5u64 {
        m.add_order(o(i, Side::Bid, 90 + i, i)).unwrap(); // ids 11..=15
    }
    m.cancel_order(13).unwrap(); // seq=16
    let meta = m.take_snapshot().unwrap();
    let mut back = Matcher::new(TreeMap::new());
    while let Some(batch) = m.snapshot_batch(1).unwrap() {
        assert_eq!(batch.len(), 1);
        back.restore_snapshot_batch(batch).unwrap();
    }
    back.init(meta);
    assert_eq!(
        prices(&back.depth(10).unwrap()),
        prices(&m.depth(10).unwrap())
    );
    for id in 10..=16 {
        let (a, b) = (back.lookup(id).unwrap(), m.lookup(id).unwrap());
        assert_eq!(
            a.map(|x| (x.client_id, x.volume, x.closed_by)),
            b.map(|x| (x.client_id, x.volume, x.closed_by))
        );
    }
    assert_eq!(back.cancel_order(11).unwrap().closed_by, Some(17));
}

#[test]
fn matching_does_not_disturb_a_snapshot() {
    let mut m = ready();
    m.add_order(o(1, Side::Bid, 100, 3)).unwrap(); // id=11
    m.add_order(o(2, Side::Bid, 99, 1)).unwrap(); // id=12
    m.cancel_order(12).unwrap(); // seq=13
    m.take_snapshot().unwrap();
    m.add_and_match(o(3, Side::Ask, 100, 3)).unwrap(); // id=14, closes 11
    m.set_archived_seq(13);
    let all = m.snapshot_batch(10).unwrap().unwrap();
    assert_eq!(all.len(), 2);
    assert_eq!((all[0].id, all[0].status, all[0].executed_volume), (11, Status::Open, 0));
    assert_eq!((all[1].id, all[1].status), (12, Status::Canceled));
    assert!(m.lookup(12).unwrap().is_none());
}

#[test]
fn a_matcher_refuses_just_the_pairs_it_knows() {
    let mut m = ready();
    let order = |u: &str, c: &str| Order::new(0, u.into(), c.into(), Side::Bid, 5, 1);
    m.add_order(order("a:b", "c")).unwrap(); // id=11
    m.add_order(order("a", "b:c")).unwrap(); // id=12
    m.cancel_order(11).unwrap(); // seq=13
    for (u, c) in [("a:b", "c"), ("a", "b:c")] {
        assert!(matches!(
            m.add_order(order(u, c)),
            Err(Error::OrderClientIdExists(id)) if id == c
        ));
    }
    m.set_archived_seq(13);
    m.add_order(order("a:b", "c")).unwrap(); // id=14
    let found = m.lookup_by_client_id("a:b".into(), "c".into()).unwrap();
    assert_eq!(found.unwrap().id, 14);
    let other = m.lookup_by_client_id("a".into(), "b:c".into()).unwrap();
    assert_eq!(other.unwrap().id, 12);
}
