use chortke::collections::hash_map::SnapshotableHashMap;
use chortke::collections::snapshot_slab::SnapshotableSlab;

#[test]
fn hash_map_begin_and_end_snapshot() {
    let mut m: SnapshotableHashMap<u32, i32> = SnapshotableHashMap::default();
    m.insert(1, 10);
    m.insert(2, 20);

    let mut keys = m.begin_snapshot();
    keys.sort_unstable();
    assert_eq!(keys, vec![1, 2]);
    assert_eq!(m.get_for_snapshot(&1), Some(&10));
    assert_eq!(m.get_for_snapshot(&2), Some(&20));

    m.end_snapshot();
    assert_eq!(m.get_for_snapshot(&1), Some(&10));
}

#[test]
fn hash_map_get_for_snapshot_returns_old_on_modify_and_remove() {
    let mut m: SnapshotableHashMap<&'static str, i32> = SnapshotableHashMap::default();
    m.insert("a", 1);
    m.insert("b", 2);
    m.insert("c", 3);

    let mut keys = m.begin_snapshot();
    keys.sort_unstable();
    assert_eq!(keys, vec!["a", "b", "c"]);

    // Modify existing key
    m.modify(&"b", |v| *v = 200);
    assert_eq!(m.get(&"b"), Some(&200));
    assert_eq!(m.get_for_snapshot(&"b"), Some(&2)); // old value

    // Remove existing key
    let removed = m.remove(&"c");
    assert_eq!(removed, Some(3));
    assert_eq!(m.get(&"c"), None);
    assert_eq!(m.get_for_snapshot(&"c"), Some(&3)); // old value

    // Key not touched returns current
    assert_eq!(m.get_for_snapshot(&"a"), Some(&1));
}

#[test]
fn hash_map_new_insertions_are_not_stashed() {
    let mut m: SnapshotableHashMap<i32, i32> = SnapshotableHashMap::default();
    m.insert(10, 100);

    let _ = m.begin_snapshot();

    // Insertion after snapshot start: not part of snapshot, so no stashing
    m.insert(11, 110);
    m.modify(&11, |v| *v = 111);
    assert_eq!(m.get_for_snapshot(&11), Some(&111));

    // Removing also shows None to snapshot readers (not stashed)
    m.remove(&11);
    assert_eq!(m.get_for_snapshot(&11), None);
}

#[test]
fn hash_map_index_mut_triggers_stash() {
    let mut m: SnapshotableHashMap<i32, i32> = SnapshotableHashMap::default();
    m.insert(1, 10);
    m.insert(2, 20);
    m.begin_snapshot();

    *m.index_mut(&1) = 100; // should stash old value (10)
    assert_eq!(m.get_for_snapshot(&1), Some(&10));

    *m.index_mut(&2) += 1; // should stash old value (20)
    assert_eq!(m.get_for_snapshot(&2), Some(&20));
}

#[test]
fn hash_map_modify_noop_for_missing_key() {
    let mut m: SnapshotableHashMap<i32, i32> = SnapshotableHashMap::default();
    m.insert(1, 10);
    m.begin_snapshot();

    m.modify(&999, |v| *v = *v + 1); // no-op, key missing
    assert_eq!(m.get_for_snapshot(&1), Some(&10));
}

#[test]
fn slab_begin_lists_keys_and_end_returns_to_normal() {
    let mut s: SnapshotableSlab<i32> = SnapshotableSlab::default();
    let a = s.insert(10);
    let b = s.insert(20);
    let mut ks = s.begin_snapshot();
    ks.sort_unstable();
    let mut expected = vec![a, b];
    expected.sort_unstable();
    assert_eq!(
        ks, expected,
        "keys after begin_snapshot mismatch: got {:?}, expected {:?}",
        ks, expected
    );

    // ending snapshot restores normal behavior
    s.end_snapshot();
    assert_eq!(
        s.get_for_snapshot(a),
        Some(&10),
        "after end_snapshot, snapshot view should equal current for key a"
    );
}

#[test]
fn slab_get_for_snapshot_returns_old_on_modify_and_remove() {
    let mut s: SnapshotableSlab<i32> = SnapshotableSlab::default();
    let a = s.insert(1);
    let b = s.insert(2);
    let _keys = s.begin_snapshot();

    // modify a via modify
    s.modify(a, |v| *v = 11);
    // snapshot view should still see the old value
    assert_eq!(
        s.get_for_snapshot(a),
        Some(&1),
        "snapshot view should return stashed old value for modified key a"
    );
    // current view sees new value
    assert_eq!(
        s.get(a),
        Some(&11),
        "current view should reflect modified value for key a"
    );

    // remove b
    let removed = s.remove(b);
    assert_eq!(
        removed, 2,
        "remove should return the current value for key b"
    );
    // snapshot view can still see old b
    assert_eq!(
        s.get_for_snapshot(b),
        Some(&2),
        "snapshot view should return stashed old value for removed key b"
    );
    // current view sees it's gone
    assert!(
        s.get(b).is_none(),
        "current view should not contain key b after removal"
    );

    // after ending snapshot, snapshot view equals current
    s.end_snapshot();
    assert_eq!(
        s.get_for_snapshot(a),
        Some(&11),
        "after end_snapshot, snapshot view should reflect current value for key a"
    );
    assert_eq!(
        s.get_for_snapshot(b),
        None,
        "after end_snapshot, removed key b should be absent in snapshot view as well"
    );
}

#[test]
fn slab_new_insertions_are_not_stashed() {
    let mut s: SnapshotableSlab<i32> = SnapshotableSlab::default();
    let _ = s.begin_snapshot();

    let k = s.insert(7);
    // modify new key; since it wasn't present at snapshot start, there is no old stash
    s.modify(k, |v| *v = 8);
    assert_eq!(
        s.get_for_snapshot(k),
        Some(&8),
        "newly inserted key k should not be stashed; snapshot view shows latest value"
    );

    // removing also should not produce an old value for snapshot
    let _ = s.remove(k);
    assert_eq!(
        s.get_for_snapshot(k),
        None,
        "newly inserted key k should not appear in snapshot view after removal"
    );
}

#[test]
fn slab_index_mut_triggers_stash() {
    let mut s: SnapshotableSlab<String> = SnapshotableSlab::default();
    let k = s.insert("a".to_string());
    let _ = s.begin_snapshot();

    // mutate in place
    s.index_mut(k).push('b');

    // snapshot should return old value
    assert_eq!(
        s.get_for_snapshot(k).map(|v| v.as_str()),
        Some("a"),
        "index_mut should stash old value; snapshot view must still return \"a\""
    );
    // current returns new value
    assert_eq!(
        s.get(k).map(|v| v.as_str()),
        Some("ab"),
        "current view should show mutated string 'ab'"
    );
}

#[test]
fn slab_modify_noop_for_missing_key() {
    let mut s: SnapshotableSlab<i32> = SnapshotableSlab::default();
    // Should not panic even if key doesn't exist
    s.modify(999, |v| *v += 1);
    assert!(
        s.get(999).is_none(),
        "modify on missing key should be a no-op; get(999) must be None"
    );
}

#[test]
fn slab_reused_key_still_shows_the_old_value() {
    let mut s: SnapshotableSlab<i32> = SnapshotableSlab::default();
    let a = s.insert(1);
    let mut keys = s.begin_snapshot();
    assert_eq!(s.remove(a), 1);
    let b = s.insert(2);
    assert_eq!(a, b);
    s.modify(b, |v| *v = 3);
    assert_eq!(s.get(b), Some(&3));
    assert_eq!(s.get_for_snapshot(b), Some(&1));
    assert_eq!(s[b], 3);
    s.end_snapshot();
    assert_eq!(s.get_for_snapshot(b), Some(&3));
    assert_eq!(keys.pop(), Some(a));
}

#[test]
fn slab_keys_in_use_are_different() {
    let mut s: SnapshotableSlab<usize> = SnapshotableSlab::default();
    let mut keys: Vec<usize> = (0..10).map(|i| s.insert(i)).collect();
    for (i, k) in keys.iter().enumerate() {
        assert_eq!(s.get(*k), Some(&i));
    }
    keys.sort_unstable();
    keys.dedup();
    assert_eq!(keys.len(), 10);
    let mut listed = s.begin_snapshot();
    listed.sort_unstable();
    assert_eq!(listed, keys);
}

#[test]
fn slab_modify_of_a_missing_key_is_a_noop_in_a_snapshot() {
    let mut s: SnapshotableSlab<i32> = SnapshotableSlab::default();
    let a = s.insert(1);
    s.begin_snapshot();
    s.modify(a + 1, |v| *v = 9);
    assert_eq!(s.get_for_snapshot(a), Some(&1));
    assert_eq!(s.get_for_snapshot(a + 1), None);
}

#[test]
fn hash_map_insert_returns_the_previous_value() {
    let mut m: SnapshotableHashMap<u64, i32> = SnapshotableHashMap::default();
    assert_eq!(m.insert(1, 10), None);
    assert_eq!(m.insert(1, 11), Some(10));
    assert_eq!(m[&1], 11);
    assert_eq!(m.remove(&2), None);
}

#[test]
fn hash_map_first_old_value_is_kept() {
    let mut m: SnapshotableHashMap<u64, i32> = SnapshotableHashMap::default();
    m.insert(1, 10);
    m.begin_snapshot();
    m.modify(&1, |v| *v += 1);
    m.modify(&1, |v| *v += 1);
    m.remove(&1);
    m.insert(1, 99);
    assert_eq!(m.get(&1), Some(&99));
    assert_eq!(m.get_for_snapshot(&1), Some(&10));
    m.end_snapshot();
    assert_eq!(m.get_for_snapshot(&1), Some(&99));
}
