//! A hash map that can take a point-in-time snapshot.

use crate::collections::model::SnapshotModel;
use std::collections::{HashMap, HashSet};
use std::collections::hash_map::Entry;
use std::hash::Hash;
use std::ops::Index;
use vstd::prelude::*;
use vstd::std_specs::hash::obeys_key_model;

verus! {

broadcast use vstd::std_specs::hash::group_hash_axioms;

/// A type whose values work as keys: equal keys hash alike, and a clone is the same key.
pub open spec fn lawful_key<K: Clone>() -> bool {
    &&& obeys_key_model::<K>()
    &&& forall|a: K, b: K| #[trigger] cloned(a, b) ==> a == b
}

/// A clone of `key`: the same key, if its type is lawful.
fn clone_key<K: Clone>(key: &K) -> (res: K)
    ensures
        lawful_key::<K>() ==> res == *key,
{
    let res = key.clone();
    assert(cloned(*key, res));
    res
}

/// What is kept while a snapshot is active.
#[derive(Debug)]
#[verifier::reject_recursive_types(K)]
struct SnapshotCtx<K, V> {
    /// Keys inserted after the snapshot was started.
    keys_after: HashSet<K>,
    /// Old values for keys that have been changed or removed since the snapshot began.
    old: HashMap<K, V>,
}

/// A thin wrapper around `std::collections::HashMap` that can take a point-in-time snapshot.
///
/// While a snapshot is active:
/// - The first time a preexisting key is modified (via `modify`, `index_mut`, or `remove`),
///   its old value is stashed.
/// - `get_for_snapshot` returns the stashed old value for such keys, allowing readers to see a
///   consistent view that corresponds to the moment `begin_snapshot` was called.
/// - Keys inserted after `begin_snapshot` are not part of the snapshot, so they are never
///   stashed and `get_for_snapshot` returns their current value (or `None` once removed).
///
/// Only one snapshot can be active at a time.
#[derive(Debug)]
#[verifier::reject_recursive_types(K)]
pub struct SnapshotableHashMap<K, V> {
    map: HashMap<K, V>,
    snap: Option<SnapshotCtx<K, V>>,
}

impl<K, V> View for SnapshotableHashMap<K, V> {
    type V = SnapshotModel<K, V>;

    closed spec fn view(&self) -> SnapshotModel<K, V> {
        SnapshotModel {
            current: self.map@,
            session: match self.snap {
                Some(ctx) => Some(
                    crate::collections::model::SessionModel {
                        added: ctx.keys_after@,
                        stash: ctx.old@,
                    },
                ),
                None => None,
            },
        }
    }
}

impl<K: Eq + Hash + Clone, V> Default for SnapshotableHashMap<K, V> {
    fn default() -> (res: Self)
        ensures
            res@ == SnapshotModel::<K, V>::empty(),
    {
        SnapshotableHashMap { map: HashMap::new(), snap: None }
    }
}

impl<K, V> SnapshotableHashMap<K, V> where K: Eq + Hash + Clone + Ord, V: Clone {
    /// Begins a snapshot and returns the keys that existed at that moment, each once.
    pub fn begin_snapshot(&mut self) -> (keys: Vec<K>)
        requires
            lawful_key::<K>(),
            old(self)@.session is None,
        ensures
            final(self)@ == old(self)@.begin(),
            keys@.no_duplicates(),
            keys@.to_set() == old(self)@.current.dom(),
    {
        self.snap = Some(SnapshotCtx { keys_after: HashSet::new(), old: HashMap::new() });
        let mut keys: Vec<K> = Vec::new();
        for key in it: self.map.keys()
            invariant
                lawful_key::<K>(),
                keys@ =~= it.seq().unref().take(it.index()),
        {
            keys.push(clone_key(key));
        }
        proof {
            let listed = vstd::std_specs::iter::IteratorSpec::remaining(&self.map.keys()).unref();
            assert(keys@ =~= listed);
        }
        keys
    }

    /// Ends the current snapshot (if any), returning to normal semantics.
    pub fn end_snapshot(&mut self)
        ensures
            final(self)@ == old(self)@.end(),
    {
        self.snap = None;
    }

    /// If a snapshot is active and `key` was present at its start, stashes the old value once.
    fn maybe_stash_old(&mut self, key: &K)
        requires
            lawful_key::<K>(),
        ensures
            exists|copy: V|
                {
                    &&& cloned(old(self)@.current[*key], copy)
                    &&& final(self)@ == #[trigger] old(self)@.stash_old(*key, copy)
                },
    {
        if let Some(ctx) = &mut self.snap {
            if ctx.old.contains_key(key) {
                assert(self@ =~= old(self)@.stash_old(
                    *key,
                    old(self)@.current[*key],
                ));
                return;
            }
            if !ctx.keys_after.contains(key) {
                if let Some(old_value) = self.map.get(key) {
                    let copy = old_value.clone();
                    let ghost stashed = copy;
                    ctx.old.insert(clone_key(key), copy);
                    assert(self@ =~= old(self)@.stash_old(*key, stashed));
                    return;
                }
            }
        }
        assert(self@ =~= old(self)@.stash_old(*key, old(self)@.current[*key]));
    }

    /// Inserts a value into the underlying map. Returns the previous value, if any.
    pub fn insert(&mut self, k: K, v: V) -> (res: Option<V>)
        requires
            lawful_key::<K>(),
        ensures
            final(self)@ == old(self)@.insert(k, v),
            res == old(self)@.current.get(k),
    {
        if let Some(snap) = &mut self.snap {
            snap.keys_after.insert(clone_key(&k));
        }
        self.map.insert(k, v)
    }

    /// Gets the current value for `key`, regardless of snapshot state.
    pub fn get(&self, key: &K) -> (res: Option<&V>)
        requires
            lawful_key::<K>(),
        ensures
            match res {
                Some(v) => self@.current.contains_key(*key) && *v == self@.current[*key],
                None => !self@.current.contains_key(*key),
            },
    {
        self.map.get(key)
    }

    /// Gets a value suitable for readers during a snapshot.
    ///
    /// - If a snapshot is active and an old value was stashed for `key`, that old value is
    ///   returned.
    /// - Otherwise, returns the current value from the map.
    pub fn get_for_snapshot(&self, key: &K) -> (res: Option<&V>)
        requires
            lawful_key::<K>(),
        ensures
            match res {
                Some(v) => self@.visible().contains_key(*key) && *v == self@.visible()[*key],
                None => !self@.visible().contains_key(*key),
            },
    {
        match &self.snap {
            Some(ctx) => {
                if let Some(old_value) = ctx.old.get(key) {
                    return Some(old_value);
                }
                self.map.get(key)
            },
            None => self.map.get(key),
        }
    }

    /// Mutates an entry by key using the provided closure. No-op if the key doesn't exist.
    pub fn modify<F: FnOnce(&mut V)>(&mut self, key: &K, f: F)
        requires
            lawful_key::<K>(),
            forall|v: &mut V|
                old(self)@.current.contains_key(*key) && *v == old(self)@.current[*key]
                    ==> #[trigger] call_requires(f, (v,)),
        ensures
            if old(self)@.current.contains_key(*key) {
                &&& exists|v: &mut V|
                    {
                        &&& *v == old(self)@.current[*key]
                        &&& #[trigger] call_ensures(f, (v,), ())
                        &&& final(self)@.current == old(self)@.current.insert(*key, *final(v))
                    }
                &&& exists|copy: V|
                    {
                        &&& cloned(old(self)@.current[*key], copy)
                        &&& final(self)@.session == (#[trigger] old(self)@.stash_old(
                            *key,
                            copy,
                        )).session
                    }
            } else {
                final(self)@ == old(self)@
            },
    {
        self.maybe_stash_old(key);
        if let Entry::Occupied(e) = self.map.entry(clone_key(key)) {
            f(e.into_mut());
        }
    }

    /// The value under `key`, to be changed in place. If a snapshot is active and `key` was
    /// present at its start, the old value is stashed first.
    pub fn index_mut(&mut self, key: &K) -> (res: &mut V)
        requires
            lawful_key::<K>(),
            old(self)@.current.contains_key(*key),
        ensures
            *res == old(self)@.current[*key],
            final(self)@.current == old(self)@.current.insert(*key, *final(res)),
            exists|copy: V|
                {
                    &&& cloned(old(self)@.current[*key], copy)
                    &&& final(self)@.session == (#[trigger] old(self)@.stash_old(
                        *key,
                        copy,
                    )).session
                },
    {
        self.maybe_stash_old(key);
        match self.map.entry(clone_key(key)) {
            Entry::Occupied(e) => e.into_mut(),
            Entry::Vacant(_) => vstd::pervasive::unreached(),
        }
    }

    /// Removes and returns the current value for `key`, if any.
    /// If a snapshot is active and `key` was present at its start, the old value is stashed
    /// first.
    pub fn remove(&mut self, key: &K) -> (res: Option<V>)
        requires
            lawful_key::<K>(),
        ensures
            res == old(self)@.current.get(*key),
            exists|copy: V|
                {
                    &&& cloned(old(self)@.current[*key], copy)
                    &&& final(self)@ == #[trigger] old(self)@.remove(*key, copy)
                },
    {
        self.maybe_stash_old(key);
        let ghost copy = choose|copy: V|
            cloned(old(self)@.current[*key], copy) && self@ == #[trigger] old(self)@.stash_old(
                *key,
                copy,
            );
        if let Some(snap) = &mut self.snap {
            snap.keys_after.remove(key);
        }
        let res = self.map.remove(key);
        assert(self@ =~= old(self)@.remove(*key, copy));
        res
    }
}

impl<K: Eq + Hash, V> Index<&K> for SnapshotableHashMap<K, V> {
    type Output = V;

    /// The current value under `key`.
    fn index(&self, key: &K) -> (res: &V)
        ensures
            *res == self@.current[*key],
    {
        self.map.get(key).unwrap()
    }
}

impl<K: Eq + Hash, V> vstd::std_specs::core::IndexSpecImpl<&K> for SnapshotableHashMap<K, V> {
    open spec fn index_req(&self, key: &&K) -> bool {
        obeys_key_model::<K>() && self@.current.contains_key(**key)
    }
}

} // verus!
