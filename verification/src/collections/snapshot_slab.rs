//! A slab that can take a point-in-time snapshot.

use crate::collections::model::{SessionModel, SnapshotModel};
use slab::Slab;
use std::collections::{HashMap, HashSet};
use std::collections::hash_map::Entry;
use std::ops::Index;
use vstd::prelude::*;

verus! {

broadcast use vstd::std_specs::hash::group_hash_axioms;

/// `slab::Slab`, which hands out keys and takes them back for reuse.
#[verifier::external_type_specification]
#[verifier::external_body]
#[verifier::reject_recursive_types(T)]
pub struct ExSlab<T>(slab::Slab<T>);

/// The keys that a slab has handed out and not taken back.
pub uninterp spec fn slab_keys(slab: Slab<()>) -> Set<usize>;

/// Calls `slab::Slab::new`: a new slab has handed out no key.
#[verifier::external_body]
fn slab_new() -> (res: Slab<()>)
    ensures
        slab_keys(res) == Set::<usize>::empty(),
{
    Slab::new()
}

/// Calls `slab::Slab::insert`: the key that it returns was not in use, and now is; the other
/// keys stay as they were. Like any growing collection it panics where its storage would outgrow
/// `isize::MAX` bytes.
#[verifier::external_body]
fn slab_insert(slab: &mut Slab<()>) -> (key: usize)
    ensures
        !slab_keys(*old(slab)).contains(key),
        slab_keys(*final(slab)) == slab_keys(*old(slab)).insert(key),
{
    slab.insert(())
}

/// Calls `slab::Slab::remove`, which panics on a key that is not in use: the key is free
/// again; the other keys stay as they were.
#[verifier::external_body]
fn slab_remove(slab: &mut Slab<()>, key: usize)
    requires
        slab_keys(*old(slab)).contains(key),
    ensures
        slab_keys(*final(slab)) == slab_keys(*old(slab)).remove(key),
{
    slab.remove(key)
}

/// What is kept while a snapshot is active.
#[derive(Debug)]
struct SnapshotCtx<T> {
    /// Keys inserted after the snapshot was started.
    keys_after: HashSet<usize>,
    /// Old values for keys that have been changed or removed since the snapshot began.
    old: HashMap<usize, T>,
}

/// A wrapper around `slab::Slab` that can take a point-in-time snapshot.
///
/// The slab decides which key a new value gets; the values lie beside it, by key.
///
/// While a snapshot is active:
/// - The first time a preexisting key is modified (via `modify`, `index_mut`, or `remove`),
///   its old value is stashed.
/// - `get_for_snapshot` returns the stashed old value for such keys, allowing readers to see a
///   consistent view that corresponds to the moment `begin_snapshot` was called.
/// - Keys inserted after `begin_snapshot` are not part of the snapshot, so they are never
///   stashed and `get_for_snapshot` returns their current value (or `None` once removed).
///
/// Only one snapshot can be active at a time.
#[derive(Debug)]
pub struct SnapshotableSlab<T> {
    slab: Slab<()>,
    values: HashMap<usize, T>,
    snap: Option<SnapshotCtx<T>>,
}

impl<T> View for SnapshotableSlab<T> {
    type V = SnapshotModel<usize, T>;

    closed spec fn view(&self) -> SnapshotModel<usize, T> {
        SnapshotModel {
            current: self.values@,
            session: match self.snap {
                Some(ctx) => Some(SessionModel { added: ctx.keys_after@, stash: ctx.old@ }),
                None => None,
            },
        }
    }
}

impl<T> SnapshotableSlab<T> {
    /// A key is in use exactly when a value lies under it.
    pub closed spec fn wf(&self) -> bool {
        slab_keys(self.slab) == self.values@.dom()
    }

    /// The number of values fits in a `usize`.
    pub proof fn lemma_len_fits(&self)
        ensures
            self@.current.dom().finite(),
            self@.current.len() <= usize::MAX,
    {
        assert(self.values.len() == self.values@.len());
    }
}

impl<T> Default for SnapshotableSlab<T> {
    fn default() -> (res: Self)
        ensures
            res.wf(),
            res@ == SnapshotModel::<usize, T>::empty(),
    {
        SnapshotableSlab { slab: slab_new(), values: HashMap::new(), snap: None }
    }
}

impl<T: Clone> SnapshotableSlab<T> {
    /// Begins a snapshot and returns the keys that existed at that moment, each once.
    pub fn begin_snapshot(&mut self) -> (keys: Vec<usize>)
        requires
            old(self).wf(),
            old(self)@.session is None,
        ensures
            final(self).wf(),
            final(self)@ == old(self)@.begin(),
            keys@.no_duplicates(),
            keys@.to_set() == old(self)@.current.dom(),
    {
        self.snap = Some(SnapshotCtx { keys_after: HashSet::new(), old: HashMap::new() });
        let mut keys: Vec<usize> = Vec::new();
        for key in it: self.values.keys()
            invariant
                keys@ =~= it.seq().unref().take(it.index()),
        {
            keys.push(*key);
        }
        proof {
            let listed = vstd::std_specs::iter::IteratorSpec::remaining(
                &self.values.keys(),
            ).unref();
            assert(keys@ =~= listed);
        }
        keys
    }

    /// Ends the current snapshot (if any), returning to normal semantics.
    pub fn end_snapshot(&mut self)
        requires
            old(self).wf(),
        ensures
            final(self).wf(),
            final(self)@ == old(self)@.end(),
    {
        self.snap = None;
    }

    /// If a snapshot is active and `key` was present at its start, stashes the old value once.
    fn maybe_stash_old(&mut self, key: usize)
        ensures
            final(self).wf() == old(self).wf(),
            exists|copy: T|
                {
                    &&& cloned(old(self)@.current[key], copy)
                    &&& final(self)@ == #[trigger] old(self)@.stash_old(key, copy)
                },
    {
        if let Some(ctx) = &mut self.snap {
            if ctx.old.contains_key(&key) {
                assert(self@ =~= old(self)@.stash_old(key, old(self)@.current[key]));
                return;
            }
            if !ctx.keys_after.contains(&key) {
                if let Some(old_value) = self.values.get(&key) {
                    let copy = old_value.clone();
                    let ghost stashed = copy;
                    ctx.old.insert(key, copy);
                    assert(self@ =~= old(self)@.stash_old(key, stashed));
                    return;
                }
            }
        }
        assert(self@ =~= old(self)@.stash_old(key, old(self)@.current[key]));
    }

    /// Inserts a value and returns its key, which was not in use.
    pub fn insert(&mut self, v: T) -> (key: usize)
        requires
            old(self).wf(),
        ensures
            final(self).wf(),
            !old(self)@.current.contains_key(key),
            final(self)@ == old(self)@.insert(key, v),
    {
        let key = slab_insert(&mut self.slab);
        if let Some(snap) = &mut self.snap {
            snap.keys_after.insert(key);
        }
        self.values.insert(key, v);
        key
    }

    /// Gets the current value for `key`, regardless of snapshot state.
    pub fn get(&self, key: usize) -> (res: Option<&T>)
        ensures
            match res {
                Some(v) => self@.current.contains_key(key) && *v == self@.current[key],
                None => !self@.current.contains_key(key),
            },
    {
        self.values.get(&key)
    }

    /// Gets a value suitable for readers during a snapshot.
    ///
    /// - If a snapshot is active and an old value was stashed for `key`, that old value is
    ///   returned.
    /// - Otherwise, returns the current value.
    pub fn get_for_snapshot(&self, key: usize) -> (res: Option<&T>)
        ensures
            match res {
                Some(v) => self@.visible().contains_key(key) && *v == self@.visible()[key],
                None => !self@.visible().contains_key(key),
            },
    {
        match &self.snap {
            Some(ctx) => {
                if let Some(old_value) = ctx.old.get(&key) {
                    return Some(old_value);
                }
                self.values.get(&key)
            },
            None => self.values.get(&key),
        }
    }

    /// Mutates an entry by key using the provided closure. No-op if the key doesn't exist.
    pub fn modify<F: FnOnce(&mut T)>(&mut self, key: usize, f: F)
        requires
            old(self).wf(),
            forall|v: &mut T|
                old(self)@.current.contains_key(key) && *v == old(self)@.current[key]
                    ==> #[trigger] call_requires(f, (v,)),
        ensures
            final(self).wf(),
            if old(self)@.current.contains_key(key) {
                &&& exists|v: &mut T|
                    {
                        &&& *v == old(self)@.current[key]
                        &&& #[trigger] call_ensures(f, (v,), ())
                        &&& final(self)@.current == old(self)@.current.insert(key, *final(v))
                    }
                &&& exists|copy: T|
                    {
                        &&& cloned(old(self)@.current[key], copy)
                        &&& final(self)@.session == (#[trigger] old(self)@.stash_old(
                            key,
                            copy,
                        )).session
                    }
            } else {
                final(self)@ == old(self)@
            },
    {
        self.maybe_stash_old(key);
        if let Entry::Occupied(e) = self.values.entry(key) {
            f(e.into_mut());
        }
        assert(self.values@.dom() =~= old(self).values@.dom());
    }

    /// The value under `key`, to be changed in place. If a snapshot is active and `key` was
    /// present at its start, the old value is stashed first.
    pub fn index_mut(&mut self, key: usize) -> (res: &mut T)
        requires
            old(self).wf(),
            old(self)@.current.contains_key(key),
        ensures
            final(self).wf(),
            *res == old(self)@.current[key],
            final(self)@.current == old(self)@.current.insert(key, *final(res)),
            exists|copy: T|
                {
                    &&& cloned(old(self)@.current[key], copy)
                    &&& final(self)@.session == (#[trigger] old(self)@.stash_old(key, copy)).session
                },
    {
        self.maybe_stash_old(key);
        assert(forall|v: T| #[trigger]
            self.values@.insert(key, v).dom() =~= self.values@.dom());
        match self.values.entry(key) {
            Entry::Occupied(e) => e.into_mut(),
            Entry::Vacant(_) => vstd::pervasive::unreached(),
        }
    }

    /// Removes and returns the current value at `key`.
    /// If a snapshot is active and `key` was present at its start, the old value is stashed
    /// first.
    pub fn remove(&mut self, key: usize) -> (res: T)
        requires
            old(self).wf(),
            old(self)@.current.contains_key(key),
        ensures
            final(self).wf(),
            res == old(self)@.current[key],
            exists|copy: T|
                {
                    &&& cloned(old(self)@.current[key], copy)
                    &&& final(self)@ == #[trigger] old(self)@.remove(key, copy)
                },
    {
        self.maybe_stash_old(key);
        let ghost copy = choose|copy: T|
            cloned(old(self)@.current[key], copy) && self@ == #[trigger] old(self)@.stash_old(
                key,
                copy,
            );
        slab_remove(&mut self.slab, key);
        if let Some(snap) = &mut self.snap {
            snap.keys_after.remove(&key);
        }
        let value = self.values.remove(&key);
        assert(self@ =~= old(self)@.remove(key, copy));
        value.unwrap()
    }
}

impl<T> Index<usize> for SnapshotableSlab<T> {
    type Output = T;

    /// The current value under `key`.
    fn index(&self, key: usize) -> (res: &T)
        ensures
            *res == self@.current[key],
    {
        self.values.get(&key).unwrap()
    }
}

impl<T> vstd::std_specs::core::IndexSpecImpl<usize> for SnapshotableSlab<T> {
    open spec fn index_req(&self, key: &usize) -> bool {
        self@.current.contains_key(*key)
    }
}

} // verus!
