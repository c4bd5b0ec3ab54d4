//! The mathematical model shared by the snapshotable containers.

use vstd::prelude::*;

verus! {

/// What a container remembers while a snapshot is being read.
#[verifier::ext_equal]
#[verifier::reject_recursive_types(K)]
pub struct SessionModel<K, V> {
    /// Keys inserted since the snapshot began, and not removed again.
    pub added: Set<K>,
    /// Values set aside because their key was changed or removed since then.
    pub stash: Map<K, V>,
}

/// A keyed container together with the snapshot that may be active on it.
#[verifier::ext_equal]
#[verifier::reject_recursive_types(K)]
pub struct SnapshotModel<K, V> {
    /// What the container holds now.
    pub current: Map<K, V>,
    /// The active snapshot, if there is one.
    pub session: Option<SessionModel<K, V>>,
}

impl<K, V> SnapshotModel<K, V> {
    /// A container that holds nothing, with no snapshot active.
    pub open spec fn empty() -> Self {
        SnapshotModel { current: Map::empty(), session: None }
    }

    /// A snapshot has begun.
    pub open spec fn begin(self) -> Self {
        SnapshotModel {
            session: Some(SessionModel { added: Set::empty(), stash: Map::empty() }),
            ..self
        }
    }

    /// The snapshot is over.
    pub open spec fn end(self) -> Self {
        SnapshotModel { session: None, ..self }
    }

    /// A change to `key` now would first set its value aside.
    pub open spec fn stashes(self, key: K) -> bool {
        match self.session {
            Some(s) => !s.stash.contains_key(key) && !s.added.contains(key)
                && self.current.contains_key(key),
            None => false,
        }
    }

    /// `copy` has been set aside for `key`, if a change to `key` calls for it.
    pub open spec fn stash_old(self, key: K, copy: V) -> Self {
        if self.stashes(key) {
            SnapshotModel {
                session: Some(
                    SessionModel {
                        stash: self.session->0.stash.insert(key, copy),
                        ..self.session->0
                    },
                ),
                ..self
            }
        } else {
            self
        }
    }

    /// `value` has been put in under `key`.
    pub open spec fn insert(self, key: K, value: V) -> Self {
        SnapshotModel {
            current: self.current.insert(key, value),
            session: match self.session {
                Some(s) => Some(SessionModel { added: s.added.insert(key), ..s }),
                None => None,
            },
        }
    }

    /// The value under `key` has become `value`; `copy` is what was set aside, if anything was.
    pub open spec fn write(self, key: K, copy: V, value: V) -> Self {
        SnapshotModel {
            current: self.current.insert(key, value),
            session: self.stash_old(key, copy).session,
        }
    }

    /// `key` has been taken out; `copy` is what was set aside, if anything was.
    pub open spec fn remove(self, key: K, copy: V) -> Self {
        SnapshotModel {
            current: self.current.remove(key),
            session: match self.stash_old(key, copy).session {
                Some(s) => Some(SessionModel { added: s.added.remove(key), ..s }),
                None => None,
            },
        }
    }

    /// All keys in `gone` have been taken out, each with its own value set aside where that is
    /// called for.
    pub open spec fn remove_all(self, gone: Set<K>) -> Self {
        SnapshotModel {
            current: self.current.remove_keys(gone),
            session: match self.session {
                Some(s) => Some(
                    SessionModel {
                        added: s.added.difference(gone),
                        stash: s.stash.union_prefer_right(
                            self.current.restrict(gone.filter(|k: K| self.stashes(k))),
                        ),
                    },
                ),
                None => None,
            },
        }
    }

    /// What a reader of the snapshot sees; what the container holds when none is active.
    pub open spec fn visible(self) -> Map<K, V> {
        match self.session {
            Some(s) => self.current.union_prefer_right(s.stash),
            None => self.current,
        }
    }

    /// Every snapshot that this state shows, `later` shows too.
    #[verifier::opaque]
    pub open spec fn keeps_snapshots(self, later: Self) -> bool {
        &&& self.session is Some <==> later.session is Some
        &&& forall|base: Map<K, V>| #[trigger] self.isolates(base) ==> later.isolates(base)
    }

    /// A snapshot is active, and it shows every entry of `base` as it was; nothing but
    /// entries of `base` has been set aside.
    pub open spec fn isolates(self, base: Map<K, V>) -> bool {
        &&& self.session is Some
        &&& forall|k: K| #[trigger]
            base.contains_key(k) ==> {
                &&& self.visible().contains_key(k)
                &&& self.visible()[k] == base[k]
                &&& self.session->0.added.contains(k) ==> self.session->0.stash.contains_key(k)
            }
        &&& forall|k: K| #[trigger]
            self.session->0.stash.contains_key(k) ==> base.contains_key(k)
        &&& forall|k: K| #[trigger]
            self.current.contains_key(k) ==> base.contains_key(k) || self.session->0.added.contains(
                k,
            )
    }
}

/// Doing nothing keeps every snapshot.
pub proof fn lemma_keeps_snapshots_refl<K, V>(m: SnapshotModel<K, V>)
    ensures
        m.keeps_snapshots(m),
{
    reveal(SnapshotModel::keeps_snapshots);
}

/// What a first change keeps and a second change keeps, both keep together.
pub proof fn lemma_keeps_snapshots_trans<K, V>(
    a: SnapshotModel<K, V>,
    b: SnapshotModel<K, V>,
    c: SnapshotModel<K, V>,
)
    requires
        a.keeps_snapshots(b),
        b.keeps_snapshots(c),
    ensures
        a.keeps_snapshots(c),
{
    reveal(SnapshotModel::keeps_snapshots);
}

/// Taking one more key out.
pub proof fn lemma_remove_one_more<K, V>(m: SnapshotModel<K, V>, gone: Set<K>, key: K, copy: V)
    requires
        m.remove_all(gone).current.contains_key(key) ==> copy == m.current[key],
    ensures
        m.remove_all(gone).remove(key, copy) == m.remove_all(gone.insert(key)),
{
    assert(m.remove_all(gone).remove(key, copy) =~= m.remove_all(gone.insert(key)));
}

/// Taking no key out changes nothing.
pub proof fn lemma_remove_none<K, V>(m: SnapshotModel<K, V>)
    ensures
        m.remove_all(Set::empty()) == m,
{
    assert(m.remove_all(Set::empty()) =~= m);
}

/// Removing any number of entries never disturbs what an active snapshot shows.
pub proof fn law_remove_all_keeps_isolation<K, V>(
    m: SnapshotModel<K, V>,
    base: Map<K, V>,
    gone: Set<K>,
)
    requires
        m.isolates(base),
    ensures
        m.remove_all(gone).isolates(base),
{
}

/// A snapshot shows, at the moment it begins, exactly what the container holds.
pub proof fn law_begin_shows_current<K, V>(m: SnapshotModel<K, V>)
    ensures
        m.begin().isolates(m.current),
        m.begin().visible() == m.current,
{
    assert(m.begin().visible() =~= m.current);
}

/// Changing an entry never disturbs what an active snapshot shows.
pub proof fn law_write_keeps_isolation<K, V>(
    m: SnapshotModel<K, V>,
    base: Map<K, V>,
    key: K,
    value: V,
)
    requires
        m.isolates(base),
        m.current.contains_key(key),
    ensures
        m.write(key, m.current[key], value).isolates(base),
{
}

/// Removing an entry never disturbs what an active snapshot shows.
pub proof fn law_remove_keeps_isolation<K, V>(m: SnapshotModel<K, V>, base: Map<K, V>, key: K)
    requires
        m.isolates(base),
    ensures
        m.remove(key, m.current[key]).isolates(base),
{
}

/// Inserting an entry leaves what an active snapshot shows alone, unless it overwrites an
/// entry of the snapshot that has not been set aside yet.
pub proof fn law_insert_keeps_isolation<K, V>(
    m: SnapshotModel<K, V>,
    base: Map<K, V>,
    key: K,
    value: V,
)
    requires
        m.isolates(base),
        !base.contains_key(key) || m.session->0.stash.contains_key(key),
    ensures
        m.insert(key, value).isolates(base),
{
}

/// An entry that is not part of the snapshot is never set aside: a reader sees its present
/// value, or nothing once it is gone.
pub proof fn law_new_keys_are_not_stashed<K, V>(m: SnapshotModel<K, V>, base: Map<K, V>, key: K)
    requires
        m.isolates(base),
        !base.contains_key(key),
    ensures
        !m.session->0.stash.contains_key(key),
        m.visible().contains_key(key) == m.current.contains_key(key),
        m.visible().contains_key(key) ==> m.visible()[key] == m.current[key],
{
}

/// Once the snapshot has ended, a reader sees what the container holds.
pub proof fn law_end_shows_current<K, V>(m: SnapshotModel<K, V>)
    ensures
        m.end().visible() == m.current,
        m.end().current == m.current,
{
}

/// A new container holds nothing, and no snapshot is active on it.
pub proof fn law_new_container_is_empty<K, V>(key: K)
    ensures
        !SnapshotModel::<K, V>::empty().current.contains_key(key),
        SnapshotModel::<K, V>::empty().session is None,
{
}

/// Beginning a snapshot, and ending it, changes nothing that the container holds; at its beginning
/// nothing has been inserted or set aside.
pub proof fn law_snapshots_change_nothing_held<K, V>(m: SnapshotModel<K, V>, key: K)
    ensures
        m.begin().current == m.current,
        m.begin().session is Some,
        !m.begin().session->0.added.contains(key),
        !m.begin().session->0.stash.contains_key(key),
        m.end().current == m.current,
        m.end().session is None,
{
}

/// What was put in is held under its key, and nothing else changes, nothing is set aside either; a
/// snapshot that is active notes that the key is new.
pub proof fn law_insert_changes_one_key<K, V>(m: SnapshotModel<K, V>, key: K, value: V, other: K)
    ensures
        ({
            let after = m.insert(key, value);
            &&& after.current.contains_key(key)
            &&& after.current[key] == value
            &&& other != key ==> {
                &&& after.current.contains_key(other) == m.current.contains_key(other)
                &&& m.current.contains_key(other) ==> after.current[other] == m.current[other]
            }
            &&& after.session is Some <==> m.session is Some
            &&& m.session is Some ==> {
                &&& after.session->0.stash == m.session->0.stash
                &&& after.session->0.added.contains(other) <==> other == key
                    || m.session->0.added.contains(other)
            }
        }),
{
}

/// What was written is held under its key, and nothing else changes. A snapshot that is active sets
/// the value that was there aside, once, unless the key is new to it.
pub proof fn law_write_changes_one_key<K, V>(
    m: SnapshotModel<K, V>,
    key: K,
    copy: V,
    value: V,
    other: K,
)
    requires
        m.current.contains_key(key),
    ensures
        ({
            let after = m.write(key, copy, value);
            &&& after.current.contains_key(key)
            &&& after.current[key] == value
            &&& other != key ==> {
                &&& after.current.contains_key(other) == m.current.contains_key(other)
                &&& m.current.contains_key(other) ==> after.current[other] == m.current[other]
            }
            &&& after.session is Some <==> m.session is Some
            &&& m.session matches Some(s) ==> {
                let kept = s.stash.contains_key(key) || s.added.contains(key);
                &&& after.session->0.added == s.added
                &&& kept ==> after.session->0.stash == s.stash
                &&& !kept ==> after.session->0.stash == s.stash.insert(key, copy)
            }
        }),
{
}

/// What was taken out is held no more, and nothing else changes. A snapshot that is active sets the
/// value that was there aside, once, unless the key is new to it; the key is then new no more.
pub proof fn law_remove_changes_one_key<K, V>(m: SnapshotModel<K, V>, key: K, copy: V, other: K)
    ensures
        ({
            let after = m.remove(key, copy);
            &&& !after.current.contains_key(key)
            &&& other != key ==> {
                &&& after.current.contains_key(other) == m.current.contains_key(other)
                &&& m.current.contains_key(other) ==> after.current[other] == m.current[other]
            }
            &&& after.session is Some <==> m.session is Some
            &&& m.session matches Some(s) ==> {
                let kept = s.stash.contains_key(key) || s.added.contains(key)
                    || !m.current.contains_key(key);
                &&& after.session->0.added.contains(other) <==> other != key && s.added.contains(
                    other,
                )
                &&& kept ==> after.session->0.stash == s.stash
                &&& !kept ==> after.session->0.stash == s.stash.insert(key, copy)
            }
        }),
{
}

/// Taking out many keys takes out those, and nothing else; each of their values is set aside just
/// as if it were taken out alone.
pub proof fn law_remove_all_changes_those_keys<K, V>(m: SnapshotModel<K, V>, gone: Set<K>, key: K)
    ensures
        ({
            let after = m.remove_all(gone);
            &&& after.current.contains_key(key) <==> m.current.contains_key(key) && !gone.contains(
                key,
            )
            &&& after.current.contains_key(key) ==> after.current[key] == m.current[key]
            &&& after.session is Some <==> m.session is Some
            &&& m.session matches Some(s) ==> {
                let alone = m.remove(key, m.current[key]).session->0;
                let all = after.session->0;
                &&& gone.contains(key) ==> {
                    &&& all.stash.contains_key(key) == alone.stash.contains_key(key)
                    &&& alone.stash.contains_key(key) ==> all.stash[key] == alone.stash[key]
                    &&& !all.added.contains(key)
                }
                &&& !gone.contains(key) ==> {
                    &&& all.stash.contains_key(key) == s.stash.contains_key(key)
                    &&& s.stash.contains_key(key) ==> all.stash[key] == s.stash[key]
                    &&& all.added.contains(key) == s.added.contains(key)
                }
            }
        }),
{
}

/// A reader of a snapshot sees what has been set aside and, of all else, what the container holds.
pub proof fn law_readers_see_what_was_set_aside<K, V>(m: SnapshotModel<K, V>, key: K)
    ensures
        m.session is None ==> m.visible() == m.current,
        m.session matches Some(s) ==> {
            &&& s.stash.contains_key(key) ==> m.visible().contains_key(key) && m.visible()[key]
                == s.stash[key]
            &&& !s.stash.contains_key(key) ==> {
                &&& m.visible().contains_key(key) == m.current.contains_key(key)
                &&& m.current.contains_key(key) ==> m.visible()[key] == m.current[key]
            }
        },
{
}

/// A snapshot shows every entry as it was when it began, whatever was written and taken out since.
pub proof fn law_snapshots_show_the_beginning<K, V>(
    m: SnapshotModel<K, V>,
    base: Map<K, V>,
    key: K,
    value: V,
)
    requires
        m.isolates(base),
        base.contains_key(key),
    ensures
        m.visible().contains_key(key),
        m.visible()[key] == base[key],
        m.remove(key, m.current[key]).visible().contains_key(key),
        m.remove(key, m.current[key]).visible()[key] == base[key],
        m.current.contains_key(key) ==> {
            &&& m.write(key, m.current[key], value).visible().contains_key(key)
            &&& m.write(key, m.current[key], value).visible()[key] == base[key]
        },
{
}

} // verus!
