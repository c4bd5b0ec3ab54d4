//! The ends of an ordered map.

use std::collections::BTreeMap;
use vstd::prelude::*;

verus! {

/// Calls `BTreeMap::first_key_value`: the smallest key of the map, or `None` if it is empty.
#[verifier::external_body]
pub(crate) fn first_key<V>(map: &BTreeMap<u64, V>) -> (res: Option<u64>)
    ensures
        match res {
            Some(key) => {
                &&& map@.contains_key(key)
                &&& forall|other: u64| #[trigger] map@.contains_key(other) ==> key <= other
            },
            None => forall|other: u64| !#[trigger] map@.contains_key(other),
        },
{
    match map.first_key_value() {
        Some((key, _)) => Some(*key),
        None => None,
    }
}

/// Calls `BTreeMap::last_key_value`: the greatest key of the map, or `None` if it is empty.
#[verifier::external_body]
pub(crate) fn last_key<V>(map: &BTreeMap<u64, V>) -> (res: Option<u64>)
    ensures
        match res {
            Some(key) => {
                &&& map@.contains_key(key)
                &&& forall|other: u64| #[trigger] map@.contains_key(other) ==> other <= key
            },
            None => forall|other: u64| !#[trigger] map@.contains_key(other),
        },
{
    match map.last_key_value() {
        Some((key, _)) => Some(*key),
        None => None,
    }
}

} // verus!
