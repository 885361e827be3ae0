//! What holds of a table whatever was put into it.

use vstd::prelude::*;
use crate::hashmap::{lookup, offered, stored};

verus! {

/// The table after each pair of `puts` was put, in turn.
pub open spec fn put_all<K, V>(table: Map<K, V>, puts: Seq<(K, V)>) -> Map<K, V>
    decreases puts.len(),
{
    if puts.len() == 0 {
        table
    } else {
        stored(put_all(table, puts.drop_last()), puts.last().0, puts.last().1)
    }
}

/// The value of the last pair of `puts` that has `key`, if any has.
pub open spec fn last_put<K, V>(puts: Seq<(K, V)>, key: K) -> Option<V>
    decreases puts.len(),
{
    if puts.len() == 0 {
        None
    } else if puts.last().0 == key {
        Some(puts.last().1)
    } else {
        last_put(puts.drop_last(), key)
    }
}

/// A key that was put is found, with the value that was put for it.
pub proof fn law_put_then_get<K, V>(table: Map<K, V>, key: K, val: V)
    ensures
        lookup(stored(table, key, val), key) == Some(val),
{
}

/// A put leaves every other key as it was.
pub proof fn law_put_keeps_others<K, V>(table: Map<K, V>, key: K, val: V, other: K)
    requires
        other != key,
    ensures
        lookup(stored(table, key, val), other) == lookup(table, other),
{
}

/// A second put for a key replaces the key's value, and the table has as
/// many values as after the first.
pub proof fn law_second_put_replaces<K, V>(table: Map<K, V>, key: K, first: V, second: V)
    requires
        table.dom().finite(),
    ensures
        lookup(stored(stored(table, key, first), key, second), key) == Some(second),
        stored(stored(table, key, first), key, second).dom().len() == stored(
            table,
            key,
            first,
        ).dom().len(),
        stored(stored(table, key, first), key, second) == stored(table, key, second),
{
    assert(stored(stored(table, key, first), key, second) =~= stored(table, key, second));
    assert(stored(table, key, second).dom() =~= stored(table, key, first).dom());
}

/// After any puts, a key has the value of the last put for it, or what it
/// had before where none of the puts was for it.
pub proof fn law_last_put_wins<K, V>(table: Map<K, V>, puts: Seq<(K, V)>, key: K)
    ensures
        lookup(put_all(table, puts), key) == match last_put(puts, key) {
            Some(val) => Some(val),
            None => lookup(table, key),
        },
    decreases puts.len(),
{
    if puts.len() > 0 {
        law_last_put_wins(table, puts.drop_last(), key);
    }
}

/// An offer for a key is taken once: the first is taken where the table
/// lacked the key, no later one is, and the key keeps the value that it has
/// after the first.
pub proof fn law_offer_taken_once<K, V>(table: Map<K, V>, key: K, first: V, second: V)
    ensures
        offered(table, key, first).1 == !table.contains_key(key),
        offered(offered(table, key, first).0, key, second) == (
            offered(table, key, first).0,
            false,
        ),
        lookup(offered(table, key, first).0, key) == (if table.contains_key(key) {
            lookup(table, key)
        } else {
            Some(first)
        }),
{
}

} // verus!
