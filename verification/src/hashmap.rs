//! A table with a fixed number of buckets and separate chaining.
//!
//! A bucket holds pairs of a key and the index of the key's value in the
//! value store. The store only grows: a key keeps its index for as long as
//! it is in the table, and a key leaves the table only when the whole table
//! is cleared.

use vstd::prelude::*;
use crate::key::Key;

verus! {

/// Number of buckets in a table; fixed for the table's lifetime.
pub const BUCKETS_MAX: usize = 16;

/// The bucket that a key belongs to.
pub open spec fn bucket_of<K: Key>(key: K) -> int {
    (key.hash_spec() as int) % (BUCKETS_MAX as int)
}

/// Whether position `i` of a bucket holds `key`.
spec fn holds<K>(bucket: Seq<(K, usize)>, key: K, i: int) -> bool {
    0 <= i < bucket.len() && bucket[i].0 == key
}

/// Whether a bucket holds `key` at some position.
spec fn has_key<K>(bucket: Seq<(K, usize)>, key: K) -> bool {
    exists|i: int| holds(bucket, key, i)
}

/// The index in the value store that a bucket gives for `key`.
spec fn slot_of<K>(bucket: Seq<(K, usize)>, key: K) -> int {
    bucket[choose|i: int| holds(bucket, key, i)].1 as int
}

/// Whether the pair at position `p` of bucket `b` is the `i`-th that a
/// traversal meets.
spec fn sits<K, V>(
    chains: Seq<Seq<(K, usize)>>,
    store: Seq<V>,
    b: int,
    p: int,
    i: int,
) -> bool {
    &&& 0 <= b < chains.len()
    &&& 0 <= p < chains[b].len()
    &&& i == pairs_upto(chains, store, b).len() + p
}

/// Whether the `i`-th pair that a traversal meets is in one of the first
/// `n` buckets.
spec fn sits_before<K, V>(
    chains: Seq<Seq<(K, usize)>>,
    store: Seq<V>,
    n: int,
    i: int,
) -> bool {
    exists|b: int, p: int| b < n && #[trigger] sits(chains, store, b, p, i)
}

/// A traversal of the first `n` buckets meets the pairs of those buckets,
/// each at its place, and nothing else.
proof fn lemma_pairs_upto<K, V>(chains: Seq<Seq<(K, usize)>>, store: Seq<V>, n: int)
    requires
        0 <= n <= chains.len(),
    ensures
        forall|b: int, p: int, i: int|
            #![trigger sits(chains, store, b, p, i)]
            sits(chains, store, b, p, i) && b < n ==> i < pairs_upto(chains, store, n).len()
                && pairs_upto(chains, store, n)[i] == pairs_of(chains[b], store)[p],
        forall|i: int|
            0 <= i < pairs_upto(chains, store, n).len() ==> #[trigger] sits_before(
                chains,
                store,
                n,
                i,
            ),
    decreases n,
{
    if n > 0 {
        lemma_pairs_upto(chains, store, n - 1);
        let before = pairs_upto(chains, store, n - 1);
        let here = pairs_of(chains[n - 1], store);
        assert(pairs_upto(chains, store, n) == before + here);
        assert forall|b: int, p: int, i: int|
            #![trigger sits(chains, store, b, p, i)]
            sits(chains, store, b, p, i) && b < n implies i < pairs_upto(chains, store, n).len()
            && pairs_upto(chains, store, n)[i] == pairs_of(chains[b], store)[p] by {
            if b < n - 1 {
                assert(i < before.len());
            }
        }
        assert forall|i: int|
            0 <= i < pairs_upto(chains, store, n).len() implies #[trigger] sits_before(
            chains,
            store,
            n,
            i,
        ) by {
            if i < before.len() {
                assert(sits_before(chains, store, n - 1, i));
                let (b, p) = choose|b: int, p: int|
                    b < n - 1 && #[trigger] sits(chains, store, b, p, i);
                assert(b < n && sits(chains, store, b, p, i));
            } else {
                assert(sits(chains, store, n - 1, i - before.len(), i));
            }
        }
    }
}

/// What a table gives for `key`: the key's value, or nothing where the table
/// lacks the key.
pub open spec fn lookup<K, V>(table: Map<K, V>, key: K) -> Option<V> {
    if table.contains_key(key) {
        Some(table[key])
    } else {
        None
    }
}

/// The table after `val` was put for `key`.
pub open spec fn stored<K, V>(table: Map<K, V>, key: K, val: V) -> Map<K, V> {
    table.insert(key, val)
}

/// The table after `val` was offered for `key`, and whether the offer was
/// taken: it is taken only where the table lacks the key.
pub open spec fn offered<K, V>(table: Map<K, V>, key: K, val: V) -> (Map<K, V>, bool) {
    if table.contains_key(key) {
        (table, false)
    } else {
        (table.insert(key, val), true)
    }
}

/// Whether `f` may be called on an exclusive reference to `before`.
pub open spec fn accepts_mut<V, F: FnOnce(&mut V)>(f: F, before: V) -> bool {
    forall|r: &mut V| *r == before ==> call_requires(f, (r,))
}

/// The keys of a bucket with their values, in the bucket's order.
pub open spec fn pairs_of<K, V>(bucket: Seq<(K, usize)>, store: Seq<V>) -> Seq<(K, V)> {
    Seq::new(bucket.len(), |i: int| (bucket[i].0, store[bucket[i].1 as int]))
}

/// The keys of the first `n` buckets with their values: bucket after bucket,
/// and within a bucket in the order in which the keys came into the table.
pub open spec fn pairs_upto<K, V>(chains: Seq<Seq<(K, usize)>>, store: Seq<V>, n: int) -> Seq<
    (K, V),
>
    decreases n,
{
    if n <= 0 {
        Seq::empty()
    } else {
        pairs_upto(chains, store, n - 1) + pairs_of(chains[n - 1], store)
    }
}

/// A table from keys to values with sixteen buckets.
pub struct HashMap<K: Key, V> {
    buckets: Vec<Vec<(K, usize)>>,
    values: Vec<V>,
}

impl<K: Key, V> HashMap<K, V> {
    /// The buckets, as sequences of pairs.
    pub closed spec fn chains(&self) -> Seq<Seq<(K, usize)>> {
        Seq::new(self.buckets@.len(), |b: int| self.buckets@[b]@)
    }

    /// The value store.
    pub closed spec fn store(&self) -> Seq<V> {
        self.values@
    }

    /// The table's invariant: sixteen buckets; every key in the bucket that
    /// its hash selects, and once only; every pair with a slot of its own in
    /// the value store; as many values as keys.
    pub closed spec fn wf(&self) -> bool {
        let chains = self.chains();
        let store = self.store();
        &&& chains.len() == BUCKETS_MAX
        &&& forall|b: int, i: int|
            0 <= b < chains.len() && 0 <= i < chains[b].len() ==> {
                &&& bucket_of((#[trigger] chains[b][i]).0) == b
                &&& chains[b][i].1 < store.len()
            }
        &&& forall|b: int, i: int, j: int|
            0 <= b < chains.len() && 0 <= i < j < chains[b].len() ==> (#[trigger] chains[b][i]).0
                != (#[trigger] chains[b][j]).0
        &&& forall|b: int, i: int, c: int, j: int|
            0 <= b < chains.len() && 0 <= i < chains[b].len() && 0 <= c < chains.len() && 0 <= j
                < chains[c].len() && (b != c || i != j) ==> (#[trigger] chains[b][i]).1
                != (#[trigger] chains[c][j]).1
        &&& self@.dom().finite()
        &&& self@.dom().len() == store.len()
    }

    /// The table as a map from keys to values.
    pub closed spec fn view(&self) -> Map<K, V> {
        let chains = self.chains();
        let store = self.store();
        Map::new(
            |key: K| has_key(chains[bucket_of(key)], key),
            |key: K| store[slot_of(chains[bucket_of(key)], key)],
        )
    }

    /// The place of the value of `key` in the value store.
    pub closed spec fn slot(&self, key: K) -> int {
        slot_of(self.chains()[bucket_of(key)], key)
    }

    /// Whether every key of `self` has in `after` the place in the value
    /// store that it has in `self`.
    pub open spec fn keeps_slots(&self, after: Self) -> bool {
        forall|key: K| self@.contains_key(key) ==> #[trigger] after.slot(key) == self.slot(key)
    }

    /// An empty table.
    pub fn new() -> (table: Self)
        ensures
            table.wf(),
            table@ == Map::<K, V>::empty(),
    {
        let mut buckets: Vec<Vec<(K, usize)>> = Vec::with_capacity(BUCKETS_MAX);
        let mut i: usize = 0;
        while i < BUCKETS_MAX
            invariant
                i <= BUCKETS_MAX,
                buckets@.len() == i,
                forall|b: int| 0 <= b < i ==> (#[trigger] buckets@[b])@.len() == 0,
            decreases BUCKETS_MAX - i,
        {
            buckets.push(Vec::new());
            i += 1;
        }
        let table = HashMap { buckets, values: Vec::new() };
        assert(table@ =~= Map::<K, V>::empty());
        table
    }

    /// Position of `key` in bucket `b`, if the bucket holds it.
    fn find(&self, b: usize, key: &K) -> (found: Option<usize>)
        requires
            b < self.chains().len(),
        ensures
            match found {
                Some(i) => holds(self.chains()[b as int], *key, i as int),
                None => !has_key(self.chains()[b as int], *key),
            },
    {
        let bucket = &self.buckets[b];
        let mut i: usize = 0;
        while i < bucket.len()
            invariant
                i <= bucket@.len(),
                bucket@ == self.chains()[b as int],
                forall|j: int| 0 <= j < i ==> !holds(bucket@, *key, j),
            decreases bucket@.len() - i,
        {
            if bucket[i].0.same(key) {
                return Some(i);
            }
            i += 1;
        }
        None
    }

    /// The bucket index of `key`.
    fn index_of(key: &K) -> (b: usize)
        ensures
            b as int == bucket_of(*key),
            b < BUCKETS_MAX,
    {
        (key.hash_code() % (BUCKETS_MAX as u64)) as usize
    }

    /// A copy of the value stored for `key`, if there is one.
    pub fn get(&self, key: K) -> (value: Option<V>) where V: Copy
        requires
            self.wf(),
        ensures
            value == lookup(self@, key),
    {
        let b = Self::index_of(&key);
        match self.find(b, &key) {
            Some(i) => {
                Some(self.values[self.buckets[b][i].1])
            },
            None => None,
        }
    }

    /// A table whose value store has `val` in the place of the value of
    /// `key`, and which is otherwise `before`, maps `key` to `val` and every
    /// other key as `before` did.
    proof fn lemma_replaced(before: Self, after: Self, key: K, val: V, i: int)
        requires
            before.wf(),
            holds(before.chains()[bucket_of(key)], key, i),
            after.chains() == before.chains(),
            after.store() == before.store().update(
                before.chains()[bucket_of(key)][i].1 as int,
                val,
            ),
        ensures
            after.wf(),
            after@ == before@.insert(key, val),
            before@.contains_key(key),
            before.keeps_slots(after),
    {
        let chains = before.chains();
        let b = bucket_of(key);
        let slot = chains[b][i].1 as int;
        assert(has_key(chains[b], key));
        assert forall|k: K| #[trigger] has_key(chains[bucket_of(k)], k) implies after.store()[slot_of(
            chains[bucket_of(k)],
            k,
        )] == (if k == key {
            val
        } else {
            before.store()[slot_of(chains[bucket_of(k)], k)]
        }) by {
            let c = bucket_of(k);
            let j = choose|j: int| holds(chains[c], k, j);
            assert(holds(chains[c], k, j));
            if k == key {
                assert(chains[c][j].0 == chains[b][i].0);
                assert(j == i);
            } else {
                assert(chains[c][j].0 != chains[b][i].0);
                assert(c != b || j != i);
                assert(chains[c][j].1 != chains[b][i].1);
            }
        }
        assert(after@ =~= before@.insert(key, val));
        assert(after@.dom() =~= before@.dom());
    }

    /// A table that has one more pair than `before`, for a key that
    /// `before` lacks, with the value at the end of the value store, maps
    /// `key` to `val` and every other key as `before` did.
    proof fn lemma_appended(before: Self, after: Self, key: K, val: V)
        requires
            before.wf(),
            !has_key(before.chains()[bucket_of(key)], key),
            before.store().len() <= usize::MAX,
            after.chains() == before.chains().update(
                bucket_of(key),
                before.chains()[bucket_of(key)].push((key, before.store().len() as usize)),
            ),
            after.store() == before.store().push(val),
        ensures
            after.wf(),
            after@ == before@.insert(key, val),
            !before@.contains_key(key),
            before.keeps_slots(after),
            after.slot(key) == before@.dom().len(),
    {
        let chains = before.chains();
        let grown = after.chains();
        let b = bucket_of(key);
        let last = chains[b].len() as int;
        let slot = before.store().len() as int;
        assert(0 <= b < BUCKETS_MAX);
        assert(grown[b] == chains[b].push((key, slot as usize)));
        assert(holds(grown[b], key, last));
        assert forall|c: int, j: int| 0 <= c < grown.len() && 0 <= j < grown[c].len() implies {
            &&& bucket_of((#[trigger] grown[c][j]).0) == c
            &&& grown[c][j].1 < after.store().len()
        } by {
            if c == b && j == last {
            } else {
                assert(grown[c][j] == chains[c][j]);
            }
        }
        assert forall|c: int, i: int, j: int|
            0 <= c < grown.len() && 0 <= i < j < grown[c].len() implies (#[trigger] grown[c][i]).0
            != (#[trigger] grown[c][j]).0 by {
            assert(grown[c][i] == chains[c][i]);
            if c == b && j == last {
                assert(!holds(chains[b], key, i));
            } else {
                assert(grown[c][j] == chains[c][j]);
            }
        }
        assert forall|c: int, i: int, d: int, j: int|
            0 <= c < grown.len() && 0 <= i < grown[c].len() && 0 <= d < grown.len() && 0 <= j
                < grown[d].len() && (c != d || i != j) implies (#[trigger] grown[c][i]).1
            != (#[trigger] grown[d][j]).1 by {
            if !(c == b && i == last) {
                assert(grown[c][i] == chains[c][i]);
            }
            if !(d == b && j == last) {
                assert(grown[d][j] == chains[d][j]);
            }
        }
        assert forall|k: K| k != key implies has_key(grown[bucket_of(k)], k) == has_key(
            chains[bucket_of(k)],
            k,
        ) by {
            let c = bucket_of(k);
            if has_key(chains[c], k) {
                let j = choose|j: int| holds(chains[c], k, j);
                assert(grown[c][j] == chains[c][j]);
                assert(holds(grown[c], k, j));
            }
            if has_key(grown[c], k) {
                let j = choose|j: int| holds(grown[c], k, j);
                assert(!(c == b && j == last));
                assert(grown[c][j] == chains[c][j]);
                assert(holds(chains[c], k, j));
            }
        }
        assert forall|k: K| #[trigger] has_key(grown[bucket_of(k)], k) implies slot_of(
            grown[bucket_of(k)],
            k,
        ) == (if k == key {
            slot
        } else {
            slot_of(chains[bucket_of(k)], k)
        }) by {
            let c = bucket_of(k);
            let j = choose|j: int| holds(grown[c], k, j);
            assert(holds(grown[c], k, j));
            if k == key {
                if j != last {
                    assert(grown[b][j] == chains[b][j]);
                    assert(holds(chains[b], key, j));
                }
            } else {
                assert(grown[c][j] == chains[c][j]);
                let i = choose|i: int| holds(chains[c], k, i);
                assert(holds(chains[c], k, j));
                assert(holds(chains[c], k, i));
                if i != j {
                    if i < j {
                        assert(chains[c][i].0 != chains[c][j].0);
                    } else {
                        assert(chains[c][j].0 != chains[c][i].0);
                    }
                }
            }
        }
        assert(after@ =~= before@.insert(key, val));
        assert(after@.dom() =~= before@.dom().insert(key));
    }

    /// Stores `val` for `key`: in the key's slot where the table has the
    /// key, in a new slot at the end of the value store where it has not.
    pub fn put(&mut self, key: K, val: V)
        requires
            old(self).wf(),
            old(self)@.dom().len() < usize::MAX,
        ensures
            final(self).wf(),
            final(self)@ == stored(old(self)@, key, val),
            final(self)@.dom().len() == old(self)@.dom().len() + (if old(self)@.contains_key(key) {
                0nat
            } else {
                1nat
            }),
            old(self).keeps_slots(*final(self)),
            !old(self)@.contains_key(key) ==> final(self).slot(key) == old(self)@.dom().len(),
    {
        let b = Self::index_of(&key);
        match self.find(b, &key) {
            Some(i) => {
                let slot = self.buckets[b][i].1;
                self.values[slot] = val;
                proof {
                    assert(self.chains() =~= old(self).chains());
                    Self::lemma_replaced(*old(self), *self, key, val, i as int);
                }
            },
            None => {
                let slot = self.values.len();
                self.values.push(val);
                self.buckets[b].push((key, slot));
                proof {
                    assert(self.chains() =~= old(self).chains().update(
                        b as int,
                        old(self).chains()[b as int].push((key, slot)),
                    ));
                    Self::lemma_appended(*old(self), *self, key, val);
                }
            },
        }
    }

    /// A reference to the value stored for `key`, if there is one.
    pub fn get_ref(&self, key: K) -> (value: Option<&V>)
        requires
            self.wf(),
        ensures
            value == (if self@.contains_key(key) {
                Some(&self@[key])
            } else {
                None
            }),
    {
        let b = Self::index_of(&key);
        match self.find(b, &key) {
            Some(i) => Some(&self.values[self.buckets[b][i].1]),
            None => None,
        }
    }

    /// Stores `val` for `key` only where the table has no value for it, and
    /// says whether it did.
    pub fn or_insert(&mut self, key: &K, val: V) -> (inserted: bool)
        requires
            old(self).wf(),
            old(self)@.dom().len() < usize::MAX,
        ensures
            final(self).wf(),
            (final(self)@, inserted) == offered(old(self)@, *key, val),
            old(self).keeps_slots(*final(self)),
            inserted ==> final(self).slot(*key) == old(self)@.dom().len(),
    {
        let b = Self::index_of(key);
        match self.find(b, key) {
            Some(_) => false,
            None => {
                let slot = self.values.len();
                self.values.push(val);
                self.buckets[b].push((key.duplicate(), slot));
                proof {
                    assert(self.chains() =~= old(self).chains().update(
                        b as int,
                        old(self).chains()[b as int].push((*key, slot)),
                    ));
                    Self::lemma_appended(*old(self), *self, *key, val);
                }
                true
            },
        }
    }

    /// Replaces the value of `key` by what `f` makes of it, where the table
    /// has the key, and says whether it has.
    pub fn update_with<F: FnOnce(&V) -> V>(&mut self, key: &K, f: F) -> (found: bool)
        requires
            old(self).wf(),
            old(self)@.contains_key(*key) ==> call_requires(f, (&old(self)@[*key],)),
        ensures
            final(self).wf(),
            found == old(self)@.contains_key(*key),
            found ==> call_ensures(f, (&old(self)@[*key],), final(self)@[*key]),
            found ==> final(self)@ == old(self)@.insert(*key, final(self)@[*key]),
            !found ==> final(self)@ == old(self)@,
            old(self).keeps_slots(*final(self)),
    {
        let b = Self::index_of(key);
        match self.find(b, key) {
            Some(i) => {
                let slot = self.buckets[b][i].1;
                let val = f(&self.values[slot]);
                let ghost made = val;
                self.values[slot] = val;
                proof {
                    assert(self.chains() =~= old(self).chains());
                    Self::lemma_replaced(*old(self), *self, *key, made, i as int);
                }
                true
            },
            None => false,
        }
    }

    /// Hands `f` a reference to the value of `key`, where the table has the
    /// key, and says whether it has. The table stays as it is.
    pub fn update_inplace<F: FnOnce(&V)>(&self, key: &K, f: F) -> (found: bool)
        requires
            self.wf(),
            self@.contains_key(*key) ==> call_requires(f, (&self@[*key],)),
        ensures
            found == self@.contains_key(*key),
            found ==> call_ensures(f, (&self@[*key],), ()),
    {
        let b = Self::index_of(key);
        match self.find(b, key) {
            Some(i) => {
                f(&self.values[self.buckets[b][i].1]);
                true
            },
            None => false,
        }
    }

    /// Hands `f` an exclusive reference to the value of `key`, where the
    /// table has the key, and says whether it has. What `f` leaves behind
    /// the reference is the key's new value.
    pub fn update_inplace_mut<F: FnOnce(&mut V)>(&mut self, key: &K, f: F) -> (found: bool)
        requires
            old(self).wf(),
            old(self)@.contains_key(*key) ==> accepts_mut(f, old(self)@[*key]),
        ensures
            final(self).wf(),
            found == old(self)@.contains_key(*key),
            found ==> exists|r: &mut V|
                *r == old(self)@[*key] && *final(r) == final(self)@[*key] && call_ensures(
                    f,
                    (r,),
                    (),
                ),
            found ==> final(self)@ == old(self)@.insert(*key, final(self)@[*key]),
            !found ==> final(self)@ == old(self)@,
            old(self).keeps_slots(*final(self)),
    {
        let b = Self::index_of(key);
        match self.find(b, key) {
            Some(i) => {
                let slot = self.buckets[b][i].1;
                f(&mut self.values[slot]);
                proof {
                    assert(self.chains() =~= old(self).chains());
                    Self::lemma_replaced(
                        *old(self),
                        *self,
                        *key,
                        self.store()[slot as int],
                        i as int,
                    );
                }
                true
            },
            None => false,
        }
    }

    /// Replaces the value of `key` by what `f` makes of it. Where the table
    /// lacks the key, `f` is applied to the default value and the result is
    /// stored for the key.
    pub fn update_with_or_insert<F: FnOnce(&V) -> V>(&mut self, key: &K, f: F) where V: Default
        requires
            old(self).wf(),
            old(self)@.dom().len() < usize::MAX,
            old(self)@.contains_key(*key) ==> call_requires(f, (&old(self)@[*key],)),
            !old(self)@.contains_key(*key) ==> forall|seed: V|
                call_ensures(V::default, (), seed) ==> call_requires(f, (&seed,)),
        ensures
            final(self).wf(),
            final(self)@ == old(self)@.insert(*key, final(self)@[*key]),
            old(self).keeps_slots(*final(self)),
            !old(self)@.contains_key(*key) ==> final(self).slot(*key) == old(self)@.dom().len(),
            old(self)@.contains_key(*key) ==> call_ensures(
                f,
                (&old(self)@[*key],),
                final(self)@[*key],
            ),
            !old(self)@.contains_key(*key) ==> exists|seed: V|
                call_ensures(V::default, (), seed) && call_ensures(
                    f,
                    (&seed,),
                    final(self)@[*key],
                ),
    {
        let b = Self::index_of(key);
        match self.find(b, key) {
            Some(i) => {
                let slot = self.buckets[b][i].1;
                let val = f(&self.values[slot]);
                let ghost made = val;
                self.values[slot] = val;
                proof {
                    assert(self.chains() =~= old(self).chains());
                    Self::lemma_replaced(*old(self), *self, *key, made, i as int);
                }
            },
            None => {
                let seed = V::default();
                let val = f(&seed);
                let ghost made = val;
                let slot = self.values.len();
                self.values.push(val);
                self.buckets[b].push((key.duplicate(), slot));
                proof {
                    assert(self.chains() =~= old(self).chains().update(
                        b as int,
                        old(self).chains()[b as int].push((*key, slot)),
                    ));
                    Self::lemma_appended(*old(self), *self, *key, made);
                    assert(call_ensures(V::default, (), seed) && call_ensures(
                        f,
                        (&seed,),
                        self@[*key],
                    ));
                }
            },
        }
    }

    /// Empties every bucket and the value store.
    pub fn clear(&mut self)
        requires
            old(self).wf(),
        ensures
            final(self).wf(),
            final(self)@ == Map::<K, V>::empty(),
    {
        let mut i: usize = 0;
        while i < BUCKETS_MAX
            invariant
                i <= BUCKETS_MAX,
                self.buckets@.len() == BUCKETS_MAX,
                forall|b: int| 0 <= b < i ==> (#[trigger] self.buckets@[b])@.len() == 0,
            decreases BUCKETS_MAX - i,
        {
            self.buckets[i] = Vec::new();
            i += 1;
        }
        self.values.clear();
        assert(self@ =~= Map::<K, V>::empty());
    }

    /// Whether the table holds no key.
    pub fn is_empty(&self) -> (empty: bool)
        requires
            self.wf(),
        ensures
            empty == (self@ == Map::<K, V>::empty()),
    {
        let mut i: usize = 0;
        while i < BUCKETS_MAX
            invariant
                i <= BUCKETS_MAX,
                self.wf(),
                forall|b: int| 0 <= b < i ==> (#[trigger] self.chains()[b]).len() == 0,
            decreases BUCKETS_MAX - i,
        {
            if !self.buckets[i].is_empty() {
                proof {
                    let first = self.chains()[i as int][0];
                    assert(holds(self.chains()[bucket_of(first.0)], first.0, 0));
                    assert(self@.contains_key(first.0));
                }
                return false;
            }
            i += 1;
        }
        assert(self@ =~= Map::<K, V>::empty());
        true
    }

    /// Length of the value store. It holds one value for each key of the
    /// table.
    pub fn value_count(&self) -> (count: usize)
        requires
            self.wf(),
        ensures
            count == self@.dom().len(),
    {
        self.values.len()
    }

    /// The keys with their values in the order in which a traversal meets
    /// them.
    pub open spec fn traversal(&self) -> Seq<(K, V)> {
        pairs_upto(self.chains(), self.store(), self.chains().len() as int)
    }

    /// The keys with their values, in traversal order.
    pub fn entries(&self) -> (pairs: Vec<(&K, &V)>)
        requires
            self.wf(),
        ensures
            pairs@.len() == self.traversal().len(),
            forall|i: int|
                0 <= i < pairs@.len() ==> *(#[trigger] pairs@[i]).0 == self.traversal()[i].0
                    && *pairs@[i].1 == self.traversal()[i].1,
    {
        let mut pairs: Vec<(&K, &V)> = Vec::new();
        let mut b: usize = 0;
        while b < BUCKETS_MAX
            invariant
                b <= BUCKETS_MAX,
                self.wf(),
                pairs@.len() == pairs_upto(self.chains(), self.store(), b as int).len(),
                forall|i: int|
                    0 <= i < pairs@.len() ==> *(#[trigger] pairs@[i]).0 == pairs_upto(
                        self.chains(),
                        self.store(),
                        b as int,
                    )[i].0 && *pairs@[i].1 == pairs_upto(self.chains(), self.store(), b as int)[i].1,
            decreases BUCKETS_MAX - b,
        {
            let bucket = &self.buckets[b];
            let ghost done = pairs_upto(self.chains(), self.store(), b as int);
            let ghost here = pairs_of(self.chains()[b as int], self.store());
            let mut i: usize = 0;
            while i < bucket.len()
                invariant
                    i <= bucket@.len(),
                    b < BUCKETS_MAX,
                    self.wf(),
                    bucket@ == self.chains()[b as int],
                    done == pairs_upto(self.chains(), self.store(), b as int),
                    here == pairs_of(self.chains()[b as int], self.store()),
                    pairs@.len() == done.len() + i,
                    forall|j: int|
                        0 <= j < pairs@.len() ==> *(#[trigger] pairs@[j]).0 == (done + here)[j].0
                            && *pairs@[j].1 == (done + here)[j].1,
                decreases bucket@.len() - i,
            {
                let entry = &bucket[i];
                assert(self.chains()[b as int][i as int] == *entry);
                pairs.push((&entry.0, &self.values[entry.1]));
                i += 1;
            }
            assert(pairs_upto(self.chains(), self.store(), b + 1) == done + here);
            b += 1;
        }
        pairs
    }

    /// Calls `f` on every key and its value, in traversal order.
    pub fn foreach<F: FnMut(&K, &V) -> ()>(&self, mut f: F)
        requires
            self.wf(),
            forall|i: int|
                0 <= i < self.traversal().len() ==> call_requires(
                    f,
                    (&#[trigger] self.traversal()[i].0, &self.traversal()[i].1),
                ),
    {
        let pairs = self.entries();
        let mut i: usize = 0;
        while i < pairs.len()
            invariant
                i <= pairs@.len(),
                pairs@.len() == self.traversal().len(),
                forall|i: int|
                    0 <= i < pairs@.len() ==> *(#[trigger] pairs@[i]).0 == self.traversal()[i].0
                        && *pairs@[i].1 == self.traversal()[i].1,
                forall|i: int|
                    0 <= i < self.traversal().len() ==> call_requires(
                        f,
                        (&#[trigger] self.traversal()[i].0, &self.traversal()[i].1),
                    ),
            decreases pairs@.len() - i,
        {
            let (key, value) = pairs[i];
            f(key, value);
            i += 1;
        }
    }

    /// Every key has a place of its own in the value store, and its value
    /// stands there.
    pub proof fn law_slots(&self)
        requires
            self.wf(),
        ensures
            forall|key: K| #[trigger]
                self@.contains_key(key) ==> 0 <= self.slot(key) < self@.dom().len()
                    && self.store()[self.slot(key)] == self@[key],
            forall|key: K, other: K|
                self@.contains_key(key) && self@.contains_key(other) && key != other ==> (
                #[trigger] self.slot(key)) != (#[trigger] self.slot(other)),
            self.store().len() == self@.dom().len(),
    {
        let chains = self.chains();
        assert forall|key: K| #[trigger] self@.contains_key(key) implies 0 <= self.slot(key)
            < self@.dom().len() by {
            let i = choose|i: int| holds(chains[bucket_of(key)], key, i);
            assert(holds(chains[bucket_of(key)], key, i));
        }
        assert forall|key: K, other: K|
            self@.contains_key(key) && self@.contains_key(other) && key != other implies (
        #[trigger] self.slot(key)) != (#[trigger] self.slot(other)) by {
            let b = bucket_of(key);
            let c = bucket_of(other);
            let i = choose|i: int| holds(chains[b], key, i);
            let j = choose|j: int| holds(chains[c], other, j);
            assert(holds(chains[b], key, i));
            assert(holds(chains[c], other, j));
            assert(chains[b][i].0 != chains[c][j].0);
            assert(b != c || i != j);
        }
    }

    /// A traversal meets every key of the table once, with the key's value,
    /// and nothing else.
    pub proof fn law_traversal(&self)
        requires
            self.wf(),
        ensures
            self.traversal().len() == self@.dom().len(),
            forall|i: int|
                0 <= i < self.traversal().len() ==> lookup(self@, (#[trigger] self.traversal()[i]).0)
                    == Some(self.traversal()[i].1),
            forall|key: K| #[trigger]
                self@.contains_key(key) ==> exists|i: int|
                    0 <= i < self.traversal().len() && (#[trigger] self.traversal()[i]).0 == key,
            forall|i: int, j: int|
                0 <= i < j < self.traversal().len() ==> (#[trigger] self.traversal()[i]).0 != (
                #[trigger] self.traversal()[j]).0,
    {
        let chains = self.chains();
        let store = self.store();
        let met = self.traversal();
        lemma_pairs_upto(chains, store, chains.len() as int);
        assert forall|i: int| 0 <= i < met.len() implies lookup(self@, (#[trigger] met[i]).0)
            == Some(met[i].1) by {
            assert(sits_before(chains, store, chains.len() as int, i));
            let (b, p) = choose|b: int, p: int|
                b < chains.len() && #[trigger] sits(chains, store, b, p, i);
            assert(sits(chains, store, b, p, i));
            let key = chains[b][p].0;
            assert(met[i] == pairs_of(chains[b], store)[p]);
            assert(holds(chains[bucket_of(key)], key, p));
            let q = choose|q: int| holds(chains[b], key, q);
            if q < p {
                assert(chains[b][q].0 != chains[b][p].0);
            } else if p < q {
                assert(chains[b][p].0 != chains[b][q].0);
            }
        }
        assert forall|key: K| #[trigger] self@.contains_key(key) implies exists|i: int|
            0 <= i < met.len() && (#[trigger] met[i]).0 == key by {
            let b = bucket_of(key);
            let p = choose|p: int| holds(chains[b], key, p);
            assert(holds(chains[b], key, p));
            let i = pairs_upto(chains, store, b).len() + p;
            assert(sits(chains, store, b, p, i));
            assert(met[i] == pairs_of(chains[b], store)[p]);
        }
        assert forall|i: int, j: int| 0 <= i < j < met.len() implies (#[trigger] met[i]).0 != (
        #[trigger] met[j]).0 by {
            assert(sits_before(chains, store, chains.len() as int, i));
            assert(sits_before(chains, store, chains.len() as int, j));
            let (b, p) = choose|b: int, p: int|
                b < chains.len() && #[trigger] sits(chains, store, b, p, i);
            let (c, q) = choose|c: int, q: int|
                c < chains.len() && #[trigger] sits(chains, store, c, q, j);
            assert(sits(chains, store, b, p, i));
            assert(sits(chains, store, c, q, j));
            assert(met[i] == pairs_of(chains[b], store)[p]);
            assert(met[j] == pairs_of(chains[c], store)[q]);
            if met[i].0 == met[j].0 {
                assert(bucket_of(chains[b][p].0) == b);
                assert(bucket_of(chains[c][q].0) == c);
                assert(b == c);
                if p < q {
                    assert(chains[b][p].0 != chains[b][q].0);
                } else if q < p {
                    assert(chains[b][q].0 != chains[b][p].0);
                }
                assert(false);
            }
        }
        let keys = met.map_values(|pair: (K, V)| pair.0);
        assert(keys.no_duplicates());
        assert(keys.to_set() =~= self@.dom()) by {
            assert forall|key: K| keys.to_set().contains(key) implies self@.dom().contains(key) by {
                let i = choose|i: int| 0 <= i < keys.len() && keys[i] == key;
                assert(met[i].0 == key);
            }
            assert forall|key: K| self@.dom().contains(key) implies keys.to_set().contains(key) by {
                let i = choose|i: int| 0 <= i < met.len() && (#[trigger] met[i]).0 == key;
                assert(keys[i] == key);
            }
        }
        keys.unique_seq_to_set();
    }
}

} // verus!
