//! Keys of the durable map: what a key must offer, and the key types that
//! the library provides.
//!
//! A table never stores a hash. It recomputes the hash on every access, so
//! the hash of a key has to be a function of the key alone, and has to stay
//! the same for as long as the table lives.

use vstd::prelude::*;
use std::collections::hash_map::DefaultHasher;
use std::hash::{Hash, Hasher};
use vstd::std_specs::hash::DefaultHasherAdditionalSpecFns;

verus! {

/// A key of the durable map: it can be hashed, compared and copied into the
/// table.
pub trait Key: Sized {
    /// The hash of the key. It depends on the key alone.
    spec fn hash_spec(&self) -> u64;

    /// Computes the hash of the key.
    fn hash_code(&self) -> (hash: u64)
        ensures
            hash == self.hash_spec(),
    ;

    /// Whether two keys are the same key.
    fn same(&self, other: &Self) -> (equal: bool)
        ensures
            equal == (*self == *other),
    ;

    /// A copy of the key, for the table to keep.
    fn duplicate(&self) -> (copy: Self)
        ensures
            copy == *self,
    ;
}

/// The writes that hashing a 64-bit integer makes on a hasher.
pub uninterp spec fn u64_hash_writes(key: u64) -> Seq<Seq<u8>>;

/// The writes that hashing a 16-byte identity makes on a hasher.
pub uninterp spec fn id_hash_writes(key: Seq<u8>) -> Seq<Seq<u8>>;

/// `<u64 as Hash>::hash` on std's default hasher. The writes that it makes
/// are determined by the key, and follow those that the hasher has already
/// taken.
#[verifier::external_body]
fn feed_u64(key: &u64, state: &mut DefaultHasher)
    ensures
        final(state)@ == old(state)@ + u64_hash_writes(*key),
{
    key.hash(state)
}

/// `<[u8; 16] as Hash>::hash` on std's default hasher. The writes that it
/// makes are determined by the sixteen bytes, and follow those that the
/// hasher has already taken.
#[verifier::external_body]
fn feed_id(key: &[u8; 16], state: &mut DefaultHasher)
    ensures
        final(state)@ == old(state)@ + id_hash_writes(key@),
{
    key.hash(state)
}

impl Key for u64 {
    open spec fn hash_spec(&self) -> u64 {
        DefaultHasher::spec_finish(u64_hash_writes(*self))
    }

    fn hash_code(&self) -> (hash: u64) {
        let mut state = DefaultHasher::new();
        feed_u64(self, &mut state);
        assert(state@ =~= u64_hash_writes(*self));
        state.finish()
    }

    fn same(&self, other: &Self) -> (equal: bool) {
        *self == *other
    }

    fn duplicate(&self) -> (copy: Self) {
        *self
    }
}

impl Key for [u8; 16] {
    open spec fn hash_spec(&self) -> u64 {
        DefaultHasher::spec_finish(id_hash_writes(self@))
    }

    fn hash_code(&self) -> (hash: u64) {
        let mut state = DefaultHasher::new();
        feed_id(self, &mut state);
        assert(state@ =~= id_hash_writes(self@));
        state.finish()
    }

    fn same(&self, other: &Self) -> (equal: bool) {
        let mut i: usize = 0;
        while i < 16
            invariant
                i <= 16,
                forall|j: int| 0 <= j < i ==> self@[j] == other@[j],
            decreases 16 - i,
        {
            if self[i] != other[i] {
                return false;
            }
            i += 1;
        }
        assert(*self =~= *other);
        true
    }

    fn duplicate(&self) -> (copy: Self) {
        *self
    }
}

} // verus!
