//! From a key to the slot at which its probe begins.

use std::collections::hash_map::DefaultHasher;
use std::hash::Hash;
use std::hash::Hasher;
use vstd::prelude::*;
use vstd::std_specs::hash::DefaultHasherAdditionalSpecFns;

verus! {

/// The writes that hashing the string `key` performs on a hasher, in order.
pub uninterp spec fn str_hash_writes(key: Seq<char>) -> Seq<Seq<u8>>;

/// The 64-bit hash of `key`: what a fresh `DefaultHasher` reports once `key`
/// has been hashed into it.
pub open spec fn key_hash(key: Seq<char>) -> u64 {
    DefaultHasher::spec_finish(str_hash_writes(key))
}

/// The slot at which the probe for `key` begins in a table of `len` slots.
pub open spec fn index_for(key: Seq<char>, len: usize) -> usize {
    ((key_hash(key) as usize) % len) as usize
}

/// Hashes `key` into `state` with `<str as Hash>::hash`.
///
/// Trusted: the writes this adds to the hasher depend on the characters of
/// `key` alone, and come after whatever the hasher was fed before.
#[verifier::external_body]
fn hash_str(key: &str, state: &mut DefaultHasher)
    ensures
        final(state)@ == old(state)@ + str_hash_writes(key@),
{
    key.hash(state);
}

/// Whether two strings hold the same characters, by `str`'s own `==`.
///
/// Trusted: `str` equality is equality of the character sequences.
#[verifier::external_body]
pub(crate) fn same_text(left: &str, right: &str) -> (same: bool)
    ensures
        same == (left@ == right@),
{
    left == right
}

/// The slot at which the probe for `key` begins in a table of `len` slots:
/// the key's hash, reduced modulo `len`.
pub fn key_to_index(key: &str, len: usize) -> (index: usize)
    requires
        len > 0,
    ensures
        index == index_for(key@, len),
        index < len,
{
    let mut hasher = DefaultHasher::new();
    hash_str(key, &mut hasher);
    assert(hasher@ =~= str_hash_writes(key@));
    (hasher.finish() as usize) % len
}

} // verus!
