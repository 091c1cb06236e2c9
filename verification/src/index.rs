//! The index function: the counter positions of an item.
//!
//! Slot `i` feeds the standard library's default hasher its own number, as
//! eight little-endian bytes, then the item's bytes, then the byte `0xff`
//! that closes the item, and reduces the digest modulo the number of
//! counters. On a 64-bit little-endian machine this is the digest that the
//! standard library gives to the pair of `i` and the item as a string.

use crate::model::in_range;
use std::collections::hash_map::DefaultHasher;
use std::hash::Hasher;
use vstd::bytes::{spec_u64_to_le_bytes, u64_to_le_bytes};
use vstd::prelude::*;
use vstd::std_specs::hash::DefaultHasherAdditionalSpecFns;

verus! {

/// The byte that closes an item in the hasher's input.
pub const ITEM_END: u8 = 0xff;

/// The digest that slot `ordinal` gives to `item`.
pub open spec fn slot_hash(ordinal: usize, item: Seq<u8>) -> u64 {
    DefaultHasher::spec_finish(seq![spec_u64_to_le_bytes(ordinal as u64), item, seq![ITEM_END]])
}

/// The counter that a digest selects among `size` counters.
pub open spec fn reduced(digest: u64, size: usize) -> usize {
    (digest as int % size as int) as usize
}

/// The positions of `item` in a filter of `size` counters with `num_hashes`
/// slots, in slot order.
pub open spec fn slot_indices(item: Seq<u8>, num_hashes: usize, size: usize) -> Seq<usize> {
    Seq::new(num_hashes as nat, |i: int| reduced(slot_hash(i as usize, item), size))
}

/// Hashes the slot number and then the item.
pub fn hash_slot(ordinal: usize, item: &[u8]) -> (digest: u64)
    ensures
        digest == slot_hash(ordinal, item@),
{
    let mut hasher = DefaultHasher::new();
    let salt: Vec<u8> = u64_to_le_bytes(ordinal as u64);
    let end: [u8; 1] = [ITEM_END];
    hasher.write(salt.as_slice());
    hasher.write(item);
    hasher.write(end.as_slice());
    assert(end@ =~= seq![ITEM_END]);
    assert(hasher@ =~= seq![spec_u64_to_le_bytes(ordinal as u64), item@, seq![ITEM_END]]);
    hasher.finish()
}

/// Reduces a digest to a position below `size`.
pub fn reduce(digest: u64, size: usize) -> (index: usize)
    requires
        size > 0,
    ensures
        index == reduced(digest, size),
        index < size,
{
    (digest % (size as u64)) as usize
}

/// Every position of an item lies below the number of counters.
pub proof fn lemma_slot_indices_in_range(item: Seq<u8>, num_hashes: usize, size: usize)
    requires
        size > 0,
    ensures
        slot_indices(item, num_hashes, size).len() == num_hashes,
        in_range(slot_indices(item, num_hashes, size), size as nat),
{
}

} // verus!
