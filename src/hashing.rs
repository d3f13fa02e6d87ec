use vstd::prelude::*;
use std::collections::hash_map::DefaultHasher;
use std::hash::Hasher;
use std::hash::RandomState;
use std::hash::BuildHasher;
use vstd::std_specs::hash::DefaultHasherAdditionalSpecFns;

verus! {

/// The eight little-endian bytes of `v`.
pub open spec fn le_bytes(v: u64) -> Seq<u8> {
    seq![
        (v & 0xff) as u8,
        ((v >> 8u64) & 0xff) as u8,
        ((v >> 16u64) & 0xff) as u8,
        ((v >> 24u64) & 0xff) as u8,
        ((v >> 32u64) & 0xff) as u8,
        ((v >> 40u64) & 0xff) as u8,
        ((v >> 48u64) & 0xff) as u8,
        ((v >> 56u64) & 0xff) as u8,
    ]
}

/// The raw hash of `x` under `seed`: SipHash (std's `DefaultHasher`) over
/// the seed's bytes followed by the element's bytes.
pub open spec fn seeded_hash(seed: u64, x: i64) -> u64 {
    DefaultHasher::spec_finish(seq![le_bytes(seed), le_bytes(x as u64)])
}

/// The slot that `x` maps to in a group of `capacity` slots.
pub open spec fn slot_of(seed: u64, x: i64, capacity: nat) -> int {
    (seeded_hash(seed, x) as nat % capacity) as int
}

fn le_bytes_vec(v: u64) -> (r: Vec<u8>)
    ensures
        r@ == le_bytes(v),
{
    let r = vec![
        (v & 0xff) as u8,
        ((v >> 8u64) & 0xff) as u8,
        ((v >> 16u64) & 0xff) as u8,
        ((v >> 24u64) & 0xff) as u8,
        ((v >> 32u64) & 0xff) as u8,
        ((v >> 40u64) & 0xff) as u8,
        ((v >> 48u64) & 0xff) as u8,
        ((v >> 56u64) & 0xff) as u8,
    ];
    assert(r@ =~= le_bytes(v));
    r
}

/// Computes `seeded_hash(seed, x)`.
pub fn hash_with_seed(seed: u64, x: i64) -> (r: u64)
    ensures
        r == seeded_hash(seed, x),
{
    let mut hasher = DefaultHasher::new();
    let sb = le_bytes_vec(seed);
    let xb = le_bytes_vec(x as u64);
    hasher.write(sb.as_slice());
    hasher.write(xb.as_slice());
    let r = hasher.finish();
    assert(hasher@ =~= seq![le_bytes(seed), le_bytes(x as u64)]);
    r
}

/// Computes `slot_of(seed, x, capacity)`.
pub fn slot_with_seed(seed: u64, x: i64, capacity: usize) -> (r: usize)
    requires
        capacity > 0,
    ensures
        r as int == slot_of(seed, x, capacity as nat),
        r < capacity,
{
    let h = hash_with_seed(seed, x);
    (h % (capacity as u64)) as usize
}

/// Relies on `std::hash::RandomState::new`: it returns a state with fresh
/// random keys. Nothing is promised of them.
pub assume_specification[ RandomState::new ]() -> RandomState;

/// Relies on `BuildHasher::hash_one` for `RandomState`: hashing a fixed
/// value under a freshly keyed state gives a random seed. Nothing is
/// promised of its value.
#[verifier::external_body]
fn seed_from(state: &RandomState) -> (r: u64) {
    state.hash_one(0u64)
}

/// A fresh random seed for one of the table's hash functions.
pub fn fresh_seed() -> (r: u64) {
    let state = RandomState::new();
    seed_from(&state)
}

} // verus!
