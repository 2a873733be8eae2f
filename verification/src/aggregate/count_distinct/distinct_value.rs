//! Values that can be told apart and hashed.

use crate::collections::bytes_equal;
use ahash::RandomState;
use arrow::datatypes::i256;
use datafusion_common::hash_utils::HashValue;
use vstd::layout::size_of;
use vstd::prelude::*;

verus! {

/// The seeds of a hash function.
#[derive(Debug, Clone, Copy, PartialEq, Eq, Structural)]
pub struct HashSeeds {
    pub k0: u64,
    pub k1: u64,
    pub k2: u64,
    pub k3: u64,
}

impl HashSeeds {
    /// Seeds drawn at random.
    pub fn random() -> HashSeeds {
        HashSeeds { k0: random_seed(), k1: random_seed(), k2: random_seed(), k3: random_seed() }
    }
}

/// The hash of a 256 bit integer, given by its halves, under the given seeds.
pub uninterp spec fn hash_of_int(
    k0: u64,
    k1: u64,
    k2: u64,
    k3: u64,
    low: u128,
    high: i128,
) -> u64;

/// The hash of a byte string under the given seeds.
pub uninterp spec fn hash_of_bytes(k0: u64, k1: u64, k2: u64, k3: u64, value: Seq<u8>) -> u64;

/// A random number: what a fresh `ahash::RandomState`, seeded at random, makes of a constant.
#[verifier::external_body]
fn random_seed() -> u64 {
    RandomState::new().hash_one(0u64)
}

/// datafusion-common's `HashValue::hash_one` on an integer of 256 bits, Arrow's `i256`, with the
/// `ahash::RandomState` of the given seeds. All of them with the same seeds produce identical
/// hashers, so the hash depends on the seeds and the halves of the integer alone.
#[verifier::external_body]
fn hash_int(k0: u64, k1: u64, k2: u64, k3: u64, low: u128, high: i128) -> (hash: u64)
    ensures
        hash == hash_of_int(k0, k1, k2, k3, low, high),
{
    HashValue::hash_one(&i256::from_parts(low, high), &RandomState::with_seeds(k0, k1, k2, k3))
}

/// datafusion-common's `HashValue::hash_one` on a byte string, with the `ahash::RandomState` of
/// the given seeds. All of them with the same seeds produce identical hashers, so the hash depends
/// on the seeds and the bytes alone.
#[verifier::external_body]
fn hash_bytes(k0: u64, k1: u64, k2: u64, k3: u64, value: &[u8]) -> (hash: u64)
    ensures
        hash == hash_of_bytes(k0, k1, k2, k3, value@),
{
    HashValue::hash_one(value, &RandomState::with_seeds(k0, k1, k2, k3))
}

/// A value that is stored once for all groups, and what it is looked up by.
pub trait DistinctValue: Sized {
    /// What two values are compared by.
    type Model;

    /// What a value is looked up by.
    type Probe: ?Sized;

    spec fn model(&self) -> Self::Model;

    spec fn probe_model(probe: &Self::Probe) -> Self::Model;

    /// The hash under the given seeds.
    spec fn hash_of(seeds: HashSeeds, model: Self::Model) -> u64;

    fn hash(probe: &Self::Probe, seeds: &HashSeeds) -> (hash: u64)
        ensures
            hash == Self::hash_of(*seeds, Self::probe_model(probe)),
    ;

    /// Whether this is the value that is looked for.
    fn is_same(&self, probe: &Self::Probe) -> (same: bool)
        ensures
            same == (self.model() == Self::probe_model(probe)),
    ;

    /// The value to store.
    fn from_probe(probe: &Self::Probe) -> (value: Self)
        ensures
            value.model() == Self::probe_model(probe),
    ;

    /// The bytes that a value takes in an output.
    spec fn output_bytes(model: Self::Model) -> nat;

    fn underlying_size(&self) -> (bytes: usize)
        ensures
            bytes == Self::output_bytes(self.model()),
    ;
}

impl DistinctValue for Vec<u8> {
    type Model = Seq<u8>;

    type Probe = [u8];

    open spec fn model(&self) -> Seq<u8> {
        self@
    }

    open spec fn probe_model(probe: &[u8]) -> Seq<u8> {
        probe@
    }

    open spec fn hash_of(seeds: HashSeeds, model: Seq<u8>) -> u64 {
        hash_of_bytes(seeds.k0, seeds.k1, seeds.k2, seeds.k3, model)
    }

    open spec fn output_bytes(model: Seq<u8>) -> nat {
        model.len()
    }

    fn hash(probe: &[u8], seeds: &HashSeeds) -> (hash: u64) {
        hash_bytes(seeds.k0, seeds.k1, seeds.k2, seeds.k3, probe)
    }

    fn is_same(&self, probe: &[u8]) -> (same: bool) {
        bytes_equal(self.as_slice(), probe)
    }

    fn from_probe(probe: &[u8]) -> (value: Vec<u8>) {
        vstd::slice::slice_to_vec(probe)
    }

    fn underlying_size(&self) -> (bytes: usize) {
        self.len()
    }
}

/// An integer of 256 bits, given by its halves.
#[derive(Debug, Clone, Copy, PartialEq, Eq, Structural)]
pub struct Int256 {
    pub low: u128,
    pub high: i128,
}

/// A value that is told apart from others of its type by an integer of 256 bits.
pub trait PrimitiveKey: Copy {
    spec fn spec_key(self) -> Int256;

    proof fn lemma_key(self, other: Self)
        ensures
            self.spec_key() == other.spec_key() ==> self == other,
    ;

    fn key(self) -> (key: Int256)
        ensures
            key == self.spec_key(),
    ;
}

impl<N: PrimitiveKey> DistinctValue for N {
    type Model = N;

    type Probe = N;

    open spec fn model(&self) -> N {
        *self
    }

    open spec fn probe_model(probe: &N) -> N {
        *probe
    }

    open spec fn hash_of(seeds: HashSeeds, model: N) -> u64 {
        hash_of_int(
            seeds.k0,
            seeds.k1,
            seeds.k2,
            seeds.k3,
            model.spec_key().low,
            model.spec_key().high,
        )
    }

    open spec fn output_bytes(model: N) -> nat {
        size_of::<N>()
    }

    fn hash(probe: &N, seeds: &HashSeeds) -> (hash: u64) {
        let key = probe.key();
        hash_int(seeds.k0, seeds.k1, seeds.k2, seeds.k3, key.low, key.high)
    }

    fn is_same(&self, probe: &N) -> (same: bool) {
        proof {
            self.lemma_key(*probe);
        }
        self.key() == probe.key()
    }

    fn from_probe(probe: &N) -> (value: N) {
        *probe
    }

    fn underlying_size(&self) -> (bytes: usize) {
        core::mem::size_of::<N>()
    }
}

impl PrimitiveKey for Int256 {
    open spec fn spec_key(self) -> Int256 {
        self
    }

    proof fn lemma_key(self, other: Self) {
    }

    fn key(self) -> (key: Int256) {
        self
    }
}

impl PrimitiveKey for i8 {
    open spec fn spec_key(self) -> Int256 {
        Int256 { low: 0, high: self as i128 }
    }

    proof fn lemma_key(self, other: Self) {
    }

    fn key(self) -> (key: Int256) {
        Int256 { low: 0, high: self as i128 }
    }
}

impl PrimitiveKey for i16 {
    open spec fn spec_key(self) -> Int256 {
        Int256 { low: 0, high: self as i128 }
    }

    proof fn lemma_key(self, other: Self) {
    }

    fn key(self) -> (key: Int256) {
        Int256 { low: 0, high: self as i128 }
    }
}

impl PrimitiveKey for i32 {
    open spec fn spec_key(self) -> Int256 {
        Int256 { low: 0, high: self as i128 }
    }

    proof fn lemma_key(self, other: Self) {
    }

    fn key(self) -> (key: Int256) {
        Int256 { low: 0, high: self as i128 }
    }
}

impl PrimitiveKey for i64 {
    open spec fn spec_key(self) -> Int256 {
        Int256 { low: 0, high: self as i128 }
    }

    proof fn lemma_key(self, other: Self) {
    }

    fn key(self) -> (key: Int256) {
        Int256 { low: 0, high: self as i128 }
    }
}

impl PrimitiveKey for i128 {
    open spec fn spec_key(self) -> Int256 {
        Int256 { low: 0, high: self }
    }

    proof fn lemma_key(self, other: Self) {
    }

    fn key(self) -> (key: Int256) {
        Int256 { low: 0, high: self }
    }
}

impl PrimitiveKey for u8 {
    open spec fn spec_key(self) -> Int256 {
        Int256 { low: self as u128, high: 0 }
    }

    proof fn lemma_key(self, other: Self) {
    }

    fn key(self) -> (key: Int256) {
        Int256 { low: self as u128, high: 0 }
    }
}

impl PrimitiveKey for u16 {
    open spec fn spec_key(self) -> Int256 {
        Int256 { low: self as u128, high: 0 }
    }

    proof fn lemma_key(self, other: Self) {
    }

    fn key(self) -> (key: Int256) {
        Int256 { low: self as u128, high: 0 }
    }
}

impl PrimitiveKey for u32 {
    open spec fn spec_key(self) -> Int256 {
        Int256 { low: self as u128, high: 0 }
    }

    proof fn lemma_key(self, other: Self) {
    }

    fn key(self) -> (key: Int256) {
        Int256 { low: self as u128, high: 0 }
    }
}

impl PrimitiveKey for u64 {
    open spec fn spec_key(self) -> Int256 {
        Int256 { low: self as u128, high: 0 }
    }

    proof fn lemma_key(self, other: Self) {
    }

    fn key(self) -> (key: Int256) {
        Int256 { low: self as u128, high: 0 }
    }
}

impl PrimitiveKey for u128 {
    open spec fn spec_key(self) -> Int256 {
        Int256 { low: self, high: 0 }
    }

    proof fn lemma_key(self, other: Self) {
    }

    fn key(self) -> (key: Int256) {
        Int256 { low: self, high: 0 }
    }
}

} // verus!
