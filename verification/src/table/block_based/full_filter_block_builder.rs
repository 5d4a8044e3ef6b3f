//! Building the whole-table filter: one Bloom filter over the user keys of
//! all entries of a table.

use vstd::prelude::*;
use crate::util::bloom::{
    bloom_hash, create_filter, spec_bloom_filter, spec_bloom_hash, spec_key_may_match,
};

verus! {

/// Name of the filter policy, which the name of the filter block ends with.
pub const BLOOM_FILTER_POLICY_NAME: &'static str = "bloom.fnv1a";

/// Number of bits that a filter has for each key unless told otherwise.
pub const DEFAULT_BITS_PER_KEY: usize = 10;

/// The hashes of keys.
pub open spec fn spec_hashes_of(keys: Seq<Seq<u8>>) -> Seq<u32> {
    keys.map_values(|key: Seq<u8>| spec_bloom_hash(key))
}

/// The whole-table filter of these keys.
pub open spec fn spec_full_filter(keys: Seq<Seq<u8>>, bits_per_key: nat) -> Seq<u8> {
    spec_bloom_filter(spec_hashes_of(keys), bits_per_key)
}

/// A whole-table filter excludes none of the keys that it was made for.
pub proof fn lemma_full_filter_is_sound(keys: Seq<Seq<u8>>, bits_per_key: nat, i: int)
    requires
        0 <= i < keys.len(),
    ensures
        spec_key_may_match(spec_full_filter(keys, bits_per_key), keys[i]),
{
    crate::util::bloom::lemma_bloom_filter_is_sound(spec_hashes_of(keys), bits_per_key, i);
}

/// What a `FullFilterBlockBuilder` holds.
pub struct FullFilterBlockBuilderView {
    /// The keys added.
    pub keys: Seq<Seq<u8>>,
    /// The number of bits of the filter for each key.
    pub bits_per_key: nat,
}

/// Collects the keys of a table for its filter.
pub struct FullFilterBlockBuilder {
    bits_per_key: usize,
    hashes: Vec<u32>,
    keys: Ghost<Seq<Seq<u8>>>,
}

impl View for FullFilterBlockBuilder {
    type V = FullFilterBlockBuilderView;

    closed spec fn view(&self) -> FullFilterBlockBuilderView {
        FullFilterBlockBuilderView { keys: self.keys@, bits_per_key: self.bits_per_key as nat }
    }
}

impl FullFilterBlockBuilder {
    /// The builder holds the hash of each key added.
    pub closed spec fn wf(&self) -> bool {
        self.hashes@ == spec_hashes_of(self.keys@)
    }

    /// Makes a builder without keys.
    pub fn new(bits_per_key: usize) -> (builder: Self)
        ensures
            builder.wf(),
            builder@.keys == Seq::<Seq<u8>>::empty(),
            builder@.bits_per_key == bits_per_key,
    {
        let builder = FullFilterBlockBuilder {
            bits_per_key,
            hashes: Vec::new(),
            keys: Ghost(Seq::empty()),
        };
        assert(builder.hashes@ =~= spec_hashes_of(builder.keys@));
        builder
    }

    /// Adds a key.
    pub fn add_key(&mut self, key: &[u8])
        requires
            old(self).wf(),
        ensures
            final(self).wf(),
            final(self)@.keys == old(self)@.keys.push(key@),
            final(self)@.bits_per_key == old(self)@.bits_per_key,
    {
        self.hashes.push(bloom_hash(key));
        self.keys = Ghost(self.keys@.push(key@));
        assert(self.hashes@ =~= spec_hashes_of(self.keys@));
    }

    /// Makes the filter of the keys added. It excludes none of them.
    pub fn finish(&self) -> (filter: Vec<u8>)
        requires
            self.wf(),
        ensures
            filter@ == spec_full_filter(self@.keys, self@.bits_per_key),
            forall|i: int|
                0 <= i < self@.keys.len() ==> spec_key_may_match(filter@, #[trigger] self@.keys[i]),
    {
        let filter = create_filter(self.hashes.as_slice(), self.bits_per_key);
        proof {
            assert forall|i: int| 0 <= i < self@.keys.len() implies spec_key_may_match(
                filter@,
                #[trigger] self@.keys[i],
            ) by {
                lemma_full_filter_is_sound(self@.keys, self@.bits_per_key, i);
            }
        }
        filter
    }
}

/// Makes the builders of whole-table filters with a number of bits for each
/// key.
#[derive(Clone, Copy, Debug)]
pub struct FullFilterBlockFactory {
    pub bits_per_key: usize,
}

impl FullFilterBlockFactory {
    /// Makes a factory of filters with `bits_per_key` bits for each key.
    pub fn new(bits_per_key: usize) -> (factory: Self)
        ensures
            factory.bits_per_key == bits_per_key,
    {
        FullFilterBlockFactory { bits_per_key }
    }

    /// The name of the filter policy.
    pub fn name(&self) -> (name: &'static str)
        ensures
            name == BLOOM_FILTER_POLICY_NAME,
    {
        BLOOM_FILTER_POLICY_NAME
    }

    /// Makes a builder without keys.
    pub fn create_builder(&self) -> (builder: FullFilterBlockBuilder)
        ensures
            builder.wf(),
            builder@.keys == Seq::<Seq<u8>>::empty(),
            builder@.bits_per_key == self.bits_per_key,
    {
        FullFilterBlockBuilder::new(self.bits_per_key)
    }
}

impl Default for FullFilterBlockFactory {
    /// A factory of filters with ten bits for each key.
    fn default() -> (factory: Self)
        ensures
            factory.bits_per_key == DEFAULT_BITS_PER_KEY,
    {
        FullFilterBlockFactory { bits_per_key: DEFAULT_BITS_PER_KEY }
    }
}

} // verus!
