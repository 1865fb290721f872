//! The probabilistic membership filter kept beside each sorted string
//! table. Everything the filter promises is one-sided: a key that was
//! inserted always tests positive; a key that was not may still do so.
//! Every filter value in the library is built by its own constructor —
//! a filter read back from disk is not taken in, it is rebuilt from the
//! table's keys.

use vstd::prelude::*;
use probabilistic_collections::bloom::BloomFilter;

verus! {

#[verifier::external_type_specification]
#[verifier::external_body]
#[verifier::reject_recursive_types(T)]
#[verifier::reject_recursive_types(B)]
pub struct ExBloomFilter<T, B>(BloomFilter<T, B>);

#[verifier::external_type_specification]
#[verifier::external_body]
pub struct ExSipHasherBuilder(probabilistic_collections::SipHasherBuilder);

/// The set of keys that were inserted into the filter.
pub uninterp spec fn bloom_contents(f: BloomFilter<Vec<u8>>) -> Set<Seq<u8>>;

/// What a membership query on the filter answers for a key: a fixed
/// function of the filter's bits and seeds, so the same filter value gives
/// the same answer everywhere.
pub uninterp spec fn bloom_test(f: BloomFilter<Vec<u8>>, k: Seq<u8>) -> bool;

/// A filter shape this library's constructor produces: its hasher count
/// and bit vector agree, so insertion and membership queries return
/// normally. An arbitrary filter value — one deserialized from bytes, say
/// — need not have this shape.
pub uninterp spec fn bloom_wf(f: BloomFilter<Vec<u8>>) -> bool;

/// Relies on BloomFilter::from_item_count: a fresh, empty, sound filter
/// over the given number of bits. A filter with bits but no expected items
/// would loop on use, so that shape is left out.
#[verifier::external_body]
fn bloom_make(bit_count: usize, item_count: usize) -> (r: BloomFilter<Vec<u8>>)
    requires
        bit_count > 0 ==> item_count > 0,
    ensures
        bloom_wf(r),
        bloom_contents(r) == Set::<Seq<u8>>::empty(),
{
    BloomFilter::from_item_count(bit_count, item_count)
}

/// Relies on BloomFilter::insert: sets the key's bits; the key counts as
/// inserted from now on. On a sound filter the call returns normally and
/// leaves the filter sound.
#[verifier::external_body]
fn bloom_add(f: &mut BloomFilter<Vec<u8>>, key: &[u8])
    requires
        bloom_wf(*old(f)),
    ensures
        bloom_wf(*final(f)),
        bloom_contents(*final(f)) == bloom_contents(*old(f)).insert(key@),
{
    f.insert(key);
}

/// Relies on BloomFilter::contains: never answers `false` for an inserted
/// key; for any other key the answer is whatever the shared bits make it.
/// On a sound filter the call returns normally.
#[verifier::external_body]
fn bloom_query(f: &BloomFilter<Vec<u8>>, key: &[u8]) -> (r: bool)
    requires
        bloom_wf(*f),
    ensures
        r == bloom_test(*f, key@),
        bloom_contents(*f).contains(key@) ==> r,
{
    f.contains(key)
}

pub struct SstableBloomFilter {
    bloom_filter: BloomFilter<Vec<u8>>,
}

impl SstableBloomFilter {
    /// The keys inserted so far.
    pub closed spec fn contents(&self) -> Set<Seq<u8>> {
        bloom_contents(self.bloom_filter)
    }

    /// What a membership query answers for `k`.
    pub closed spec fn test(&self, k: Seq<u8>) -> bool {
        bloom_test(self.bloom_filter, k)
    }

    /// The held filter is one this library built.
    pub closed spec fn inv(&self) -> bool {
        bloom_wf(self.bloom_filter)
    }

    /// A fresh, empty filter sized for the expected item count: ten bits
    /// per item, roughly the one-percent false-positive target of the
    /// classical sizing rule.
    pub fn new(size: usize) -> (r: SstableBloomFilter)
        ensures
            r.inv(),
            r.contents() == Set::<Seq<u8>>::empty(),
    {
        let bits: usize = if size > usize::MAX / 10 {
            usize::MAX
        } else {
            10 * size
        };
        SstableBloomFilter { bloom_filter: bloom_make(bits, size) }
    }

    /// Inserts a key: it counts as a member from now on.
    pub fn insert(&mut self, key: &[u8])
        requires
            old(self).inv(),
        ensures
            final(self).inv(),
            final(self).contents() == old(self).contents().insert(key@),
    {
        bloom_add(&mut self.bloom_filter, key);
    }

    /// Whether the key may be a member; never `false` for an inserted key.
    pub fn contains(&self, key: &[u8]) -> (r: bool)
        requires
            self.inv(),
        ensures
            r == self.test(key@),
            self.contents().contains(key@) ==> r,
    {
        bloom_query(&self.bloom_filter, key)
    }

    /// The underlying filter, for persisting.
    pub fn inner(&self) -> (r: &BloomFilter<Vec<u8>>)
        ensures
            bloom_contents(*r) == self.contents(),
            forall|k: Seq<u8>| #[trigger] bloom_test(*r, k) == self.test(k),
    {
        &self.bloom_filter
    }
}

} // verus!
