use vstd::prelude::*;

verus! {

#[verifier::external_type_specification]
#[verifier::external_body]
#[verifier::reject_recursive_types(T)]
pub struct ExBloom<T: ?Sized>(bloomfilter::Bloom<T>);

/// The set of keys a Bloom filter value reports as present.
///
/// It is determined by the filter value alone (its bits and its two hash
/// keys): checking the same filter for the same key always answers the same.
/// The set can hold keys that were never recorded — false positives — but
/// recording a key always puts it in, so a key outside the set was never
/// recorded.
pub uninterp spec fn filter_keys(filter: bloomfilter::Bloom<Option<Vec<u8>>>) -> Set<
    Option<Seq<u8>>,
>;

/// Relies on `bloomfilter::Bloom::new`: a filter of `bitmap_size` bytes for
/// about `items_count` items, with freshly drawn hash keys and every bit
/// clear, so that it reports no key as present. `new` demands positive sizes
/// and a bit count that fits in sixty-four bits.
#[verifier::external_body]
pub fn bloom_new(bitmap_size: usize, items_count: usize) -> (r: bloomfilter::Bloom<
    Option<Vec<u8>>,
>)
    requires
        0 < bitmap_size <= 0x1fff_ffff_ffff_ffff,
        0 < items_count,
    ensures
        filter_keys(r) == Set::<Option<Seq<u8>>>::empty(),
{
    bloomfilter::Bloom::new(bitmap_size, items_count)
}

/// Relies on `bloomfilter::Bloom::check`: whether the filter reports `key` as
/// present; a pure function of the filter value and the key's bytes.
#[verifier::external_body]
pub fn bloom_check(filter: &bloomfilter::Bloom<Option<Vec<u8>>>, key: &Option<Vec<u8>>) -> (r:
    bool)
    ensures
        r == filter_keys(*filter).contains(key.deep_view()),
{
    filter.check(key)
}

/// Relies on `bloomfilter::Bloom::set`: records `key`, only ever setting
/// bits, so the filter afterwards reports `key`, still reports everything it
/// reported before, and may report more.
#[verifier::external_body]
pub fn bloom_set(filter: &mut bloomfilter::Bloom<Option<Vec<u8>>>, key: &Option<Vec<u8>>)
    ensures
        filter_keys(*final(filter)).contains(key.deep_view()),
        filter_keys(*old(filter)).subset_of(filter_keys(*final(filter))),
{
    filter.set(key)
}

} // verus!
