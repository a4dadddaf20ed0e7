use vstd::prelude::*;

verus! {

#[verifier::external_type_specification]
#[verifier::external_body]
pub struct ExRng(fastrand::Rng);

/// Relies on fastrand::Rng::u8 over the full range: any byte may come back,
/// and nothing can be promised of a random draw.
#[verifier::external_body]
pub(crate) fn random_byte(rng: &mut fastrand::Rng) -> u8 {
    rng.u8(..)
}

/// Relies on fastrand::Rng::usize over `0..n`: the draw lies in that range,
/// and the call panics only when the range is empty, which `n > 0` rules out.
#[verifier::external_body]
pub(crate) fn random_index(rng: &mut fastrand::Rng, n: usize) -> (r: usize)
    requires
        n > 0,
    ensures
        r < n,
{
    rng.usize(..n)
}

/// Relies on fastrand::Rng::shuffle: it reorders the slice in place by
/// element swaps, so the new contents are a permutation of the old.
#[verifier::external_body]
pub(crate) fn shuffle_strings(rng: &mut fastrand::Rng, v: &mut Vec<String>)
    ensures
        final(v)@.len() == old(v)@.len(),
        final(v)@.to_multiset() == old(v)@.to_multiset(),
{
    rng.shuffle(v.as_mut_slice());
}

/// The characters that base32::encode produces from these bytes under the
/// Crockford alphabet; a function of the bytes alone.
pub uninterp spec fn crockford_of(bytes: Seq<u8>) -> Seq<char>;

/// Relies on base32::encode with the Crockford alphabet: the encoding is
/// deterministic in the input bytes and uses no padding.
#[verifier::external_body]
pub(crate) fn encode_crockford(bytes: &Vec<u8>) -> (r: String)
    ensures
        r@ == crockford_of(bytes@),
{
    base32::encode(base32::Alphabet::Crockford, bytes.as_slice())
}

} // verus!
