use rand::seq::SliceRandom;
use rand::Rng;
use vstd::prelude::*;

verus! {

/// rand's seedable generator, carried through the library as an opaque value.
#[verifier::external_type_specification]
#[verifier::external_body]
pub struct ExStdRng(rand::rngs::StdRng);

/// Relies on rand's `Rng::gen_range(low, high)`: a value in `[low, high)`; it panics unless
/// `low < high`.
#[verifier::external_body]
pub(crate) fn random_below(rng: &mut rand::rngs::StdRng, low: usize, high: usize) -> (r: usize)
    requires
        low < high,
    ensures
        low <= r < high,
{
    rng.gen_range(low, high)
}

/// Relies on rand's `SliceRandom::shuffle`: the elements are permuted in place.
#[verifier::external_body]
pub(crate) fn shuffle_in_place<T>(v: &mut Vec<T>, rng: &mut rand::rngs::StdRng)
    ensures
        final(v)@.to_multiset() == old(v)@.to_multiset(),
{
    v.shuffle(rng);
}

/// Two sequences with the same multiset of elements have the same length and the same elements.
pub proof fn lemma_permutation_elements<T>(a: Seq<T>, b: Seq<T>)
    requires
        a.to_multiset() == b.to_multiset(),
    ensures
        a.len() == b.len(),
        forall|x: T| a.contains(x) <==> b.contains(x),
{
    a.to_multiset_ensures();
    b.to_multiset_ensures();
    assert forall|x: T| a.contains(x) <==> b.contains(x) by {
        assert(a.to_multiset().count(x) == b.to_multiset().count(x));
        assert(a.contains(x) <==> a.to_multiset().count(x) > 0);
        assert(b.contains(x) <==> b.to_multiset().count(x) > 0);
    }
}

} // verus!
