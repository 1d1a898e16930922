//! The random source: a ChaCha generator, reached through three calls of `rand`.
//! Nothing is claimed of which value a draw gives, only of where it lies.

use rand::seq::SliceRandom;
use rand::Rng;
use rand_chacha::ChaCha8Rng;
use vstd::prelude::*;

verus! {

/// `rand_chacha::ChaCha8Rng`: the generator is carried through as it is;
/// nothing is known of its state.
#[verifier::external_type_specification]
#[verifier::external_body]
pub struct ExChaCha8Rng(ChaCha8Rng);

/// `Rng::gen_range` on `0..n`: some index below `n`. The range must not be empty.
#[verifier::external_body]
pub(crate) fn rand_below(rng: &mut ChaCha8Rng, n: usize) -> (r: usize)
    requires
        n > 0,
    ensures
        r < n,
{
    rng.gen_range(0..n)
}

/// `SliceRandom::shuffle`: the same items, in some order.
#[verifier::external_body]
pub(crate) fn permute(v: &mut Vec<usize>, rng: &mut ChaCha8Rng)
    ensures
        final(v)@.to_multiset() == old(v)@.to_multiset(),
{
    v.shuffle(rng);
}

/// `SliceRandom::choose`: one of the items, or nothing when there is none.
#[verifier::external_body]
pub(crate) fn pick(v: &Vec<usize>, rng: &mut ChaCha8Rng) -> (r: Option<usize>)
    ensures
        v@.len() == 0 ==> r is None,
        v@.len() > 0 ==> r is Some && v@.contains(r->0),
{
    v.choose(rng).copied()
}

/// What a reordering keeps: the length, which items occur, and that none
/// occurs twice.
pub proof fn lemma_permutation(a: Seq<usize>, b: Seq<usize>)
    requires
        a.to_multiset() == b.to_multiset(),
    ensures
        a.len() == b.len(),
        forall|x: usize| a.contains(x) <==> b.contains(x),
        a.no_duplicates() ==> b.no_duplicates(),
{
    a.to_multiset_ensures();
    b.to_multiset_ensures();
    assert forall|x: usize| a.contains(x) <==> b.contains(x) by {
        assert(a.contains(x) <==> a.to_multiset().count(x) > 0);
        assert(b.contains(x) <==> b.to_multiset().count(x) > 0);
    }
    if a.no_duplicates() {
        a.lemma_multiset_has_no_duplicates();
        b.lemma_multiset_has_no_duplicates_conv();
    }
}

/// The indices `0 .. n`, ascending.
pub fn index_range(n: usize) -> (r: Vec<usize>)
    ensures
        r@.len() == n,
        forall|i: int| 0 <= i < n ==> r@[i] == i,
        r@.no_duplicates(),
{
    let mut v: Vec<usize> = Vec::with_capacity(n);
    let mut i: usize = 0;
    while i < n
        invariant
            i <= n,
            v@.len() == i,
            forall|j: int| 0 <= j < i ==> v@[j] == j,
        decreases n - i,
    {
        v.push(i);
        i += 1;
    }
    v
}

} // verus!
