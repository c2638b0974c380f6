use vstd::prelude::*;

use rand::rngs::ThreadRng;
use rand::seq::{IndexedRandom, SliceRandom};

verus! {

/// The generator behind `rand::rng()`; opaque here.
#[verifier::external_type_specification]
#[verifier::external_body]
pub struct ExThreadRng(rand::rngs::ThreadRng);

/// Calls `rand::rng()`, which hands out the thread-local random generator.
/// Nothing is claimed of the generator. (rand panics here if the operating
/// system cannot seed the generator, which no argument can rule out.)
#[verifier::external_body]
pub(crate) fn thread_rng() -> ThreadRng {
    rand::rng()
}

/// Calls `SliceRandom::shuffle` on the vector's elements. Claimed: the
/// elements after the call are the elements before it, in some order (the
/// shuffle only swaps elements). Which order comes out is left open: it is
/// drawn at random.
#[verifier::external_body]
pub(crate) fn shuffle<T>(items: &mut Vec<T>, rng: &mut ThreadRng)
    ensures
        final(items)@.to_multiset() == old(items)@.to_multiset(),
{
    items.as_mut_slice().shuffle(rng);
}

/// Calls `IndexedRandom::choose` on the vector's elements. Claimed: nothing
/// comes back from an empty vector, and otherwise one of its elements (rand
/// takes the element at a random index below the length). Which one is left
/// open: it is drawn at random.
#[verifier::external_body]
pub(crate) fn pick_one<T: Copy>(items: &Vec<T>, rng: &mut ThreadRng) -> (r: Option<T>)
    ensures
        r is None <==> items@.len() == 0,
        r matches Some(x) ==> items@.contains(x),
{
    items.as_slice().choose(rng).copied()
}

/// The positions `0..n`, in order.
pub open spec fn all_positions(n: nat) -> Seq<usize> {
    Seq::new(n, |k: int| k as usize)
}

/// The positions `0..n` in a random order: each position exactly once.
pub(crate) fn shuffled_positions(n: usize, rng: &mut ThreadRng) -> (r: Vec<usize>)
    ensures
        r@.len() == n,
        r@.to_multiset() == all_positions(n as nat).to_multiset(),
        r@.no_duplicates(),
        forall|x: usize| r@.contains(x) <==> x < n,
        forall|k: int| 0 <= k < n ==> #[trigger] r@[k] < n,
{
    broadcast use vstd::seq_lib::group_to_multiset_ensures;

    let mut positions: Vec<usize> = Vec::new();
    let mut i: usize = 0;
    while i < n
        invariant
            i <= n,
            positions@ =~= Seq::new(i as nat, |k: int| k as usize),
        decreases n - i,
    {
        positions.push(i);
        i = i + 1;
    }
    let ghost ordered = positions@;
    assert(ordered =~= all_positions(n as nat));
    shuffle(&mut positions, rng);
    proof {
        assert(ordered.no_duplicates());
        assert(positions@.len() == positions@.to_multiset().len());
        assert(ordered.len() == ordered.to_multiset().len());
        ordered.lemma_multiset_has_no_duplicates();
        assert forall|x: usize| positions@.to_multiset().contains(x) implies positions@.to_multiset().count(x) == 1 by {
            assert(ordered.to_multiset().contains(x));
        }
        positions@.lemma_multiset_has_no_duplicates_conv();
        assert forall|x: usize| positions@.contains(x) <==> x < n by {
            assert(positions@.contains(x) <==> positions@.to_multiset().count(x) > 0);
            assert(ordered.contains(x) <==> ordered.to_multiset().count(x) > 0);
            if x < n {
                assert(ordered[x as int] == x);
            }
        }
        assert forall|k: int| 0 <= k < n implies #[trigger] positions@[k] < n by {
            assert(positions@.contains(positions@[k]));
        }
    }
    positions
}

} // verus!
