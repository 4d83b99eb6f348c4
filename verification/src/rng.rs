use rand::Rng;
use rand::StdRng;
use vstd::prelude::*;

verus! {

/// The generator of the `rand` crate that every random choice is drawn from.
#[verifier::external_type_specification]
#[verifier::external_body]
pub struct ExStdRng(StdRng);

/// Picks one element with `Rng::choose`, which returns `None` for an empty
/// slice and otherwise a reference to the element at an index it draws below
/// the slice's length. The contract claims only that: nothing for an empty
/// slice, else some element of the slice.
#[verifier::external_body]
pub(crate) fn pick<T: Copy>(rng: &mut StdRng, values: &[T]) -> (picked: Option<T>)
    ensures
        picked is None <==> values@.len() == 0,
        picked is Some ==> values@.contains(picked.unwrap()),
{
    rng.choose(values).copied()
}

/// Reorders the elements with `Rng::shuffle`, which only swaps elements of the
/// slice with each other: afterwards it holds the same elements as before,
/// each as often as before.
#[verifier::external_body]
pub(crate) fn shuffle<T>(rng: &mut StdRng, values: &mut Vec<T>)
    ensures
        final(values)@.to_multiset() == old(values)@.to_multiset(),
{
    rng.shuffle(values.as_mut_slice())
}

} // verus!
