use std::marker::PhantomData;

use vstd::prelude::*;

use crate::curve::{in_group, AffineRepr, GroupModel, Pairing};
use crate::rng::SeededRng;

verus! {

/// Draws points whose logarithms nobody knows.
pub struct HashToCurve<E: Pairing>(PhantomData<E>);

impl<E: Pairing> HashToCurve<E> {
    /// Draws a point of the first group.
    pub fn hash_g1(rng: &mut SeededRng) -> (res: E::G1Affine)
        ensures
            (res, final(rng).position) == E::G1Affine::sampled_point(
                old(rng).seed@,
                old(rng).position,
            ),
            final(rng).seed == old(rng).seed,
            in_group(res),
    {
        E::G1Affine::rand(rng)
    }

    /// Draws a point of the second group.
    pub fn hash_g2(rng: &mut SeededRng) -> (res: E::G2Affine)
        ensures
            (res, final(rng).position) == E::G2Affine::sampled_point(
                old(rng).seed@,
                old(rng).position,
            ),
            final(rng).seed == old(rng).seed,
            in_group(res),
    {
        E::G2Affine::rand(rng)
    }
}

} // verus!
