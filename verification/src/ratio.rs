use vstd::arithmetic::div_mod::lemma_small_mod;
use vstd::prelude::*;

use crate::algebra::{
    full_orders, have_full_orders, lemma_exp_log, lemma_log_exp, lemma_mul_mod,
    lemma_multiple_in_group,
};
use crate::canonical::{lemma_written, reads_back, Canonical, CanonicalModel};
use crate::curve::{
    full_order, in_group, log, multiple, AffineRepr, GroupModel, Pairing, PrimeField, ScalarModel,
    G1, G2,
};
use crate::error::Error;
use crate::hasher::HashToCurve;
use crate::rng::blake3_hash;
use crate::utils::{
    checked_same_ratio, same_ratio, same_ratio_defined, same_ratio_spec, seeded_rng, serialize,
};

verus! {

/// A proof of knowledge of the scalar that takes the generator to `point`: it takes the point
/// drawn from a challenge to `matching_point`, too.
#[derive(Clone, Copy, Debug, PartialEq, Eq)]
pub struct RatioProof<E: Pairing> {
    pub point: E::G1Affine,
    pub matching_point: E::G2Affine,
}

/// The fields in the order in which they are written.
pub type RatioProofParts<E> = (G1<E>, G2<E>);

impl<E: Pairing> CanonicalModel for RatioProof<E> {
    type Value = <RatioProofParts<E> as CanonicalModel>::Value;

    open spec fn value_of(self) -> Self::Value {
        (self.point.value_of(), self.matching_point.value_of())
    }

    open spec fn valid(value: Self::Value) -> bool {
        <RatioProofParts<E> as CanonicalModel>::valid(value)
    }

    open spec fn encoding(value: Self::Value, compress: bool) -> Seq<u8> {
        <RatioProofParts<E> as CanonicalModel>::encoding(value, compress)
    }

    open spec fn encoded_length(value: Self::Value, compress: bool) -> nat {
        <RatioProofParts<E> as CanonicalModel>::encoded_length(value, compress)
    }

    open spec fn decoding(bytes: Seq<u8>, compress: bool, validate: bool) -> Result<
        (Self::Value, nat),
        Seq<char>,
    > {
        <RatioProofParts<E> as CanonicalModel>::decoding(bytes, compress, validate)
    }
}

impl<E: Pairing> Canonical for RatioProof<E> {
    fn serialize_with_mode(&self, compress: bool, out: &mut Vec<u8>) -> (res: Result<(), String>) {
        let ghost before = out@;
        self.point.serialize_with_mode(compress, out)?;
        self.matching_point.serialize_with_mode(compress, out)?;
        proof {
            lemma_written::<G1<E>, G2<E>>(
                before,
                self.point.value_of(),
                self.matching_point.value_of(),
                compress,
            );
            assert(reads_back::<RatioProofParts<E>>(self.value_of(), compress) ==> reads_back::<Self>(
                self.value_of(),
                compress,
            ));
        }
        Ok(())
    }

    fn deserialize_with_mode(bytes: &[u8], compress: bool, validate: bool) -> (res: Result<
        (Self, usize),
        String,
    >) {
        let read = <RatioProofParts<E> as Canonical>::deserialize_with_mode(
            bytes,
            compress,
            validate,
        )?;
        let ((point, matching_point), length) = read;
        Ok((RatioProof { point, matching_point }, length))
    }

    fn check(&self) -> (res: bool) {
        self.point.check() && self.matching_point.check()
    }
}

/// What the point to match is drawn from.
pub open spec fn challenge_input<E: Pairing>(challenge: Seq<u8>, point: E::G1Affine) -> Seq<u8> {
    challenge + E::G1Affine::encoding(E::G1Affine::exp(1), true) + E::G1Affine::encoding(
        point,
        true,
    )
}

/// The point to match.
pub open spec fn challenge_point<E: Pairing>(
    challenge: Seq<u8>,
    point: E::G1Affine,
) -> E::G2Affine {
    E::G2Affine::sampled_point(blake3_hash(challenge_input::<E>(challenge, point)), 0).0
}

/// Whether the point to match lies in its group, as every point that is drawn does.
pub open spec fn draws_in_group<E: Pairing>(challenge: Seq<u8>, point: E::G1Affine) -> bool {
    in_group(challenge_point::<E>(challenge, point))
}

impl<E: Pairing> RatioProof<E> {
    /// Whether both points lie in their groups.
    pub open spec fn in_groups(self) -> bool {
        in_group(self.point) && in_group(self.matching_point)
    }

    /// Whether the proof can be verified for the challenge: the pairings that are compared are
    /// defined, as they are where the points lie in their groups. The point to match does.
    pub open spec fn verifiable(self, challenge: Seq<u8>) -> bool {
        draws_in_group::<E>(challenge, self.point) ==> same_ratio_defined::<E>(
            (E::G1Affine::exp(1), self.matching_point),
            (self.point, challenge_point::<E>(challenge, self.point)),
        )
    }

    /// Whether the generator has to `point` the ratio of the point to match to `matching_point`.
    pub open spec fn holds(self, challenge: Seq<u8>) -> bool {
        same_ratio_spec::<E>(
            (E::G1Affine::exp(1), self.matching_point),
            (self.point, challenge_point::<E>(challenge, self.point)),
        )
    }

    /// The proof for the scalar of value `delta`.
    pub open spec fn generated(delta: nat, challenge: Seq<u8>) -> RatioProof<E> {
        let point = multiple(E::G1Affine::exp(1), delta);
        RatioProof {
            point,
            matching_point: multiple(challenge_point::<E>(challenge, point), delta),
        }
    }

    /// The generator and the point that it is taken to.
    pub fn get_g1(&self) -> (res: (E::G1Affine, E::G1Affine))
        ensures
            res == (E::G1Affine::exp(1), self.point),
    {
        (E::G1Affine::generator(), self.point)
    }

    /// Draws the point to match.
    fn draw_challenge_point(challenge: &[u8], point: &E::G1Affine) -> (res: Result<
        E::G2Affine,
        Error,
    >)
        ensures
            res matches Ok(drawn) && drawn == challenge_point::<E>(challenge@, *point),
            draws_in_group::<E>(challenge@, *point),
    {
        let generator = E::G1Affine::generator();
        let mut input: Vec<u8> = Vec::new();
        let mut i: usize = 0;
        while i < challenge.len()
            invariant
                i <= challenge@.len(),
                input@ == challenge@.take(i as int),
            decreases challenge.len() - i,
        {
            input.push(challenge[i]);
            i = i + 1;
            proof {
                assert(input@ =~= challenge@.take(i as int));
            }
        }
        proof {
            generator.lemma_canonical();
            point.lemma_canonical();
        }
        let mut generator_bytes = serialize(&generator)?;
        let mut point_bytes = serialize(point)?;
        input.append(&mut generator_bytes);
        input.append(&mut point_bytes);
        proof {
            assert(input@ =~= challenge_input::<E>(challenge@, *point));
        }
        let mut rng = seeded_rng(&input);
        Ok(HashToCurve::<E>::hash_g2(&mut rng))
    }

    /// Proves knowledge of `delta`. The proof holds for the challenge.
    pub fn generate(delta: E::ScalarField, challenge: &[u8]) -> (res: Result<Self, Error>)
        ensures
            res matches Ok(proof) && proof == Self::generated(delta.value(), challenge@)
                && proof.in_groups() && proof.holds(challenge@) && draws_in_group::<E>(
                challenge@,
                proof.point,
            ),
    {
        let generator = E::G1Affine::generator();
        let point = generator.times(delta);
        let drawn = Self::draw_challenge_point(challenge, &point)?;
        let matching_point = drawn.times(delta);
        have_full_orders::<E>();
        let proof = RatioProof { point, matching_point };
        proof {
            delta.lemma_value();
            law_generated_proof_holds::<E>(delta.value(), challenge@);
        }
        Ok(proof)
    }

    /// Whether the proof holds for the challenge.
    pub fn verify(&self, challenge: &[u8]) -> (res: Result<bool, Error>)
        requires
            self.verifiable(challenge@),
        ensures
            res matches Ok(valid) && valid == self.holds(challenge@),
    {
        let generator = E::G1Affine::generator();
        let drawn = Self::draw_challenge_point(challenge, &self.point)?;
        Ok(same_ratio::<E>((generator, self.matching_point), (self.point, drawn)))
    }

    /// Whether the proof holds for the challenge, or `None` where one of the pairings that are
    /// compared is not defined.
    pub fn checked_verify(&self, challenge: &[u8]) -> (res: Option<Result<bool, Error>>)
        ensures
            res is Some <==> self.verifiable(challenge@),
            self.in_groups() ==> res is Some,
            res matches Some(result) ==> result matches Ok(valid) && valid == self.holds(
                challenge@,
            ),
    {
        proof {
            generator_log::<E>();
        }
        let generator = E::G1Affine::generator();
        match Self::draw_challenge_point(challenge, &self.point) {
            Err(error) => Some(Err(error)),
            Ok(drawn) => match checked_same_ratio::<E>(
                (generator, self.matching_point),
                (self.point, drawn),
            ) {
                Some(valid) => Some(Ok(valid)),
                None => None,
            },
        }
    }
}

/// The generator of the first group is 1 times itself.
pub proof fn generator_log<E: Pairing>()
    ensures
        in_group(E::G1Affine::exp(1)),
        full_order::<E::G1Affine>() ==> log(E::G1Affine::exp(1)) == 1,
{
    assert(E::ScalarField::order() > 1) by {
        let any = arbitrary::<E::ScalarField>();
        any.lemma_value();
    }
    if full_order::<E::G1Affine>() {
        lemma_log_exp::<E::G1Affine>(1);
    }
}

/// A generated proof holds for its challenge, whatever the scalar.
pub proof fn law_generated_proof_holds<E: Pairing>(delta: nat, challenge: Seq<u8>)
    requires
        full_orders::<E>(),
        delta < E::ScalarField::order(),
        draws_in_group::<E>(challenge, multiple(E::G1Affine::exp(1), delta)),
    ensures
        RatioProof::<E>::generated(delta, challenge).in_groups(),
        RatioProof::<E>::generated(delta, challenge).holds(challenge),
{
    let order = E::ScalarField::order();
    let proof_made = RatioProof::<E>::generated(delta, challenge);
    let drawn = challenge_point::<E>(challenge, proof_made.point);
    generator_log::<E>();
    lemma_multiple_in_group(E::G1Affine::exp(1), delta);
    lemma_multiple_in_group(drawn, delta);
    lemma_mul_mod(1, log(drawn), delta, order);
    lemma_mul_mod(1, delta, log(drawn), order);
    lemma_mul_mod(log(drawn), delta, 1, order);
}

/// A proof holds for a challenge just where the scalar that takes the generator to its point takes
/// the point to match to its matching point, too.
pub proof fn law_proof_holds_for_one_scalar<E: Pairing>(
    proof_made: RatioProof<E>,
    challenge: Seq<u8>,
)
    requires
        full_orders::<E>(),
        proof_made.in_groups(),
        draws_in_group::<E>(challenge, proof_made.point),
    ensures
        proof_made.holds(challenge) <==> proof_made.matching_point == multiple(
            challenge_point::<E>(challenge, proof_made.point),
            log(proof_made.point),
        ),
{
    let order = E::ScalarField::order();
    let drawn = challenge_point::<E>(challenge, proof_made.point);
    let scalar = log(proof_made.point);
    let matching = proof_made.matching_point;
    generator_log::<E>();
    lemma_multiple_in_group(drawn, scalar);
    lemma_exp_log(drawn);
    lemma_exp_log(matching);
    lemma_exp_log(multiple(drawn, scalar));
    lemma_small_mod(log(matching), order);
    assert(1 * log(matching) == log(matching));
    lemma_mul_mod(log(drawn), scalar, 1, order);
}

} // verus!
