use std::cell::Cell;

use ark_ec::{AffineRepr as _, CurveGroup};
use ark_ff::{BigInt, Field, PrimeField as _, UniformRand};
use ark_poly::{EvaluationDomain, Radix2EvaluationDomain};
use ark_serialize::CanonicalSerialize;
use rand::SeedableRng;
use rand_chacha::ChaCha20Rng;

use arkworks_phase2::accumulator::{Accumulator, PreparedAccumulator};
use arkworks_phase2::bn254::{Bn254, Bn254Fr, Bn254G1, Bn254G2};
use arkworks_phase2::circuit::{Circuit, SparseMatrix};
use arkworks_phase2::context::ContributionContext;
use arkworks_phase2::curve::AffineRepr;
use arkworks_phase2::error::{Error, SynthesisError};
use arkworks_phase2::key::PartialKey;
use arkworks_phase2::ratio::RatioProof;
use arkworks_phase2::rng::SeededRng;
use arkworks_phase2::transcript::Transcript;
use arkworks_phase2::utils::{serialize, serialize_uncompressed};

fn small(value: u64) -> ark_bn254::Fr {
    ark_bn254::Fr::from(value)
}

fn fr(value: ark_bn254::Fr) -> Bn254Fr {
    Bn254Fr { limbs: value.into_bigint().0 }
}

fn g1(value: ark_bn254::Fr) -> Bn254G1 {
    let p = (ark_bn254::G1Affine::generator() * value).into_affine();
    Bn254G1 { x: p.x.into_bigint().0, y: p.y.into_bigint().0 }
}

fn g2(value: ark_bn254::Fr) -> Bn254G2 {
    let p = (ark_bn254::G2Affine::generator() * value).into_affine();
    Bn254G2 {
        x0: p.x.c0.into_bigint().0,
        x1: p.x.c1.into_bigint().0,
        y0: p.y.c0.into_bigint().0,
        y1: p.y.c1.into_bigint().0,
    }
}

fn powers(degree: usize) -> Accumulator<Bn254> {
    let mut accum = Accumulator::<Bn254>::empty_from_degree(degree).unwrap();
    accum.contribute_secrets(fr(small(3)), fr(small(5)), fr(small(7)));
    accum
}

fn single(column: usize) -> SparseMatrix<Bn254Fr> {
    vec![vec![(fr(small(1)), column)]]
}

/// One constraint, that the product of two witnesses is the input.
fn product() -> Circuit<Bn254Fr> {
    Circuit {
        predicates: vec![("R1CS".to_string(), 1)],
        instance_variables: 2,
        witness_variables: 2,
        matrices: Ok(Some(vec![single(2), single(3), single(1)])),
    }
}

fn transcript() -> Transcript<Bn254> {
    Transcript::new_from_accumulator(&powers(2), &product()).unwrap()
}

/// A transcript with contributions of 11 and 13.
fn contributed() -> Transcript<Bn254> {
    let mut transcript = transcript();
    transcript.contribute(fr(small(11)), [1; 20], [2; 65]).unwrap();
    transcript.contribute(fr(small(13)), [3; 20], [4; 65]).unwrap();
    transcript
}

fn lagrange() -> Vec<ark_bn254::Fr> {
    Radix2EvaluationDomain::<ark_bn254::Fr>::new(4)
        .unwrap()
        .evaluate_all_lagrange_coefficients(small(3))
}

fn outside() -> Bn254G1 {
    Bn254G1 { x: [1, 0, 0, 0], y: [1, 0, 0, 0] }
}

/// A point without a pairing.
fn unpaired() -> Bn254G2 {
    Bn254G2 { x0: [1, 0, 0, 0], x1: [0; 4], y0: [0; 4], y1: [0; 4] }
}

#[test]
fn keys_are_specialized_to_the_circuit() {
    let transcript = transcript();
    let l = lagrange();
    let zero = small(0);
    let key = &transcript.key.key;
    assert_eq!(key.a_query, vec![g1(l[1]), g1(l[2]), g1(l[0]), g1(zero)]);
    assert_eq!(key.b_g1_query, vec![g1(zero), g1(zero), g1(zero), g1(l[0])]);
    assert_eq!(key.b_g2_query, vec![g2(zero), g2(zero), g2(zero), g2(l[0])]);
    assert_eq!(
        key.vk.gamma_abc_g1,
        vec![g1(small(7) * l[1]), g1(l[0] + small(7) * l[2])]
    );
    assert_eq!(key.l_query, vec![g1(small(7) * l[0]), g1(small(5) * l[0])]);
    assert_eq!(key.h_query, vec![g1(small(80)), g1(small(240)), g1(small(720))]);
    assert_eq!(key.vk.alpha_g1, g1(small(5)));
    assert_eq!(key.beta_g1, g1(small(7)));
    assert_eq!(key.vk.beta_g2, g2(small(7)));
    assert_eq!(key.vk.gamma_g2, g2(small(1)));
    assert_eq!(key.vk.delta_g2, g2(small(1)));
    assert_eq!(key.delta_g1, g1(small(1)));
    assert_eq!(transcript.initial_key, PartialKey::from(key));
    assert_eq!(transcript.contributions, Vec::new());
    assert_eq!(transcript.unconstrained_variables(), 0);
}

#[test]
fn coefficients_and_repeated_columns_are_added_up() {
    let mut circuit = product();
    let rows = vec![vec![(fr(small(4)), 2), (fr(small(6)), 2), (fr(small(9)), 0)]];
    circuit.matrices = Ok(Some(vec![rows, single(3), single(1)]));
    let transcript = Transcript::new_from_accumulator(&powers(2), &circuit).unwrap();
    let l = lagrange();
    let key = &transcript.key.key;
    assert_eq!(key.a_query[2], g1(small(10) * l[0]));
    assert_eq!(key.a_query[0], g1(small(9) * l[0] + l[1]));
    assert_eq!(key.l_query[0], g1(small(70) * l[0]));
    assert_eq!(key.vk.gamma_abc_g1[0], g1(small(63) * l[0] + small(7) * l[1]));
}

#[test]
fn unconstrained_witnesses_are_counted() {
    let mut circuit = product();
    circuit.witness_variables = 5;
    let mut transcript = Transcript::new_from_accumulator(&powers(2), &circuit).unwrap();
    assert_eq!(transcript.key.key.l_query.len(), 5);
    assert_eq!(transcript.unconstrained_variables(), 3);
    transcript.contribute(fr(small(11)), [0; 20], [0; 65]).unwrap();
    assert_eq!(transcript.unconstrained_variables(), 3);
}

#[test]
fn both_kinds_of_powers_give_the_same_transcript() {
    let accum = powers(2);
    let prepared = accum.prepare().unwrap();
    assert_eq!(
        Transcript::new_from_prepared_accumulator(&prepared, &product()),
        Transcript::new_from_accumulator(&accum, &product())
    );
    // More powers than are needed.
    assert_eq!(
        Transcript::new_from_accumulator(&powers(3), &product()),
        Transcript::new_from_accumulator(&accum, &product())
    );
}

#[test]
fn circuits_need_the_r1cs_predicate_alone() {
    let accum = powers(2);
    let prepared = accum.prepare().unwrap();
    let mut circuit = product();
    circuit.predicates = Vec::new();
    let missing = Error::Custom("missing R1CS predicate".to_string());
    assert_eq!(circuit.r1cs_constraint_count(), Err(missing.clone()));
    assert_eq!(Transcript::new_from_accumulator(&accum, &circuit), Err(missing.clone()));
    assert_eq!(
        Transcript::new_from_prepared_accumulator(&prepared, &circuit),
        Err(missing.clone())
    );
    circuit.predicates = vec![("lookup".to_string(), 10)];
    assert_eq!(circuit.r1cs_constraint_count(), Err(missing));
    circuit.predicates =
        vec![("R1CS".to_string(), 1), ("lookup".to_string(), 10), ("other".to_string(), 2)];
    assert_eq!(
        Transcript::new_from_accumulator(&accum, &circuit),
        Err(Error::Custom(
            "non-R1CS predicate 'lookup' (10 constraints) is not supported".to_string()
        ))
    );
    assert_eq!(product().r1cs_constraint_count(), Ok(1));
}

#[test]
fn circuits_need_three_matrices() {
    let accum = powers(2);
    let mut circuit = product();
    circuit.matrices = Ok(None);
    assert_eq!(
        Transcript::new_from_accumulator(&accum, &circuit),
        Err(Error::MissingCSMatrices)
    );
    circuit.matrices = Ok(Some(vec![single(2), single(3)]));
    assert_eq!(
        Transcript::new_from_accumulator(&accum, &circuit),
        Err(Error::InvariantViolated("unexpected R1CS matrix arity"))
    );
    circuit.matrices = Err(SynthesisError::Unsatisfiable);
    assert_eq!(
        Transcript::new_from_accumulator(&accum, &circuit),
        Err(Error::ConstraintSystem(SynthesisError::Unsatisfiable))
    );
}

#[test]
fn circuits_that_do_not_fit_are_found() {
    assert!(product().is_well_formed());
    let mut circuit = product();
    circuit.witness_variables = 1;
    assert!(!circuit.is_well_formed());
    let mut circuit = product();
    circuit.predicates[0].1 = 2;
    assert!(!circuit.is_well_formed());
    let mut circuit = product();
    circuit.witness_variables = usize::MAX;
    assert!(!circuit.is_well_formed());
}

#[test]
fn powers_have_to_fit_the_circuit() {
    let circuit = product();
    assert_eq!(
        Transcript::new_from_accumulator(&powers(1), &circuit),
        Err(Error::NotEnoughPOTDegree(2))
    );
    assert_eq!(
        Transcript::new_from_accumulator(&Accumulator::<Bn254>::empty(6, 4), &circuit),
        Err(Error::NotEnoughPOTDegree(2))
    );
    let mut accum = powers(2);
    accum.beta_tau_powers_g1.pop();
    assert_eq!(
        Transcript::new_from_accumulator(&accum, &circuit),
        Err(Error::InvalidPOTSize)
    );
    let mut large = product();
    large.predicates[0].1 = 1 << 28;
    large.matrices = Ok(None);
    assert_eq!(
        Transcript::new_from_accumulator(&powers(2), &large),
        Err(Error::ConstraintSystem(SynthesisError::PolynomialDegreeTooLarge))
    );
}

#[test]
fn prepared_powers_have_to_fit_the_circuit() {
    let circuit = product();
    for degree in [1, 3] {
        assert_eq!(
            Transcript::new_from_prepared_accumulator(&powers(degree).prepare().unwrap(), &circuit),
            Err(Error::InvalidPOTDegree(2))
        );
    }
    let mut prepared = powers(2).prepare().unwrap();
    prepared.h_query.pop();
    assert_eq!(
        Transcript::new_from_prepared_accumulator(&prepared, &circuit),
        Err(Error::InvalidPOTSize)
    );
    // As long as it has to be by the logarithm, and shorter than the domain.
    let mut prepared: PreparedAccumulator<Bn254> = powers(2).prepare().unwrap();
    prepared.tau_lagrange_g1.pop();
    prepared.tau_lagrange_g2.pop();
    prepared.alpha_lagrange_g1.pop();
    prepared.beta_lagrange_g1.pop();
    prepared.h_query.pop();
    assert_eq!(
        Transcript::new_from_prepared_accumulator(&prepared, &circuit),
        Err(Error::InvalidPOTDegree(2))
    );
}

#[test]
fn contributions_change_delta_and_the_queries() {
    let before = transcript();
    let after = contributed();
    let l = lagrange();
    let delta = small(11 * 13);
    let inverse = delta.inverse().unwrap();
    assert_eq!(after.key.key.delta_g1, g1(delta));
    assert_eq!(after.key.key.vk.delta_g2, g2(delta));
    assert_eq!(
        after.key.key.h_query,
        vec![g1(small(80) * inverse), g1(small(240) * inverse), g1(small(720) * inverse)]
    );
    assert_eq!(
        after.key.key.l_query,
        vec![g1(small(7) * l[0] * inverse), g1(small(5) * l[0] * inverse)]
    );
    assert_eq!(after.key.key.a_query, before.key.key.a_query);
    assert_eq!(after.key.key.vk.gamma_abc_g1, before.key.key.vk.gamma_abc_g1);
    assert_eq!(after.initial_key, before.initial_key);
    assert_eq!(after.contributions.len(), 2);
    assert_eq!(after.contributions[0].delta_g1, g1(small(11)));
    assert_eq!(after.contributions[0].delta_g2, g2(small(11)));
    assert_eq!(after.contributions[0].proof.point, g1(small(11)));
    assert_eq!(after.contributions[0].eth_address, [1; 20]);
    assert_eq!(after.contributions[0].eth_signature, [2; 65]);
    assert_eq!(after.contributions[1].proof.point, g1(small(13)));
    assert_eq!(after.contributions[1].challenge(), after.key.challenge());
    // Each proof holds for the challenge of the key before it.
    let first = before.initial_key.challenge().unwrap();
    assert_eq!(after.contributions[0].proof.verify(&first), Ok(true));
    let second = after.contributions[0].challenge().unwrap();
    assert_eq!(after.contributions[1].proof.verify(&second), Ok(true));
    assert_eq!(after.contributions[1].proof.verify(&first), Ok(false));
}

#[test]
fn honest_transcripts_are_accepted() {
    assert_eq!(transcript().verify(), Ok(()));
    assert_eq!(contributed().verify(), Ok(()));
    assert_eq!(contributed().checked_verify(), Some(Ok(())));
    let mut circuit = product();
    circuit.predicates[0].1 = 20;
    let rows = |column| (0..20).map(|i| vec![(fr(small(i + 1)), column)]).collect();
    circuit.matrices = Ok(Some(vec![rows(2), rows(3), rows(1)]));
    let mut large = Transcript::new_from_accumulator(&powers(5), &circuit).unwrap();
    large.contribute(fr(small(17)), [0; 20], [0; 65]).unwrap();
    assert_eq!(large.key.key.h_query.len(), 31);
    assert_eq!(large.verify(), Ok(()));
}

#[test]
fn changed_contributions_are_refused() {
    let mut changed = contributed();
    changed.contributions[0].delta_g2 = g2(small(12));
    assert_eq!(changed.verify(), Err(Error::InvalidRatioProof));
    let mut changed = contributed();
    changed.contributions[1].proof.point = g1(small(12));
    assert_eq!(changed.verify(), Err(Error::InvalidRatioProof));
    let mut changed = contributed();
    changed.contributions.pop();
    assert_eq!(changed.verify(), Err(Error::InvalidRatioProof));
    let mut changed = contributed();
    changed.contributions.swap(0, 1);
    assert_eq!(changed.verify(), Err(Error::InvalidRatioProof));
    let mut changed = contributed();
    changed.key.key.delta_g1 = g1(small(12));
    assert_eq!(changed.verify(), Err(Error::InvalidRatioProof));
    assert_eq!(changed.checked_verify(), Some(Err(Error::InvalidRatioProof)));
}

#[test]
fn changed_queries_are_refused() {
    let mut changed = contributed();
    changed.key.key.h_query[1] = g1(small(1));
    assert_eq!(changed.verify(), Err(Error::InconsistentHChange));
    let mut changed = contributed();
    changed.key.key.l_query[0] = g1(small(1));
    assert_eq!(changed.verify(), Err(Error::InconsistentLChange));
    let mut changed = contributed();
    changed.key.key.vk.delta_g2 = g2(small(12));
    assert_eq!(changed.verify(), Err(Error::InconsistentHChange));
}

#[test]
fn contributions_without_a_proof_of_knowledge_are_refused() {
    let refused = Err(Error::InvalidRatioProof);
    for i in 0..2 {
        let mut changed = contributed();
        let challenge = match i {
            0 => changed.initial_key.challenge().unwrap(),
            _ => changed.contributions[0].challenge().unwrap(),
        };
        assert_eq!(changed.contributions[i].proof.verify(&challenge), Ok(true));
        changed.contributions[i].proof.matching_point = g2(small(99));
        assert_eq!(changed.contributions[i].proof.verify(&challenge), Ok(false));
        assert_eq!(changed.verify(), refused);
        assert_eq!(changed.checked_verify(), Some(refused.clone()));
        assert_eq!(changed.verify_from_initial_transcript(&transcript()), refused);
        assert_eq!(changed.verify_from_accumulator(&powers(2), &product()), refused);
    }
    // The same scalar, proved for another challenge.
    let mut changed = contributed();
    let challenge = changed.initial_key.challenge().unwrap();
    changed.contributions[1].proof = RatioProof::generate(fr(small(13)), &challenge).unwrap();
    assert_eq!(changed.verify(), refused);
    // The delta in the first group is part of the next challenge.
    let mut changed = contributed();
    changed.contributions[0].delta_g1 = g1(small(12));
    assert_eq!(changed.verify(), refused);
}

#[test]
fn malformed_transcripts_are_not_verified() {
    let mut changed = contributed();
    changed.contributions[0].proof.matching_point = unpaired();
    assert_eq!(changed.checked_verify(), None);
    assert_eq!(changed.contributions[0].proof.checked_verify(&[]), None);
    let mut changed = contributed();
    changed.contributions[1].delta_g2 = unpaired();
    assert_eq!(changed.checked_verify(), None);
    let mut changed = contributed();
    changed.key.key.vk.delta_g2 = unpaired();
    assert_eq!(changed.checked_verify(), None);
    let mut changed = contributed();
    changed.key.key.l_query.pop();
    assert_eq!(changed.checked_verify(), None);
    assert_eq!(changed.checked_verify_from_initial_transcript(&transcript()), None);
    assert_eq!(changed.checked_verify_from_accumulator(&powers(2), &product()), None);
}

#[test]
fn points_outside_the_curve_are_refused() {
    let mut changed = contributed();
    changed.key.key.h_query[0] = outside();
    assert_eq!(changed.checked_verify(), Some(Err(Error::InconsistentHChange)));
    let mut changed = contributed();
    changed.contributions[0].proof.point = outside();
    assert_eq!(changed.checked_verify(), Some(Err(Error::InvalidRatioProof)));
    assert_eq!(changed.contributions[0].proof.checked_verify(&[]), Some(Ok(false)));
}

#[test]
fn verification_ends_at_the_first_refusal() {
    let mut changed = contributed();
    changed.contributions[0].delta_g2 = g2(small(12));
    changed.contributions[1].proof.matching_point = unpaired();
    changed.key.key.h_query.pop();
    assert_eq!(changed.checked_verify(), Some(Err(Error::InvalidRatioProof)));
    let mut changed = contributed();
    changed.contributions[0].proof.matching_point = g2(small(99));
    changed.contributions[0].delta_g2 = unpaired();
    assert_eq!(changed.checked_verify(), Some(Err(Error::InvalidRatioProof)));
    let mut changed = contributed();
    changed.key.key.delta_g1 = g1(small(12));
    changed.key.key.h_query.pop();
    assert_eq!(changed.checked_verify(), Some(Err(Error::InvalidRatioProof)));
    let mut changed = contributed();
    changed.key.key.h_query[0] = g1(small(12));
    changed.key.key.l_query.pop();
    assert_eq!(changed.checked_verify(), Some(Err(Error::InconsistentHChange)));
    let mut changed = contributed();
    changed.key.key.beta_g1 = g1(small(12));
    changed.key.key.vk.delta_g2 = unpaired();
    let refused = Some(Err(Error::InvalidKey("pk: beta_g1")));
    assert_eq!(changed.checked_verify_from_initial_transcript(&transcript()), refused);
    assert_eq!(changed.checked_verify_from_accumulator(&powers(2), &product()), refused);
    assert_eq!(
        changed.checked_verify_from_accumulator(&powers(1), &product()),
        Some(Err(Error::NotEnoughPOTDegree(2)))
    );
}

#[test]
fn transcripts_are_verified_from_their_start() {
    let initial = transcript();
    let honest = contributed();
    assert_eq!(honest.verify_from_initial_transcript(&initial), Ok(()));
    assert_eq!(honest.checked_verify_from_initial_transcript(&initial), Some(Ok(())));
    assert_eq!(honest.verify_from_accumulator(&powers(2), &product()), Ok(()));
    assert_eq!(honest.checked_verify_from_accumulator(&powers(2), &product()), Some(Ok(())));
    assert_eq!(
        honest.verify_from_accumulator(&powers(1), &product()),
        Err(Error::NotEnoughPOTDegree(2))
    );
    assert_eq!(initial.verify_from_initial_transcript(&initial), Ok(()));
}

#[test]
fn transcripts_with_another_start_are_refused() {
    let initial = transcript();
    let other = g1(small(99));
    let other2 = g2(small(99));
    let refused = |changed: &Transcript<Bn254>| changed.verify_from_initial_transcript(&initial);

    let mut changed = contributed();
    changed.initial_key.delta_g1 = other;
    assert_eq!(refused(&changed), Err(Error::InvalidKey("initial_key")));
    changed.initial_key = initial.initial_key.clone();
    changed.initial_key.l_query.pop();
    assert_eq!(refused(&changed), Err(Error::InvalidKey("initial_key")));
    let mut changed = contributed();
    changed.key.key.beta_g1 = other;
    assert_eq!(refused(&changed), Err(Error::InvalidKey("pk: beta_g1")));
    let mut changed = contributed();
    changed.key.key.a_query[3] = other;
    assert_eq!(refused(&changed), Err(Error::InvalidKey("pk: a_query")));
    let mut changed = contributed();
    changed.key.key.b_g1_query.push(other);
    assert_eq!(refused(&changed), Err(Error::InvalidKey("pk: b_g1")));
    let mut changed = contributed();
    changed.key.key.b_g2_query[0] = other2;
    assert_eq!(refused(&changed), Err(Error::InvalidKey("pk: b_g2")));
    let mut changed = contributed();
    changed.key.key.vk.alpha_g1 = other;
    assert_eq!(refused(&changed), Err(Error::InvalidKey("vk: alpha_g1")));
    let mut changed = contributed();
    changed.key.key.vk.beta_g2 = other2;
    assert_eq!(refused(&changed), Err(Error::InvalidKey("vk: beta_g2")));
    let mut changed = contributed();
    changed.key.key.vk.gamma_g2 = other2;
    assert_eq!(refused(&changed), Err(Error::InvalidKey("vk: gamma_g2")));
    let mut changed = contributed();
    changed.key.key.vk.gamma_abc_g1[0] = other;
    assert_eq!(refused(&changed), Err(Error::InvalidKey("vk: gamma_abc_g1")));
    let mut changed = contributed();
    changed.key.key.h_query[0] = other;
    assert_eq!(refused(&changed), Err(Error::InconsistentHChange));
    assert_eq!(
        changed.checked_verify_from_initial_transcript(&initial),
        Some(Err(Error::InconsistentHChange))
    );
}

#[test]
fn contributors_sign_the_context() {
    let context = ContributionContext::new("ceremony", 258, "circuit-é");
    let mut bytes = 8u64.to_le_bytes().to_vec();
    bytes.extend_from_slice(b"ceremony");
    bytes.extend_from_slice(&[2, 1, 0, 0, 0, 0, 0, 0]);
    bytes.extend_from_slice(&10u64.to_le_bytes());
    bytes.extend_from_slice("circuit-é".as_bytes());
    let expected = *blake3::hash(&bytes).as_bytes();
    assert_eq!(context.message(), expected);
    assert_ne!(ContributionContext::new("ceremony", 259, "circuit-é").message(), expected);
    assert_ne!(ContributionContext::new("ceremon", 258, "ycircuit-é").message(), expected);

    let asked = Cell::new([0u8; 32]);
    let mut transcript = transcript();
    let signer = |message: &[u8; 32]| {
        asked.set(*message);
        Ok([9u8; 65])
    };
    transcript.contribute_seed(b"seed", [8; 20], signer, &context).unwrap();
    assert_eq!(asked.get(), expected);
    assert_eq!(transcript.contributions[0].eth_address, [8; 20]);
    assert_eq!(transcript.contributions[0].eth_signature, [9; 65]);
    assert_eq!(transcript.verify(), Ok(()));
}

#[test]
fn unsigned_contributions_are_left_out() {
    let context = ContributionContext::new("ceremony", 1, "circuit");
    let mut unsigned = transcript();
    let refuse = |_: &[u8; 32]| Err(Error::InvalidEthSignature);
    assert_eq!(
        unsigned.contribute_seed(b"seed", [8; 20], refuse, &context),
        Err(Error::InvalidEthSignature)
    );
    assert_eq!(unsigned, transcript());
    let mut rng = SeededRng::from_seed([5; 32]);
    assert_eq!(
        unsigned.checked_contribute_rng(&mut rng, [8; 20], refuse, &context),
        Some(Err(Error::InvalidEthSignature))
    );
    assert_eq!(unsigned, transcript());
}

#[test]
fn contributions_are_drawn_from_seeds() {
    let context = ContributionContext::new("ceremony", 1, "circuit");
    let sign = |_: &[u8; 32]| Ok([9u8; 65]);
    let seed = *blake3::hash(b"seed").as_bytes();
    let mut outside = ChaCha20Rng::from_seed(seed);
    let delta = ark_bn254::Fr::rand(&mut outside);
    let mut expected = transcript();
    expected.contribute(fr(delta), [8; 20], [9; 65]).unwrap();

    let mut drawn = transcript();
    drawn.contribute_seed(b"seed", [8; 20], sign, &context).unwrap();
    assert_eq!(drawn, expected);
    let mut drawn = transcript();
    assert_eq!(drawn.checked_contribute_seed(b"seed", [8; 20], sign, &context), Some(Ok(())));
    assert_eq!(drawn, expected);
    let mut drawn = transcript();
    let mut rng = SeededRng::from_seed(seed);
    drawn.contribute_rng(&mut rng, [8; 20], sign, &context).unwrap();
    assert_eq!(drawn, expected);
    assert_eq!(rng.position, outside.get_word_pos());
}

#[test]
fn transcripts_are_read_back() {
    let own = contributed();
    let bytes = serialize_uncompressed(&own).unwrap();
    assert_eq!(Transcript::<Bn254>::deserialize_uncompressed(&bytes), Ok(own));
    assert!(Transcript::<Bn254>::deserialize_uncompressed(&bytes[..bytes.len() - 1]).is_err());
    let mut changed = contributed();
    changed.key.key.delta_g1 = outside();
    let bytes = serialize_uncompressed(&changed).unwrap();
    assert!(matches!(
        Transcript::<Bn254>::deserialize_uncompressed(&bytes),
        Err(Error::Serialization(_))
    ));
}

#[test]
fn keys_are_encoded_as_the_prover_does() {
    let fq = |limbs| ark_bn254::Fq::new(BigInt(limbs));
    let one = |p: &Bn254G1| ark_bn254::G1Affine::new_unchecked(fq(p.x), fq(p.y));
    let two = |p: &Bn254G2| {
        ark_bn254::G2Affine::new_unchecked(
            ark_bn254::Fq2::new(fq(p.x0), fq(p.x1)),
            ark_bn254::Fq2::new(fq(p.y0), fq(p.y1)),
        )
    };
    let ones = |points: &Vec<Bn254G1>| points.iter().map(one).collect::<Vec<_>>();
    let transcript = contributed();
    let key = &transcript.key.key;
    let outside = ark_groth16::ProvingKey::<ark_bn254::Bn254> {
        vk: ark_groth16::VerifyingKey {
            alpha_g1: one(&key.vk.alpha_g1),
            beta_g2: two(&key.vk.beta_g2),
            gamma_g2: two(&key.vk.gamma_g2),
            delta_g2: two(&key.vk.delta_g2),
            gamma_abc_g1: ones(&key.vk.gamma_abc_g1),
        },
        beta_g1: one(&key.beta_g1),
        delta_g1: one(&key.delta_g1),
        a_query: ones(&key.a_query),
        b_g1_query: ones(&key.b_g1_query),
        b_g2_query: key.b_g2_query.iter().map(two).collect(),
        h_query: ones(&key.h_query),
        l_query: ones(&key.l_query),
    };
    let mut expected = Vec::new();
    outside.serialize_compressed(&mut expected).unwrap();
    assert_eq!(serialize(&transcript.key).unwrap(), expected);
    let mut expected = Vec::new();
    outside.serialize_uncompressed(&mut expected).unwrap();
    assert_eq!(serialize_uncompressed(&transcript.key).unwrap(), expected);
}

#[test]
fn zero_is_in_the_group() {
    let mut transcript = contributed();
    transcript.contributions[1].delta_g2 = <Bn254G2 as AffineRepr>::zero();
    assert_eq!(transcript.checked_verify(), Some(Err(Error::InvalidRatioProof)));
}
