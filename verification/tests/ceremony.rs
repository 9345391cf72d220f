use std::error::Error as StdError;

use ark_bn254::Fr;
use ark_ff::{BigInt, BigInteger, Field, PrimeField, Zero};
use ark_groth16::Groth16;
use ark_r1cs_std::fields::fp::FpVar;
use ark_r1cs_std::prelude::{AllocVar, EqGadget};
use ark_relations::gr1cs::predicate::polynomial_constraint::SR1CS_PREDICATE_LABEL;
use ark_relations::gr1cs::predicate::PredicateConstraintSystem;
use ark_relations::gr1cs::{
    ConstraintSynthesizer, ConstraintSystem, ConstraintSystemRef, LinearCombination,
    SynthesisError, R1CS_PREDICATE_LABEL,
};
use ark_snark::SNARK;
use rand::rngs::OsRng;
use rand::RngCore;

use arkworks_phase2::accumulator::{Accumulator, PreparedAccumulator};
use arkworks_phase2::bls12_381::{Bls12381Fr, Bls12381G1, Bls12381G2, Bls12_381};
use arkworks_phase2::bn254::{Bn254, Bn254Fr, Bn254G1, Bn254G2};
use arkworks_phase2::circuit::Circuit;
use arkworks_phase2::error::Error;
use arkworks_phase2::key::ProvingKey;
use arkworks_phase2::ptau::SeekLimit;
use arkworks_phase2::rng::SeededRng;
use arkworks_phase2::transcript::{ContributionContext, Transcript};
use arkworks_phase2::utils::serialize_uncompressed;

const NUM_CONSTRAINTS: usize = 50;

/// A generator with a fresh seed.
fn random() -> SeededRng {
    let mut seed = [0u8; 32];
    OsRng.fill_bytes(&mut seed);
    SeededRng::from_seed(seed)
}

struct SumCircuit<F: PrimeField> {
    a: F,
    b: F,
    c: F,
}

impl<F: PrimeField> ConstraintSynthesizer<F> for SumCircuit<F> {
    fn generate_constraints(self, cs: ConstraintSystemRef<F>) -> ark_relations::gr1cs::Result<()> {
        let a = FpVar::new_witness(cs.clone(), || Ok(self.a))?;
        let b = FpVar::new_witness(cs.clone(), || Ok(self.b))?;
        let c = FpVar::new_input(cs, || Ok(self.c))?;
        let d = &a + &b;

        c.enforce_equal(&d)?;

        Ok(())
    }
}

struct DummyCircuit {
    a: Fr,
    b: Fr,
    c: Fr,
}

impl ConstraintSynthesizer<Fr> for DummyCircuit {
    fn generate_constraints(self, cs: ConstraintSystemRef<Fr>) -> ark_relations::gr1cs::Result<()> {
        let a = FpVar::new_witness(cs.clone(), || Ok(self.a))?;
        let b = FpVar::new_witness(cs.clone(), || Ok(self.b))?;
        let c = FpVar::new_input(cs, || Ok(self.c))?;
        let d = &a + &b;

        for _ in 0..(NUM_CONSTRAINTS - 5) {
            c.enforce_equal(&d)?;
        }

        Ok(())
    }
}

struct Sr1csCircuit;

impl ConstraintSynthesizer<Fr> for Sr1csCircuit {
    fn generate_constraints(self, cs: ConstraintSystemRef<Fr>) -> Result<(), SynthesisError> {
        cs.register_predicate(
            SR1CS_PREDICATE_LABEL,
            PredicateConstraintSystem::new_sr1cs_predicate()?,
        )?;

        let x = cs.new_witness_variable(|| Ok(Fr::from(3u64)))?;
        let y = cs.new_witness_variable(|| Ok(Fr::from(9u64)))?;
        cs.enforce_sr1cs_constraint(
            || LinearCombination::from(x),
            || LinearCombination::from(y),
        )?;
        Ok(())
    }
}

/// An error as a boxed one.
fn boxed(error: Error) -> Box<dyn StdError> {
    format!("{error:?}").into()
}

fn bn_g1(p: &Bn254G1) -> ark_bn254::G1Affine {
    ark_bn254::G1Affine::new_unchecked(
        ark_bn254::Fq::new(BigInt(p.x)),
        ark_bn254::Fq::new(BigInt(p.y)),
    )
}

fn bn_g2(p: &Bn254G2) -> ark_bn254::G2Affine {
    let fq = |limbs| ark_bn254::Fq::new(BigInt(limbs));
    ark_bn254::G2Affine::new_unchecked(
        ark_bn254::Fq2::new(fq(p.x0), fq(p.x1)),
        ark_bn254::Fq2::new(fq(p.y0), fq(p.y1)),
    )
}

fn bn_proving_key(key: &ProvingKey<Bn254>) -> ark_groth16::ProvingKey<ark_bn254::Bn254> {
    let g1s = |points: &Vec<Bn254G1>| points.iter().map(bn_g1).collect::<Vec<_>>();
    ark_groth16::ProvingKey {
        vk: ark_groth16::VerifyingKey {
            alpha_g1: bn_g1(&key.vk.alpha_g1),
            beta_g2: bn_g2(&key.vk.beta_g2),
            gamma_g2: bn_g2(&key.vk.gamma_g2),
            delta_g2: bn_g2(&key.vk.delta_g2),
            gamma_abc_g1: g1s(&key.vk.gamma_abc_g1),
        },
        beta_g1: bn_g1(&key.beta_g1),
        delta_g1: bn_g1(&key.delta_g1),
        a_query: g1s(&key.a_query),
        b_g1_query: g1s(&key.b_g1_query),
        b_g2_query: key.b_g2_query.iter().map(bn_g2).collect(),
        h_query: g1s(&key.h_query),
        l_query: g1s(&key.l_query),
    }
}

fn bn_circuit<C: ConstraintSynthesizer<ark_bn254::Fr>>(circuit: C) -> Circuit<Bn254Fr> {
    let cs = ConstraintSystem::<ark_bn254::Fr>::new_ref();
    circuit.generate_constraints(cs.clone()).unwrap();
    cs.finalize();
    let matrices = cs.to_matrices().unwrap();
    let matrices = matrices.get(R1CS_PREDICATE_LABEL).map(|matrices| {
        matrices
            .iter()
            .map(|matrix| {
                matrix
                    .iter()
                    .map(|row| {
                        row.iter()
                            .map(|(value, column)| {
                                (Bn254Fr { limbs: value.into_bigint().0 }, *column)
                            })
                            .collect()
                    })
                    .collect()
            })
            .collect()
    });
    Circuit {
        predicates: cs
            .get_all_predicates_num_constraints()
            .into_iter()
            .map(|(label, count)| (label.to_string(), count))
            .collect(),
        instance_variables: cs.num_instance_variables(),
        witness_variables: cs.num_witness_variables(),
        matrices: Ok(matrices),
    }
}

fn bn_radix_g1(p: &Bn254G1, out: &mut Vec<u8>) {
    for limbs in [p.x, p.y] {
        for limb in limbs.iter().rev() {
            out.extend_from_slice(&limb.to_be_bytes());
        }
    }
}

fn bn_radix_g2(p: &Bn254G2, out: &mut Vec<u8>) {
    for limbs in [p.x1, p.x0, p.y1, p.y0] {
        for limb in limbs.iter().rev() {
            out.extend_from_slice(&limb.to_be_bytes());
        }
    }
}

/// A radix file of powers that somebody contributed to.
fn bn_radix_file(degree: usize) -> Vec<u8> {
    let mut accum = Accumulator::<Bn254>::empty_from_degree(degree).unwrap();
    accum.contribute(&mut random());
    let prepared = accum.prepare().unwrap();
    let mut out = Vec::new();
    bn_radix_g1(&prepared.alpha, &mut out);
    bn_radix_g1(&prepared.beta, &mut out);
    bn_radix_g2(&prepared.beta_g2, &mut out);
    for p in &prepared.tau_lagrange_g1 {
        bn_radix_g1(&p.point, &mut out);
    }
    for p in &prepared.tau_lagrange_g2 {
        bn_radix_g2(&p.point, &mut out);
    }
    for p in &prepared.alpha_lagrange_g1 {
        bn_radix_g1(&p.point, &mut out);
    }
    for p in &prepared.beta_lagrange_g1 {
        bn_radix_g1(&p.point, &mut out);
    }
    for p in &prepared.h_query {
        bn_radix_g1(p, &mut out);
    }
    out
}

fn bls_g1(p: &Bls12381G1) -> ark_bls12_381::G1Affine {
    ark_bls12_381::G1Affine::new_unchecked(
        ark_bls12_381::Fq::new(BigInt(p.x)),
        ark_bls12_381::Fq::new(BigInt(p.y)),
    )
}

fn bls_g2(p: &Bls12381G2) -> ark_bls12_381::G2Affine {
    let fq = |limbs| ark_bls12_381::Fq::new(BigInt(limbs));
    ark_bls12_381::G2Affine::new_unchecked(
        ark_bls12_381::Fq2::new(fq(p.x0), fq(p.x1)),
        ark_bls12_381::Fq2::new(fq(p.y0), fq(p.y1)),
    )
}

fn bls_proving_key(key: &ProvingKey<Bls12_381>) -> ark_groth16::ProvingKey<ark_bls12_381::Bls12_381> {
    let g1s = |points: &Vec<Bls12381G1>| points.iter().map(bls_g1).collect::<Vec<_>>();
    ark_groth16::ProvingKey {
        vk: ark_groth16::VerifyingKey {
            alpha_g1: bls_g1(&key.vk.alpha_g1),
            beta_g2: bls_g2(&key.vk.beta_g2),
            gamma_g2: bls_g2(&key.vk.gamma_g2),
            delta_g2: bls_g2(&key.vk.delta_g2),
            gamma_abc_g1: g1s(&key.vk.gamma_abc_g1),
        },
        beta_g1: bls_g1(&key.beta_g1),
        delta_g1: bls_g1(&key.delta_g1),
        a_query: g1s(&key.a_query),
        b_g1_query: g1s(&key.b_g1_query),
        b_g2_query: key.b_g2_query.iter().map(bls_g2).collect(),
        h_query: g1s(&key.h_query),
        l_query: g1s(&key.l_query),
    }
}

fn bls_circuit<C: ConstraintSynthesizer<ark_bls12_381::Fr>>(circuit: C) -> Circuit<Bls12381Fr> {
    let cs = ConstraintSystem::<ark_bls12_381::Fr>::new_ref();
    circuit.generate_constraints(cs.clone()).unwrap();
    cs.finalize();
    let matrices = cs.to_matrices().unwrap();
    let matrices = matrices.get(R1CS_PREDICATE_LABEL).map(|matrices| {
        matrices
            .iter()
            .map(|matrix| {
                matrix
                    .iter()
                    .map(|row| {
                        row.iter()
                            .map(|(value, column)| {
                                (Bls12381Fr { limbs: value.into_bigint().0 }, *column)
                            })
                            .collect()
                    })
                    .collect()
            })
            .collect()
    });
    Circuit {
        predicates: cs
            .get_all_predicates_num_constraints()
            .into_iter()
            .map(|(label, count)| (label.to_string(), count))
            .collect(),
        instance_variables: cs.num_instance_variables(),
        witness_variables: cs.num_witness_variables(),
        matrices: Ok(matrices),
    }
}

fn bls_radix_g1(p: &Bls12381G1, out: &mut Vec<u8>) {
    for limbs in [p.x, p.y] {
        for limb in limbs.iter().rev() {
            out.extend_from_slice(&limb.to_be_bytes());
        }
    }
}

fn bls_radix_g2(p: &Bls12381G2, out: &mut Vec<u8>) {
    for limbs in [p.x1, p.x0, p.y1, p.y0] {
        for limb in limbs.iter().rev() {
            out.extend_from_slice(&limb.to_be_bytes());
        }
    }
}

/// A radix file of powers that somebody contributed to.
fn bls_radix_file(degree: usize) -> Vec<u8> {
    let mut accum = Accumulator::<Bls12_381>::empty_from_degree(degree).unwrap();
    accum.contribute(&mut random());
    let prepared = accum.prepare().unwrap();
    let mut out = Vec::new();
    bls_radix_g1(&prepared.alpha, &mut out);
    bls_radix_g1(&prepared.beta, &mut out);
    bls_radix_g2(&prepared.beta_g2, &mut out);
    for p in &prepared.tau_lagrange_g1 {
        bls_radix_g1(&p.point, &mut out);
    }
    for p in &prepared.tau_lagrange_g2 {
        bls_radix_g2(&p.point, &mut out);
    }
    for p in &prepared.alpha_lagrange_g1 {
        bls_radix_g1(&p.point, &mut out);
    }
    for p in &prepared.beta_lagrange_g1 {
        bls_radix_g1(&p.point, &mut out);
    }
    for p in &prepared.h_query {
        bls_radix_g1(p, &mut out);
    }
    out
}

fn montgomery(limbs: [u64; 4], out: &mut Vec<u8>) {
    let r = ark_bn254::Fq::from(2u64).pow([256u64]);
    let value = ark_bn254::Fq::new(BigInt(limbs)) * r;
    out.extend_from_slice(&value.into_bigint().to_bytes_le());
}

/// A ptau file of powers that somebody contributed to.
fn ptau_file(power: u32) -> Vec<u8> {
    let mut accum = Accumulator::<Bn254>::empty_from_degree(power as usize).unwrap();
    accum.contribute(&mut random());
    let g1s = |points: &Vec<Bn254G1>| {
        let mut out = Vec::new();
        for p in points {
            montgomery(p.x, &mut out);
            montgomery(p.y, &mut out);
        }
        out
    };
    let g2s = |points: &Vec<Bn254G2>| {
        let mut out = Vec::new();
        for p in points {
            for limbs in [p.x0, p.x1, p.y0, p.y1] {
                montgomery(limbs, &mut out);
            }
        }
        out
    };
    let mut header = 32u32.to_le_bytes().to_vec();
    header.extend_from_slice(&ark_bn254::Fq::MODULUS.to_bytes_le());
    header.extend_from_slice(&power.to_le_bytes());
    header.extend_from_slice(&28u32.to_le_bytes());
    let sections = vec![
        (1u32, header),
        (2, g1s(&accum.tau_powers_g1)),
        (3, g2s(&accum.tau_powers_g2)),
        (4, g1s(&accum.alpha_tau_powers_g1)),
        (5, g1s(&accum.beta_tau_powers_g1)),
        (6, g2s(&vec![accum.beta_g2])),
        (7, 0u32.to_le_bytes().to_vec()),
    ];
    let mut out = b"ptau".to_vec();
    out.extend_from_slice(&1u32.to_le_bytes());
    out.extend_from_slice(&(sections.len() as u32).to_le_bytes());
    for (kind, contents) in sections {
        out.extend_from_slice(&kind.to_le_bytes());
        out.extend_from_slice(&(contents.len() as u64).to_le_bytes());
        out.extend_from_slice(&contents);
    }
    out
}

fn mock_sign(_message: &[u8; 32]) -> Result<[u8; 65], Error> {
    Ok([0u8; 65])
}

fn test_address() -> [u8; 20] {
    [
        0xde, 0xad, 0xbe, 0xef, 0x00, 0x00, 0x00, 0x00, 0x00, 0x00, 0x00, 0x00, 0x00, 0x00, 0x00,
        0x00, 0x00, 0x00, 0x00, 0x01,
    ]
}

#[test]
fn from_ptau_file_works() -> Result<(), Box<dyn StdError>> {
    let rng = &mut OsRng;
    let file = ptau_file(8);

    let limit =
        SeekLimit { largest: i64::MAX as u64, failure: "Invalid argument".to_string() };
    let accum = Accumulator::<Bn254>::from_ptau_file(&file, &limit).map_err(boxed)?;
    let transcript = Transcript::new_from_accumulator(
        &accum,
        &bn_circuit(SumCircuit {
            a: ark_bn254::Fr::zero(),
            b: ark_bn254::Fr::zero(),
            c: ark_bn254::Fr::zero(),
        }),
    )
    .map_err(boxed)?;
    let key = bn_proving_key(&transcript.key.key);

    let proof = Groth16::<ark_bn254::Bn254>::prove(
        &key,
        SumCircuit {
            a: ark_bn254::Fr::from(1),
            b: ark_bn254::Fr::from(1),
            c: ark_bn254::Fr::from(2),
        },
        rng,
    )?;

    let valid = Groth16::<ark_bn254::Bn254>::verify(&key.vk, &[Fr::from(2)], &proof)?;
    assert!(valid, "Proof must be valid");

    let valid = Groth16::<ark_bn254::Bn254>::verify(&key.vk, &[Fr::from(4)], &proof)?;
    assert!(!valid, "Proof must be not valid");

    Ok(())
}

#[test]
fn from_radix_file_works() -> Result<(), Box<dyn StdError>> {
    let rng = &mut OsRng;
    let file = bls_radix_file(2);

    let accum =
        PreparedAccumulator::<Bls12_381>::from_radix_file(Some("phase1radix2m2"), &file)
            .map_err(boxed)?;
    let transcript = Transcript::new_from_prepared_accumulator(
        &accum,
        &bls_circuit(SumCircuit {
            a: ark_bls12_381::Fr::zero(),
            b: ark_bls12_381::Fr::zero(),
            c: ark_bls12_381::Fr::zero(),
        }),
    )
    .map_err(boxed)?;
    let key = bls_proving_key(&transcript.key.key);

    let proof = Groth16::<ark_bls12_381::Bls12_381>::prove(
        &key,
        SumCircuit {
            a: ark_bls12_381::Fr::from(1),
            b: ark_bls12_381::Fr::from(1),
            c: ark_bls12_381::Fr::from(2),
        },
        rng,
    )?;

    let valid = Groth16::<ark_bls12_381::Bls12_381>::verify(
        &key.vk,
        &[ark_bls12_381::Fr::from(2)],
        &proof,
    )?;
    assert!(valid, "Proof must be valid");

    let valid = Groth16::<ark_bls12_381::Bls12_381>::verify(
        &key.vk,
        &[ark_bls12_381::Fr::from(4)],
        &proof,
    )?;
    assert!(!valid, "Proof must be not valid");

    Ok(())
}

#[test]
fn from_radix_bn254_file_works() -> Result<(), Box<dyn StdError>> {
    let rng = &mut OsRng;
    let file = bn_radix_file(2);

    let accum = PreparedAccumulator::<Bn254>::from_radix_file(Some("bn254phase1radix2m2"), &file)
        .map_err(boxed)?;
    let transcript = Transcript::new_from_prepared_accumulator(
        &accum,
        &bn_circuit(SumCircuit {
            a: ark_bn254::Fr::zero(),
            b: ark_bn254::Fr::zero(),
            c: ark_bn254::Fr::zero(),
        }),
    )
    .map_err(boxed)?;
    let key = bn_proving_key(&transcript.key.key);

    let proof = Groth16::<ark_bn254::Bn254>::prove(
        &key,
        SumCircuit {
            a: ark_bn254::Fr::from(1),
            b: ark_bn254::Fr::from(1),
            c: ark_bn254::Fr::from(2),
        },
        rng,
    )?;

    let valid =
        Groth16::<ark_bn254::Bn254>::verify(&key.vk, &[ark_bn254::Fr::from(2)], &proof)?;
    assert!(valid, "Proof must be valid");

    let valid =
        Groth16::<ark_bn254::Bn254>::verify(&key.vk, &[ark_bn254::Fr::from(4)], &proof)?;
    assert!(!valid, "Proof must be not valid");

    Ok(())
}

#[test]
fn groth16_domain() -> Result<(), Box<dyn StdError>> {
    let rng = &mut OsRng;
    let mut accum =
        Accumulator::<Bn254>::empty_from_max_constraints(NUM_CONSTRAINTS).map_err(boxed)?;

    accum.contribute(&mut random());

    let mut transcript = Transcript::new_from_accumulator(
        &accum,
        &bn_circuit(DummyCircuit { a: Fr::zero(), b: Fr::zero(), c: Fr::zero() }),
    )
    .map_err(boxed)?;

    let context1 = ContributionContext::new("test-ceremony", 1, "test-circuit");
    transcript
        .contribute_seed(b"ofekwoo", test_address(), mock_sign, &context1)
        .map_err(boxed)?;
    transcript.verify().map_err(boxed)?;

    let context2 = ContributionContext::new("test-ceremony", 2, "test-circuit");
    transcript
        .contribute_seed(b"aewrog", test_address(), mock_sign, &context2)
        .map_err(boxed)?;
    transcript.verify().map_err(boxed)?;

    let pk = bn_proving_key(&transcript.key.key);
    let proof = Groth16::<ark_bn254::Bn254>::prove(
        &pk,
        DummyCircuit { a: Fr::from(1), b: Fr::from(2), c: Fr::from(3) },
        rng,
    )?;

    let valid = Groth16::<ark_bn254::Bn254>::verify(&pk.vk, &[Fr::from(3)], &proof)?;
    assert!(valid, "Proof must be valid");

    let valid = Groth16::<ark_bn254::Bn254>::verify(&pk.vk, &[Fr::from(4)], &proof)?;
    assert!(!valid, "Proof must be not valid");

    Ok(())
}

#[test]
fn correct_serialization() -> Result<(), Box<dyn StdError>> {
    let mut accum =
        Accumulator::<Bn254>::empty_from_max_constraints(NUM_CONSTRAINTS).map_err(boxed)?;

    accum.contribute(&mut random());

    let transcript = Transcript::new_from_accumulator(
        &accum,
        &bn_circuit(DummyCircuit { a: Fr::zero(), b: Fr::zero(), c: Fr::zero() }),
    )
    .map_err(boxed)?;

    let bytes = serialize_uncompressed(&transcript).map_err(boxed)?;
    let transcript_deserialized =
        Transcript::<Bn254>::deserialize_uncompressed(&bytes[..]).map_err(boxed)?;

    assert_eq!(transcript, transcript_deserialized);

    Ok(())
}

#[test]
fn rejects_non_r1cs_predicate() {
    let accum = Accumulator::<Bn254>::empty_from_degree(1).expect("accumulator");
    let prepared = accum.prepare().expect("prepare");

    let err = Transcript::new_from_prepared_accumulator(&prepared, &bn_circuit(Sr1csCircuit))
        .expect_err("expected non-R1CS predicate to be rejected");

    match err {
        Error::Custom(message) => assert!(message.contains("non-R1CS predicate")),
        _ => panic!("unexpected error: {err:?}"),
    }
}
