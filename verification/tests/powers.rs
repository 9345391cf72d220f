use ark_ec::{AffineRepr as _, CurveGroup};
use ark_ff::{Field, PrimeField as _, UniformRand};
use ark_poly::{EvaluationDomain, Radix2EvaluationDomain};
use rand::SeedableRng;
use rand_chacha::ChaCha20Rng;

use arkworks_phase2::accumulator::{Accumulator, PreparedAccumulator};
use arkworks_phase2::bls12_381::Bls12_381;
use arkworks_phase2::bn254::{Bn254, Bn254Fr, Bn254G1, Bn254G2};
use arkworks_phase2::curve::AffineRepr;
use arkworks_phase2::error::{Error, SynthesisError};
use arkworks_phase2::rng::SeededRng;
use arkworks_phase2::utils::{batch_into_affine, batch_into_projective, batch_mul_fixed_scalar};

fn fr(value: ark_bn254::Fr) -> Bn254Fr {
    Bn254Fr { limbs: value.into_bigint().0 }
}

fn g1(value: ark_bn254::Fr) -> Bn254G1 {
    let p = (ark_bn254::G1Affine::generator() * value).into_affine();
    Bn254G1 { x: p.x.into_bigint().0, y: p.y.into_bigint().0 }
}

fn g2(value: ark_bn254::Fr) -> Bn254G2 {
    let p = (ark_bn254::G2Affine::generator() * value).into_affine();
    Bn254G2 {
        x0: p.x.c0.into_bigint().0,
        x1: p.x.c1.into_bigint().0,
        y0: p.y.c0.into_bigint().0,
        y1: p.y.c1.into_bigint().0,
    }
}

fn small(value: u64) -> ark_bn254::Fr {
    ark_bn254::Fr::from(value)
}

fn powers(degree: usize, tau: u64, alpha: u64, beta: u64) -> Accumulator<Bn254> {
    let mut accum = Accumulator::<Bn254>::empty_from_degree(degree).unwrap();
    accum.contribute_secrets(fr(small(tau)), fr(small(alpha)), fr(small(beta)));
    accum
}

#[test]
fn empty_powers_are_generators() {
    let accum = Accumulator::<Bn254>::empty(5, 3);
    assert_eq!(accum.tau_powers_g1, vec![g1(small(1)); 5]);
    assert_eq!(accum.tau_powers_g2, vec![g2(small(1)); 3]);
    assert_eq!(accum.alpha_tau_powers_g1, vec![g1(small(1)); 3]);
    assert_eq!(accum.beta_tau_powers_g1, vec![g1(small(1)); 3]);
    assert_eq!(accum.beta_g2, g2(small(1)));
}

#[test]
fn lengths_follow_the_degree() {
    let accum = Accumulator::<Bn254>::empty_from_degree(3).unwrap();
    assert_eq!(accum.check_pow_len(), (true, 15, 8));
    let accum = Accumulator::<Bn254>::empty_from_degree(0).unwrap();
    assert_eq!(accum.check_pow_len(), (true, 1, 1));
    assert_eq!(
        Accumulator::<Bn254>::empty_from_degree(29).unwrap_err(),
        Error::ConstraintSystem(SynthesisError::PolynomialDegreeTooLarge)
    );
}

#[test]
fn lengths_follow_the_constraints() {
    let accum = Accumulator::<Bn254>::empty_from_max_constraints(50).unwrap();
    assert_eq!(accum.check_pow_len(), (true, 129, 65));
    let accum = Accumulator::<Bn254>::empty_from_max_constraints(64).unwrap();
    assert_eq!(accum.check_pow_len(), (true, 129, 65));
    let accum = Accumulator::<Bn254>::empty_from_max_constraints(1).unwrap();
    assert_eq!(accum.check_pow_len(), (true, 3, 2));
    assert_eq!(
        Accumulator::<Bn254>::empty_from_max_constraints((1 << 28) + 1).unwrap_err(),
        Error::ConstraintSystem(SynthesisError::PolynomialDegreeTooLarge)
    );
}

#[test]
fn lengths_that_do_not_fit_are_found() {
    let mut accum = Accumulator::<Bn254>::empty(2, 3);
    assert_eq!(accum.check_pow_len(), (true, 2, 3));
    accum.tau_powers_g1.pop();
    assert_eq!(accum.check_pow_len(), (false, 1, 3));
    let mut accum = Accumulator::<Bn254>::empty(7, 4);
    accum.alpha_tau_powers_g1.pop();
    assert_eq!(accum.check_pow_len(), (false, 7, 4));
    let mut accum = Accumulator::<Bn254>::empty(7, 4);
    accum.beta_tau_powers_g1.pop();
    assert_eq!(accum.check_pow_len(), (false, 7, 4));
}

#[test]
fn contributions_raise_to_powers() {
    let accum = powers(2, 3, 5, 7);
    let tau = [1u64, 3, 9, 27, 81, 243, 729];
    for i in 0..7 {
        assert_eq!(accum.tau_powers_g1[i], g1(small(tau[i])));
    }
    for i in 0..4 {
        assert_eq!(accum.tau_powers_g2[i], g2(small(tau[i])));
        assert_eq!(accum.alpha_tau_powers_g1[i], g1(small(5 * tau[i])));
        assert_eq!(accum.beta_tau_powers_g1[i], g1(small(7 * tau[i])));
    }
    assert_eq!(accum.beta_g2, g2(small(7)));
}

#[test]
fn contributions_to_uneven_lengths_stop_at_the_shortest() {
    let mut accum = Accumulator::<Bn254>::empty(5, 3);
    accum.alpha_tau_powers_g1.truncate(1);
    accum.contribute_secrets(fr(small(3)), fr(small(5)), fr(small(7)));
    assert_eq!(
        accum.tau_powers_g1,
        vec![g1(small(1)), g1(small(1)), g1(small(1)), g1(small(27)), g1(small(81))]
    );
    assert_eq!(accum.tau_powers_g2, vec![g2(small(1)); 3]);
    assert_eq!(accum.alpha_tau_powers_g1, vec![g1(small(5))]);
    assert_eq!(accum.beta_tau_powers_g1, vec![g1(small(7)), g1(small(1)), g1(small(1))]);
}

#[test]
fn contributions_draw_three_secrets() {
    let seed = [9u8; 32];
    let mut drawn = Accumulator::<Bn254>::empty_from_degree(1).unwrap();
    let mut rng = SeededRng::from_seed(seed);
    drawn.contribute(&mut rng);
    let mut outside = ChaCha20Rng::from_seed(seed);
    let tau = ark_bn254::Fr::rand(&mut outside);
    let alpha = ark_bn254::Fr::rand(&mut outside);
    let beta = ark_bn254::Fr::rand(&mut outside);
    assert_eq!(rng.position, outside.get_word_pos());
    assert_eq!(drawn.tau_powers_g1, vec![g1(small(1)), g1(tau), g1(tau * tau)]);
    assert_eq!(drawn.alpha_tau_powers_g1, vec![g1(alpha), g1(alpha * tau)]);
    assert_eq!(drawn.beta_tau_powers_g1, vec![g1(beta), g1(beta * tau)]);
    assert_eq!(drawn.beta_g2, g2(beta));
}

#[test]
fn two_contributions_are_one_of_the_products() {
    let mut twice = powers(2, 3, 5, 7);
    twice.contribute_secrets(fr(small(11)), fr(small(13)), fr(small(17)));
    assert_eq!(twice, powers(2, 33, 65, 119));
    assert_eq!(twice.check_pow_len(), (true, 7, 4));
}

#[test]
fn preparing_gives_the_lagrange_form() {
    let accum = powers(2, 3, 5, 7);
    let prepared = accum.prepare().unwrap();
    assert_eq!(prepared.check_pow_len(), (true, 4));
    let domain = Radix2EvaluationDomain::<ark_bn254::Fr>::new(4).unwrap();
    let lagrange = domain.evaluate_all_lagrange_coefficients(small(3));
    for i in 0..4 {
        assert_eq!(prepared.tau_lagrange_g1[i].point, g1(lagrange[i]));
        assert_eq!(prepared.tau_lagrange_g2[i].point, g2(lagrange[i]));
        assert_eq!(prepared.alpha_lagrange_g1[i].point, g1(lagrange[i] * small(5)));
        assert_eq!(prepared.beta_lagrange_g1[i].point, g1(lagrange[i] * small(7)));
    }
    assert_eq!(prepared.alpha, g1(small(5)));
    assert_eq!(prepared.beta, g1(small(7)));
    assert_eq!(prepared.beta_g2, g2(small(7)));
    // tau^(i + 4) - tau^i = 80 tau^i
    assert_eq!(prepared.h_query, vec![g1(small(80)), g1(small(240)), g1(small(720))]);
}

#[test]
fn preparing_needs_enough_powers() {
    let accum = Accumulator::<Bn254>::empty_from_degree(2).unwrap();
    assert_eq!(accum.prepare_with_size(5).unwrap_err(), Error::NotEnoughPOTDegree(3));
    assert_eq!(accum.prepare_with_size(3).unwrap().check_pow_len(), (true, 4));
    assert_eq!(
        accum.prepare_with_size((1 << 28) + 1).unwrap_err(),
        Error::ConstraintSystem(SynthesisError::PolynomialDegreeTooLarge)
    );
    // Enough in the second group, not in the first.
    let accum = Accumulator::<Bn254>::empty(6, 4);
    assert_eq!(accum.prepare_with_size(4).unwrap_err(), Error::NotEnoughPOTDegree(2));
    assert_eq!(accum.prepare().unwrap_err(), Error::NotEnoughPOTDegree(2));
}

#[test]
fn preparing_needs_a_power_of_two() {
    let accum = Accumulator::<Bn254>::empty(5, 3);
    assert_eq!(accum.prepare().unwrap_err(), Error::InvalidPOTSize);
    let mut accum = Accumulator::<Bn254>::empty(7, 4);
    accum.beta_tau_powers_g1.pop();
    assert_eq!(accum.prepare().unwrap_err(), Error::InvalidPOTSize);
}

#[test]
fn prepared_lengths_that_do_not_fit_are_found() {
    let good = powers(1, 3, 5, 7).prepare().unwrap();
    assert_eq!(good.check_pow_len(), (true, 2));
    let mut bad = good.clone();
    bad.h_query.pop();
    assert_eq!(bad.check_pow_len(), (false, 2));
    let mut bad = good.clone();
    bad.tau_lagrange_g2.pop();
    assert_eq!(bad.check_pow_len(), (false, 2));
    let mut bad = good;
    bad.tau_lagrange_g1.clear();
    assert_eq!(bad.check_pow_len(), (false, 0));
}

#[test]
fn what_is_saved_is_loaded() {
    let prepared = powers(2, 3, 5, 7).prepare().unwrap();
    let bytes = prepared.save().unwrap();
    // Two points, one of the second group, and five vectors with their lengths.
    let vectors = 3 * (8 + 4 * 32) + (8 + 4 * 64) + (8 + 3 * 32);
    assert_eq!(bytes.len(), 32 + 32 + 64 + vectors);
    assert_eq!(PreparedAccumulator::<Bn254>::load(&bytes).unwrap(), prepared);
    let mut accum = Accumulator::<Bls12_381>::empty_from_degree(1).unwrap();
    accum.contribute(&mut SeededRng::from_seed([1; 32]));
    let prepared = accum.prepare().unwrap();
    let bytes = prepared.save().unwrap();
    assert_eq!(PreparedAccumulator::<Bls12_381>::load(&bytes).unwrap(), prepared);
}

#[test]
fn what_is_cut_off_is_not_loaded() {
    let prepared = powers(1, 3, 5, 7).prepare().unwrap();
    let mut bytes = prepared.save().unwrap();
    bytes.pop();
    for end in 0..bytes.len() {
        let read = PreparedAccumulator::<Bn254>::load(&bytes[..end]);
        assert!(matches!(read, Err(Error::Custom(_))));
    }
    let error = PreparedAccumulator::<Bn254>::load(&bytes).unwrap_err();
    match error {
        Error::Custom(message) => assert!(message.contains("failed to fill whole buffer")),
        _ => panic!("unexpected error: {error:?}"),
    }
}

#[test]
fn elements_and_points_are_the_same() {
    let points = vec![g1(small(3)), g1(small(4))];
    let elements = batch_into_projective(&points);
    assert_eq!(elements[1].point, g1(small(4)));
    assert_eq!(batch_into_affine(&elements), points);
}

#[test]
fn points_are_multiplied_in_batches() {
    let mut points = vec![g1(small(3)), g1(small(4)), <Bn254G1 as AffineRepr>::zero()];
    batch_mul_fixed_scalar(&mut points, fr(small(10)));
    assert_eq!(points, vec![g1(small(30)), g1(small(40)), <Bn254G1 as AffineRepr>::zero()]);
    let inverse = fr(small(10).inverse().unwrap());
    batch_mul_fixed_scalar(&mut points, inverse);
    assert_eq!(points[0], g1(small(3)));
}
