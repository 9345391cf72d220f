use ark_ec::pairing::Pairing as _;
use ark_ec::{AffineRepr as _, CurveGroup, PrimeGroup};
use ark_ff::{BigInt, FftField, Field, PrimeField as _, UniformRand, Zero};
use ark_poly::{EvaluationDomain, Radix2EvaluationDomain};
use rand::SeedableRng;
use rand_chacha::ChaCha20Rng;

use arkworks_phase2::bls12_381::{Bls12381Fr, Bls12381G1, Bls12381G2, Bls12_381};
use arkworks_phase2::bn254::{Bn254, Bn254Fr, Bn254G1, Bn254G2};
use arkworks_phase2::canonical::Canonical;
use arkworks_phase2::curve::{AffineRepr, Pairing, PrimeField, Subtract};
use arkworks_phase2::hasher::HashToCurve;
use arkworks_phase2::rng::SeededRng;
use arkworks_phase2::utils::{
    checked_same_ratio, checked_same_ratio_swap, merge_ratio_affine_vec, same_ratio,
    same_ratio_swap, seeded_rng,
};

fn bn_fr(value: u64) -> Bn254Fr {
    Bn254Fr { limbs: [value, 0, 0, 0] }
}

fn bls_fr(value: u64) -> Bls12381Fr {
    Bls12381Fr { limbs: [value, 0, 0, 0] }
}

fn bn_g1(p: ark_bn254::G1Affine) -> Bn254G1 {
    Bn254G1 { x: p.x.into_bigint().0, y: p.y.into_bigint().0 }
}

fn bn_g2(p: ark_bn254::G2Affine) -> Bn254G2 {
    Bn254G2 {
        x0: p.x.c0.into_bigint().0,
        x1: p.x.c1.into_bigint().0,
        y0: p.y.c0.into_bigint().0,
        y1: p.y.c1.into_bigint().0,
    }
}

fn bls_g1(p: ark_bls12_381::G1Affine) -> Bls12381G1 {
    Bls12381G1 { x: p.x.into_bigint().0, y: p.y.into_bigint().0 }
}

fn bls_g2(p: ark_bls12_381::G2Affine) -> Bls12381G2 {
    Bls12381G2 {
        x0: p.x.c0.into_bigint().0,
        x1: p.x.c1.into_bigint().0,
        y0: p.y.c0.into_bigint().0,
        y1: p.y.c1.into_bigint().0,
    }
}

fn bn_multiple(k: u64) -> ark_bn254::G1Affine {
    (ark_bn254::G1Affine::generator() * ark_bn254::Fr::from(k)).into_affine()
}

fn bn_multiple2(k: u64) -> ark_bn254::G2Affine {
    (ark_bn254::G2Affine::generator() * ark_bn254::Fr::from(k)).into_affine()
}

fn bls_multiple(k: u64) -> ark_bls12_381::G1Affine {
    (ark_bls12_381::G1Affine::generator() * ark_bls12_381::Fr::from(k)).into_affine()
}

fn bls_multiple2(k: u64) -> ark_bls12_381::G2Affine {
    (ark_bls12_381::G2Affine::generator() * ark_bls12_381::Fr::from(k)).into_affine()
}

#[test]
fn generators_have_the_stated_coordinates() {
    assert_eq!(<Bn254G1 as AffineRepr>::generator(), Bn254G1 { x: [1, 0, 0, 0], y: [2, 0, 0, 0] });
    assert_eq!(
        <Bn254G1 as AffineRepr>::generator(),
        bn_g1(ark_bn254::G1Affine::generator())
    );
    let g2 = <Bn254G2 as AffineRepr>::generator();
    assert_eq!(g2, bn_g2(ark_bn254::G2Affine::generator()));
    assert_eq!(
        g2.x0,
        [0x46debd5cd992f6ed, 0x674322d4f75edadd, 0x426a00665e5c4479, 0x1800deef121f1e76]
    );
    assert_eq!(
        <Bls12381G1 as AffineRepr>::generator(),
        bls_g1(ark_bls12_381::G1Affine::generator())
    );
    let g1 = <Bls12381G1 as AffineRepr>::generator();
    assert_eq!(g1.x[5], 0x17f1d3a73197d794);
    let g2 = <Bls12381G2 as AffineRepr>::generator();
    assert_eq!(g2, bls_g2(ark_bls12_381::G2Affine::generator()));
    assert_eq!(g2.x0[5], 0x024aa2b2f08f0a91);
}

#[test]
fn zero_has_zero_coordinates() {
    assert_eq!(<Bn254G1 as AffineRepr>::zero(), Bn254G1 { x: [0; 4], y: [0; 4] });
    assert_eq!(<Bls12381G1 as AffineRepr>::zero(), Bls12381G1 { x: [0; 6], y: [0; 6] });
    let zero = <Bn254G2 as AffineRepr>::zero();
    assert_eq!(zero, Bn254G2 { x0: [0; 4], x1: [0; 4], y0: [0; 4], y1: [0; 4] });
    let zero = <Bls12381G2 as AffineRepr>::zero();
    assert_eq!(zero, Bls12381G2 { x0: [0; 6], x1: [0; 6], y0: [0; 6], y1: [0; 6] });
}

#[test]
fn points_add_subtract_and_multiply() {
    let (a, b) = (bn_g1(bn_multiple(7)), bn_g1(bn_multiple(5)));
    assert_eq!(a.plus(b), bn_g1(bn_multiple(12)));
    assert_eq!(a.minus(b), bn_g1(bn_multiple(2)));
    assert_eq!(a.times(bn_fr(3)), bn_g1(bn_multiple(21)));
    let (a, b) = (bn_g2(bn_multiple2(7)), bn_g2(bn_multiple2(5)));
    assert_eq!(a.plus(b), bn_g2(bn_multiple2(12)));
    assert_eq!(a.times(bn_fr(3)), bn_g2(bn_multiple2(21)));
    let (a, b) = (bls_g1(bls_multiple(7)), bls_g1(bls_multiple(5)));
    assert_eq!(a.plus(b), bls_g1(bls_multiple(12)));
    assert_eq!(a.minus(b), bls_g1(bls_multiple(2)));
    assert_eq!(a.times(bls_fr(3)), bls_g1(bls_multiple(21)));
    let (a, b) = (bls_g2(bls_multiple2(7)), bls_g2(bls_multiple2(5)));
    assert_eq!(a.plus(b), bls_g2(bls_multiple2(12)));
    assert_eq!(a.times(bls_fr(3)), bls_g2(bls_multiple2(21)));
}

#[test]
fn infinity_is_neutral() {
    let a = bn_g1(bn_multiple(7));
    let zero = <Bn254G1 as AffineRepr>::zero();
    assert_eq!(a.plus(zero), a);
    assert_eq!(a.minus(a), zero);
    assert_eq!(a.times(bn_fr(0)), zero);
    let a = bls_g2(bls_multiple2(7));
    let zero = <Bls12381G2 as AffineRepr>::zero();
    assert_eq!(zero.plus(a), a);
    assert_eq!(a.times(bls_fr(0)), zero);
}

#[test]
fn scalars_multiply_and_invert() {
    assert_eq!(bn_fr(6).product(bn_fr(7)), bn_fr(42));
    assert_eq!(bls_fr(6).product(bls_fr(7)), bls_fr(42));
    assert_eq!(Bn254Fr::one(), bn_fr(1));
    assert_eq!(Bls12381Fr::one(), bls_fr(1));
    let inverse = bn_fr(6).inverse().unwrap();
    assert_eq!(inverse.limbs, ark_bn254::Fr::from(6u64).inverse().unwrap().into_bigint().0);
    assert_eq!(inverse.product(bn_fr(6)), bn_fr(1));
    assert!(bn_fr(0).inverse().is_none());
    let inverse = bls_fr(6).inverse().unwrap();
    assert_eq!(inverse.product(bls_fr(6)), bls_fr(1));
    assert!(bls_fr(0).inverse().is_none());
    // The order stands for zero.
    let order = Bn254Fr { limbs: ark_bn254::Fr::MODULUS.0 };
    assert!(order.inverse().is_none());
    assert_eq!(order.product(bn_fr(3)), bn_fr(0));
    let order = Bls12381Fr { limbs: ark_bls12_381::Fr::MODULUS.0 };
    assert!(order.inverse().is_none());
}

#[test]
fn scalars_are_drawn_from_the_key_stream() {
    let seed = [3u8; 32];
    let mut own = SeededRng::from_seed(seed);
    let mut outside = ChaCha20Rng::from_seed(seed);
    for _ in 0..20 {
        let expected = ark_bn254::Fr::rand(&mut outside);
        assert_eq!(Bn254Fr::rand(&mut own).limbs, expected.into_bigint().0);
        assert_eq!(own.position, outside.get_word_pos());
        let expected = ark_bls12_381::Fr::rand(&mut outside);
        assert_eq!(Bls12381Fr::rand(&mut own).limbs, expected.into_bigint().0);
        assert_eq!(own.seed, seed);
    }
}

#[test]
fn points_are_drawn_from_the_key_stream() {
    let seed = [5u8; 32];
    let mut own = SeededRng::from_seed(seed);
    let mut outside = ChaCha20Rng::from_seed(seed);
    let expected = ark_bn254::G1Projective::rand(&mut outside).into_affine();
    assert_eq!(HashToCurve::<Bn254>::hash_g1(&mut own), bn_g1(expected));
    let expected = ark_bn254::G2Projective::rand(&mut outside).into_affine();
    let point = HashToCurve::<Bn254>::hash_g2(&mut own);
    assert_eq!(point, bn_g2(expected));
    assert!(point.check());
    let expected = ark_bls12_381::G1Projective::rand(&mut outside).into_affine();
    let point = HashToCurve::<Bls12_381>::hash_g1(&mut own);
    assert_eq!(point, bls_g1(expected));
    assert!(point.check());
    let expected = ark_bls12_381::G2Projective::rand(&mut outside).into_affine();
    let point = HashToCurve::<Bls12_381>::hash_g2(&mut own);
    assert_eq!(point, bls_g2(expected));
    assert!(point.check());
    assert_eq!(own.position, outside.get_word_pos());
}

#[test]
fn seeds_are_hashes() {
    let rng = seeded_rng(b"seed");
    assert_eq!(rng.seed, *blake3::hash(b"seed").as_bytes());
    assert_eq!(rng.position, 0);
}

#[test]
fn roots_of_unity_are_the_domains() {
    // 5 and 7 generate the multiplicative groups of the scalar fields.
    let exponent = (ark_bn254::Fr::MODULUS, ark_bls12_381::Fr::MODULUS);
    assert_eq!(exponent.0 .0[0] & ((1 << 28) - 1), 1);
    assert_eq!(exponent.1 .0[0] & ((1 << 32) - 1), 1);
    assert_eq!(ark_bn254::Fr::TWO_ADICITY, 28);
    assert_eq!(ark_bls12_381::Fr::TWO_ADICITY, 32);
    let root = ark_bn254::Fr::TWO_ADIC_ROOT_OF_UNITY;
    assert_eq!(
        root.to_string(),
        "19103219067921713944291392827692070036145651957329286315305642004821462161904"
    );
    let root = ark_bls12_381::Fr::TWO_ADIC_ROOT_OF_UNITY;
    assert_eq!(
        root.to_string(),
        "10238227357739495823651030575849232062558860180284477541189508159991286009131"
    );
}

#[test]
fn transforms_evaluate_on_the_domain() {
    // In the domain of 4 elements, c0 + c1 x + c2 x^2 + c3 x^3 at the powers of the generator.
    let coefficients: Vec<u64> = vec![3, 1, 4, 15];
    let root = ark_bn254::Fr::get_root_of_unity(4).unwrap();
    let mut expected = Vec::new();
    for i in 0..4u64 {
        let x = root.pow([i]);
        let mut value = ark_bn254::Fr::zero();
        for (j, c) in coefficients.iter().enumerate() {
            value += ark_bn254::Fr::from(*c) * x.pow([j as u64]);
        }
        expected.push(value);
    }
    let g1: Vec<Bn254G1> = coefficients.iter().map(|c| bn_g1(bn_multiple(*c))).collect();
    let transformed = Bn254G1::fft(&g1);
    for i in 0..4 {
        let point = (ark_bn254::G1Affine::generator() * expected[i]).into_affine();
        assert_eq!(transformed[i], bn_g1(point));
    }
    assert_eq!(Bn254G1::ifft(&transformed), g1);
    let g2: Vec<Bn254G2> = coefficients.iter().map(|c| bn_g2(bn_multiple2(*c))).collect();
    let transformed = Bn254G2::fft(&g2);
    for i in 0..4 {
        let point = (ark_bn254::G2Affine::generator() * expected[i]).into_affine();
        assert_eq!(transformed[i], bn_g2(point));
    }
    assert_eq!(Bn254G2::ifft(&transformed), g2);
}

#[test]
fn transforms_of_the_other_curve_undo_each_other() {
    let values: Vec<u64> = vec![3, 1, 4, 15, 9, 2, 6, 5];
    let domain = Radix2EvaluationDomain::<ark_bls12_381::Fr>::new(8).unwrap();
    let scalars: Vec<ark_bls12_381::Fr> = values.iter().map(|v| (*v).into()).collect();
    let expected = domain.ifft(&scalars);
    let g1: Vec<Bls12381G1> = values.iter().map(|c| bls_g1(bls_multiple(*c))).collect();
    let transformed = Bls12381G1::ifft(&g1);
    for i in 0..8 {
        let point = (ark_bls12_381::G1Projective::generator() * expected[i]).into_affine();
        assert_eq!(transformed[i], bls_g1(point));
    }
    assert_eq!(Bls12381G1::fft(&transformed), g1);
    let g2: Vec<Bls12381G2> = values.iter().map(|c| bls_g2(bls_multiple2(*c))).collect();
    assert_eq!(Bls12381G2::fft(&Bls12381G2::ifft(&g2)), g2);
    assert_eq!(Bls12381G2::ifft(&Bls12381G2::fft(&g2)), g2);
}

#[test]
fn a_transform_of_one_point_is_that_point() {
    let points = vec![bn_g1(bn_multiple(9))];
    assert_eq!(Bn254G1::fft(&points), points);
    assert_eq!(Bn254G1::ifft(&points), points);
}

#[test]
fn domains_have_powers_of_two() {
    assert_eq!(Bn254Fr::domain_size(0), Some(1));
    assert_eq!(Bn254Fr::domain_size(1), Some(1));
    assert_eq!(Bn254Fr::domain_size(5), Some(8));
    assert_eq!(Bn254Fr::domain_size(1 << 28), Some(1 << 28));
    assert_eq!(Bn254Fr::domain_size((1 << 28) + 1), None);
    assert_eq!(Bn254Fr::domain_size(usize::MAX), None);
    assert_eq!(Bls12381Fr::domain_size(1 << 32), Some(1 << 32));
    assert_eq!(Bls12381Fr::domain_size((1 << 32) + 1), None);
}

#[test]
fn pairings_compare_products_of_logarithms() {
    let g1 = |k| bn_g1(bn_multiple(k));
    let g2 = |k| bn_g2(bn_multiple2(k));
    assert_eq!(Bn254::same_pairing(g1(6), g2(2), g1(3), g2(4)), Some(true));
    assert_eq!(Bn254::same_pairing(g1(6), g2(2), g1(3), g2(5)), Some(false));
    assert!(same_ratio::<Bn254>((g1(6), g2(2)), (g1(3), g2(4))));
    // 3 to 6 as 5 to 10
    assert!(same_ratio_swap::<Bn254>((g1(3), g1(6)), (g2(5), g2(10))));
    assert!(!same_ratio_swap::<Bn254>((g1(3), g1(6)), (g2(10), g2(5))));
    let g1 = |k| bls_g1(bls_multiple(k));
    let g2 = |k| bls_g2(bls_multiple2(k));
    assert_eq!(Bls12_381::same_pairing(g1(6), g2(2), g1(3), g2(4)), Some(true));
    assert_eq!(Bls12_381::same_pairing(g1(6), g2(2), g1(3), g2(5)), Some(false));
    let zero = <Bls12381G1 as AffineRepr>::zero();
    assert_eq!(
        Bls12_381::same_pairing(zero, g2(2), g1(3), <Bls12381G2 as AffineRepr>::zero()),
        Some(true)
    );
    let expected = ark_bls12_381::Bls12_381::pairing(bls_multiple(6), bls_multiple2(2))
        == ark_bls12_381::Bls12_381::pairing(bls_multiple(3), bls_multiple2(4));
    assert!(expected);
}

/// A point of the curve outside the group.
fn bls_outside() -> ark_bls12_381::G1Affine {
    (0..100u64)
        .map(ark_bls12_381::Fq::from)
        .filter_map(|x| ark_bls12_381::G1Affine::get_point_from_x_unchecked(x, false))
        .find(|p| !p.is_in_correct_subgroup_assuming_on_curve())
        .unwrap()
}

#[test]
fn pairings_outside_the_groups_are_compared_where_they_are_defined() {
    let p = bls_outside();
    let double = (p + p).into_affine();
    let g2 = |k| bls_g2(bls_multiple2(k));
    let pair = |p, k| ark_bls12_381::Bls12_381::pairing(p, bls_multiple2(k));
    for (first, second) in [((p, 2), (double, 1)), ((p, 2), (double, 3)), ((p, 5), (p, 5))] {
        let expected = pair(first.0, first.1) == pair(second.0, second.1);
        let lhs = (bls_g1(first.0), g2(first.1));
        let rhs = (bls_g1(second.0), g2(second.1));
        assert_eq!(checked_same_ratio::<Bls12_381>(lhs, rhs), Some(expected));
        assert_eq!(same_ratio::<Bls12_381>(lhs, rhs), expected);
    }
    // A point that is not on the curve, with a Miller loop that does not end in zero.
    let (off, q) = (ark_bn254::G1Affine::new_unchecked(1u64.into(), 1u64.into()), bn_multiple2(3));
    let expected = ark_bn254::Bn254::pairing(off, q) == ark_bn254::Bn254::pairing(bn_multiple(3), q);
    assert_eq!(
        checked_same_ratio::<Bn254>((bn_g1(off), bn_g2(q)), (bn_g1(bn_multiple(3)), bn_g2(q))),
        Some(expected)
    );
}

#[test]
fn pairings_that_are_not_defined_are_not_compared() {
    // Points with second coordinate 0: their Miller loops end in zero.
    let (g1, g2) = (bn_g1(bn_multiple(1)), bn_g2(bn_multiple2(1)));
    let zero = Bn254G2 { x0: [1, 0, 0, 0], x1: [0; 4], y0: [0; 4], y1: [0; 4] };
    assert_eq!(Bn254::same_pairing(g1, zero, g1, g2), None);
    assert_eq!(Bn254::same_pairing(g1, g2, g1, zero), None);
    assert_eq!(checked_same_ratio::<Bn254>((g1, g2), (g1, zero)), None);
    assert_eq!(checked_same_ratio_swap::<Bn254>((g1, g1), (zero, g2)), None);
    assert_eq!(checked_same_ratio_swap::<Bn254>((g1, g1), (g2, g2)), Some(true));
    let (g1, g2) = (bls_g1(bls_multiple(1)), bls_g2(bls_multiple2(1)));
    let zero = Bls12381G2 { x0: [1, 0, 0, 0, 0, 0], x1: [0; 6], y0: [0; 6], y1: [0; 6] };
    assert_eq!(Bls12_381::same_pairing(g1, zero, g1, g2), None);
    assert_eq!(checked_same_ratio::<Bls12_381>((g1, g2), (g1, g2)), Some(true));
}

#[test]
fn merges_keep_ratios_on_the_whole_curve() {
    let p = bls_outside();
    let third = ark_bls12_381::G1Affine::new_unchecked(0u64.into(), 2u64.into());
    assert!(third.is_on_curve() && !third.is_in_correct_subgroup_assuming_on_curve());
    let points = [p, third, bls_multiple(5), (p + third).into_affine(), -p];
    let ratio = ark_bls12_381::Fr::from(1_000_003u64);
    let times = |p: ark_bls12_381::G1Affine| (p * ratio).into_affine();
    let left: Vec<_> = points.iter().map(|p| bls_g1(*p)).collect();
    let right: Vec<_> = points.iter().map(|p| bls_g1(times(*p))).collect();
    let (l, r) = merge_ratio_affine_vec(&left, &right);
    assert!(!l.check());
    assert_eq!(l.times(Bls12381Fr { limbs: ratio.into_bigint().0 }), r);
    assert_ne!(l.times(bls_fr(1_000_004)), r);
}

#[test]
fn multiplication_distributes_on_the_whole_curve() {
    let (a, b) = (bls_g1(bls_outside()), bls_g1(bls_multiple(5)));
    let (j, k) = (bls_fr(1_000_003), bls_fr(97));
    assert_eq!(a.plus(b).times(k), a.times(k).plus(b.times(k)));
    assert_eq!(a.times(j).times(k), a.times(k).times(j));
    let twist = (0..100u64)
        .map(|x| ark_bn254::Fq2::new(x.into(), 1u64.into()))
        .filter_map(|x| ark_bn254::G2Affine::get_point_from_x_unchecked(x, false))
        .find(|p| !p.is_in_correct_subgroup_assuming_on_curve())
        .unwrap();
    let (a, b) = (bn_g2(twist), bn_g2(bn_multiple2(5)));
    let (j, k) = (bn_fr(1_000_003), bn_fr(97));
    assert_eq!(a.plus(b).times(k), a.times(k).plus(b.times(k)));
    assert_eq!(a.times(j).times(k), a.times(k).times(j));
}

#[test]
fn membership_is_checked() {
    assert!(bn_g1(bn_multiple(3)).check());
    assert!(<Bn254G1 as AffineRepr>::zero().check());
    assert!(!Bn254G1 { x: [1, 0, 0, 0], y: [3, 0, 0, 0] }.check());
    // The generator with an unreduced coordinate.
    let mut x = ark_bn254::Fq::MODULUS.0;
    x[0] += 1;
    assert!(!Bn254G1 { x, y: [2, 0, 0, 0] }.check());
    assert!(bls_g1(bls_multiple(3)).check());
    // On the curve, but not in the group.
    let point = bls_g1(bls_outside());
    assert!(!point.check());
    assert!(!bls_g2(ark_bls12_381::G2Affine::new_unchecked(
        ark_bls12_381::Fq2::new(
            ark_bls12_381::Fq::new(BigInt([1, 0, 0, 0, 0, 0])),
            ark_bls12_381::Fq::zero(),
        ),
        ark_bls12_381::Fq2::new(
            ark_bls12_381::Fq::new(BigInt([1, 0, 0, 0, 0, 0])),
            ark_bls12_381::Fq::zero(),
        ),
    ))
    .check());
    assert!(bls_g2(bls_multiple2(5)).check());
    assert!(bn_g2(bn_multiple2(5)).check());
    let mut unreduced = bn_g2(bn_multiple2(5));
    unreduced.x0 = [u64::MAX; 4];
    assert!(!unreduced.check());
}

#[test]
fn operations_outside_the_group_are_the_curves() {
    // A point of the curve outside the group still adds and multiplies on the curve.
    let p = bls_outside();
    let sum = (p + p).into_affine();
    assert_eq!(bls_g1(p).plus(bls_g1(p)), bls_g1(sum));
    assert_eq!(bls_g1(sum).minus(bls_g1(p)), bls_g1(p));
    assert_eq!(bls_g1(p).times(bls_fr(2)), bls_g1(sum));
}

#[test]
fn points_equal_by_their_coordinates() {
    let a = bn_g2(bn_multiple2(5));
    assert!(a.equals(&bn_g2(bn_multiple2(5))));
    let mut b = a;
    b.y1[3] ^= 1;
    assert!(!a.equals(&b));
    let a = bls_g1(bls_multiple(5));
    assert!(a.equals(&a));
    assert!(!a.equals(&bls_g1(bls_multiple(6))));
}

#[test]
fn orders_are_the_scalar_fields() {
    assert_eq!(Bn254Fr::modulus(), ark_bn254::Fr::MODULUS.0);
    assert_eq!(Bls12381Fr::modulus(), ark_bls12_381::Fr::MODULUS.0);
    assert_eq!(
        Bn254Fr::modulus(),
        [0x43e1f593f0000001, 0x2833e84879b97091, 0xb85045b68181585d, 0x30644e72e131a029]
    );
}

#[test]
fn encodings_have_fixed_lengths() {
    for (compress, g1, g2) in [(true, 32, 64), (false, 64, 128)] {
        for k in [0u64, 1, 9] {
            let mut bytes = Vec::new();
            bn_g1(bn_multiple(k)).serialize_with_mode(compress, &mut bytes).unwrap();
            assert_eq!(bytes.len(), g1);
            assert!(Bn254G1::deserialize_with_mode(&bytes[..g1 - 1], compress, false).is_err());
            let mut bytes = Vec::new();
            bn_g2(bn_multiple2(k)).serialize_with_mode(compress, &mut bytes).unwrap();
            assert_eq!(bytes.len(), g2);
            assert!(Bn254G2::deserialize_with_mode(&bytes[..g2 - 1], compress, false).is_err());
        }
    }
    for (compress, g1, g2) in [(true, 48, 96), (false, 96, 192)] {
        for k in [0u64, 1, 9] {
            let mut bytes = Vec::new();
            bls_g1(bls_multiple(k)).serialize_with_mode(compress, &mut bytes).unwrap();
            assert_eq!(bytes.len(), g1);
            assert!(Bls12381G1::deserialize_with_mode(&bytes[..g1 - 1], compress, false).is_err());
            let mut bytes = Vec::new();
            bls_g2(bls_multiple2(k)).serialize_with_mode(compress, &mut bytes).unwrap();
            assert_eq!(bytes.len(), g2);
            assert!(Bls12381G2::deserialize_with_mode(&bytes[..g2 - 1], compress, false).is_err());
        }
    }
}
