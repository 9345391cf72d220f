use ark_ec::{AffineRepr as _, CurveGroup};
use ark_ff::{Field, PrimeField as _, UniformRand};
use ark_serialize::CanonicalSerialize;
use rand::SeedableRng;
use rand_chacha::ChaCha20Rng;

use arkworks_phase2::bn254::{Bn254, Bn254Fr, Bn254G1, Bn254G2};
use arkworks_phase2::error::Error;
use arkworks_phase2::hasher::HashToCurve;
use arkworks_phase2::key::{FullKey, PartialKey, ProvingKey, VerifyingKey};
use arkworks_phase2::ratio::RatioProof;
use arkworks_phase2::rng::SeededRng;
use arkworks_phase2::transcript::Transcript;
use arkworks_phase2::utils::{
    merge_ratio_affine_vec, same_ratio, same_ratio_swap, seeded_rng, serialize,
};

fn small(value: u64) -> ark_bn254::Fr {
    ark_bn254::Fr::from(value)
}

fn fr(value: ark_bn254::Fr) -> Bn254Fr {
    Bn254Fr { limbs: value.into_bigint().0 }
}

fn one(value: ark_bn254::Fr) -> ark_bn254::G1Affine {
    (ark_bn254::G1Affine::generator() * value).into_affine()
}

fn own_g1(p: ark_bn254::G1Affine) -> Bn254G1 {
    Bn254G1 { x: p.x.into_bigint().0, y: p.y.into_bigint().0 }
}

fn own_g2(p: ark_bn254::G2Affine) -> Bn254G2 {
    Bn254G2 {
        x0: p.x.c0.into_bigint().0,
        x1: p.x.c1.into_bigint().0,
        y0: p.y.c0.into_bigint().0,
        y1: p.y.c1.into_bigint().0,
    }
}

fn g1(value: u64) -> Bn254G1 {
    own_g1(one(small(value)))
}

fn g2(value: u64) -> Bn254G2 {
    own_g2((ark_bn254::G2Affine::generator() * small(value)).into_affine())
}

fn partial() -> PartialKey<Bn254> {
    PartialKey {
        delta_g1: g1(1),
        delta_g2: g2(1),
        h_query: vec![g1(20), g1(21)],
        l_query: vec![g1(30), g1(31), g1(32)],
    }
}

fn full() -> FullKey<Bn254> {
    FullKey {
        key: ProvingKey {
            vk: VerifyingKey {
                alpha_g1: g1(2),
                beta_g2: g2(3),
                gamma_g2: g2(4),
                delta_g2: g2(1),
                gamma_abc_g1: vec![g1(5)],
            },
            beta_g1: g1(3),
            delta_g1: g1(1),
            a_query: vec![g1(6)],
            b_g1_query: vec![g1(7)],
            b_g2_query: vec![g2(8)],
            h_query: vec![g1(20), g1(21)],
            l_query: vec![g1(30), g1(31), g1(32)],
        },
    }
}

fn compressed<T: CanonicalSerialize>(value: &T) -> Vec<u8> {
    let mut out = Vec::new();
    value.serialize_compressed(&mut out).unwrap();
    out
}

#[test]
fn partial_keys_are_taken_out_of_keys() {
    assert_eq!(PartialKey::from(&full()), partial());
    assert_eq!(PartialKey::from(full()), partial());
    assert_eq!(PartialKey::from(&full().key), partial());
    assert_eq!(PartialKey::from(full().key), partial());
    assert_eq!(ProvingKey::from(full()), full().key);
    assert_eq!(FullKey::from(full().key), full());
}

#[test]
fn keys_equal_their_part() {
    assert!(full() == partial());
    let mut other = partial();
    other.delta_g1 = g1(9);
    assert!(full() != other);
    let mut other = partial();
    other.delta_g2 = g2(9);
    assert!(full() != other);
    let mut other = partial();
    other.h_query[1] = g1(9);
    assert!(full() != other);
    let mut other = partial();
    other.l_query.pop();
    assert!(full() != other);
}

#[test]
fn challenges_are_the_encoded_deltas() {
    let mut expected = serialize(&g1(1)).unwrap();
    expected.extend_from_slice(&serialize(&g2(1)).unwrap());
    assert_eq!(expected.len(), 96);
    assert_eq!(partial().challenge(), Ok(expected.clone()));
    assert_eq!(full().challenge(), Ok(expected));
}

#[test]
fn contributions_change_partial_keys() {
    let mut key = partial();
    let made = key.contribute(fr(small(11))).unwrap();
    let inverse = small(11).inverse().unwrap();
    assert_eq!(key.delta_g1, g1(11));
    assert_eq!(key.delta_g2, g2(11));
    assert_eq!(key.h_query[1], own_g1(one(small(21) * inverse)));
    assert_eq!(key.l_query[2], own_g1(one(small(32) * inverse)));
    assert_eq!(made.point, g1(11));
    assert_eq!(made.get_g1(), (g1(1), g1(11)));
    let challenge = partial().challenge().unwrap();
    assert_eq!(made.verify(&challenge), Ok(true));
    assert_eq!(made.checked_verify(&challenge), Some(Ok(true)));
    assert_eq!(made.verify(b"another challenge"), Ok(false));
    assert_eq!(Transcript::verify_key_transform(&partial(), &key, &made), Ok(()));
    assert_eq!(
        Transcript::checked_verify_key_transform(&partial(), &key, &made),
        Some(Ok(()))
    );
}

#[test]
fn two_contributions_to_a_key_are_one_of_the_product() {
    let mut twice = partial();
    twice.contribute(fr(small(11))).unwrap();
    twice.contribute(fr(small(13))).unwrap();
    let mut once = partial();
    once.contribute(fr(small(143))).unwrap();
    assert_eq!(twice, once);
}

#[test]
fn contributions_to_partial_keys_are_drawn() {
    let seed = *blake3::hash(b"seed").as_bytes();
    let mut outside = ChaCha20Rng::from_seed(seed);
    let delta = ark_bn254::Fr::rand(&mut outside);
    let mut expected = partial();
    let expected_proof = expected.contribute(fr(delta));

    let mut key = partial();
    assert_eq!(key.contribute_seed(b"seed"), expected_proof);
    assert_eq!(key, expected);
    let mut key = partial();
    assert_eq!(key.checked_contribute_seed(b"seed"), Some(expected_proof.clone()));
    assert_eq!(key, expected);
    let mut key = partial();
    let mut rng = SeededRng::from_seed(seed);
    assert_eq!(key.contribute_rng(&mut rng), expected_proof);
    assert_eq!(key, expected);
    assert_eq!(rng.position, outside.get_word_pos());
    let mut key = partial();
    let mut rng = SeededRng::from_seed(seed);
    assert_eq!(key.checked_contribute_rng(&mut rng), Some(expected_proof));
    assert_eq!(rng.position, outside.get_word_pos());
}

#[test]
fn other_transforms_are_refused() {
    let prev = partial();
    let mut next = partial();
    let made = next.contribute(fr(small(11))).unwrap();
    let verify = |next: &PartialKey<Bn254>, made: &RatioProof<Bn254>| {
        Transcript::verify_key_transform(&prev, next, made)
    };
    let mut changed = next.clone();
    changed.delta_g1 = g1(12);
    assert_eq!(verify(&changed, &made), Err(Error::InvalidRatioProof));
    let mut changed = next.clone();
    changed.delta_g2 = g2(12);
    assert_eq!(verify(&changed, &made), Err(Error::InvalidRatioProof));
    let mut other = made;
    other.point = g1(12);
    assert_eq!(verify(&next, &other), Err(Error::InvalidRatioProof));
    let mut changed = next.clone();
    changed.h_query[0] = g1(12);
    assert_eq!(verify(&changed, &made), Err(Error::InconsistentHChange));
    let mut changed = next.clone();
    changed.l_query[2] = g1(12);
    assert_eq!(verify(&changed, &made), Err(Error::InconsistentLChange));
    // A proof that does not hold for the challenge of the key before.
    let mut other = made;
    other.matching_point = g2(12);
    assert_eq!(other.verify(&prev.challenge().unwrap()), Ok(false));
    assert_eq!(verify(&next, &other), Err(Error::InvalidRatioProof));
    let other = RatioProof::generate(fr(small(11)), b"another challenge").unwrap();
    assert_eq!(other.point, made.point);
    assert_eq!(verify(&next, &other), Err(Error::InvalidRatioProof));
    let mut changed = next.clone();
    changed.l_query.pop();
    assert_eq!(Transcript::checked_verify_key_transform(&prev, &changed, &made), None);
    // Not on the curve.
    let mut changed = next;
    changed.h_query[0] = Bn254G1 { x: [1, 0, 0, 0], y: [1, 0, 0, 0] };
    assert_eq!(
        Transcript::checked_verify_key_transform(&prev, &changed, &made),
        Some(Err(Error::InconsistentHChange))
    );
}

#[test]
fn transforms_are_refused_the_other_way_round() {
    let prev = partial();
    let mut next = partial();
    let made = next.contribute(fr(small(11))).unwrap();
    let refused = Err(Error::InvalidRatioProof);
    assert_eq!(Transcript::verify_key_transform(&next, &prev, &made), refused);
    assert_eq!(Transcript::verify_key_transform(&prev, &prev, &made), refused);
    let mut h = next.clone();
    h.h_query = prev.h_query.clone();
    assert_eq!(
        Transcript::verify_key_transform(&prev, &h, &made),
        Err(Error::InconsistentHChange)
    );
    let mut l = next;
    l.l_query = prev.l_query.clone();
    assert_eq!(
        Transcript::verify_key_transform(&prev, &l, &made),
        Err(Error::InconsistentLChange)
    );
    // The negative of one is its own inverse, but it has to be proved for the other challenge.
    let mut next = partial();
    let made = next.contribute(fr(-small(1))).unwrap();
    assert_eq!(Transcript::verify_key_transform(&next, &prev, &made), refused);
    let back = RatioProof::generate(fr(-small(1)), &next.challenge().unwrap()).unwrap();
    assert_eq!(Transcript::verify_key_transform(&next, &prev, &back), Ok(()));
}

#[test]
fn transforms_are_verified_as_far_as_they_hold() {
    let prev = partial();
    let mut next = partial();
    let made = next.contribute(fr(small(11))).unwrap();
    // A point without a pairing.
    let unpaired = Bn254G2 { x0: [1, 0, 0, 0], x1: [0; 4], y0: [0; 4], y1: [0; 4] };
    let verify = |next: &PartialKey<Bn254>| {
        Transcript::checked_verify_key_transform(&prev, next, &made)
    };
    let mut changed = next.clone();
    changed.delta_g2 = g2(12);
    changed.h_query.pop();
    assert_eq!(verify(&changed), Some(Err(Error::InvalidRatioProof)));
    let mut changed = next.clone();
    changed.delta_g2 = unpaired;
    assert_eq!(verify(&changed), None);
    let mut other = made;
    other.matching_point = g2(12);
    assert_eq!(
        Transcript::checked_verify_key_transform(&prev, &changed, &other),
        Some(Err(Error::InvalidRatioProof))
    );
    other.matching_point = unpaired;
    assert_eq!(other.checked_verify(b"challenge"), None);
    assert_eq!(Transcript::checked_verify_key_transform(&prev, &next, &other), None);
    let mut changed = next;
    changed.h_query[0] = g1(12);
    changed.l_query.pop();
    assert_eq!(verify(&changed), Some(Err(Error::InconsistentHChange)));
}

#[test]
fn proofs_match_a_point_drawn_from_the_challenge() {
    let made = RatioProof::<Bn254>::generate(fr(small(11)), b"challenge").unwrap();
    let mut input = b"challenge".to_vec();
    input.extend_from_slice(&compressed(&one(small(1))));
    input.extend_from_slice(&compressed(&one(small(11))));
    let mut rng = ChaCha20Rng::from_seed(*blake3::hash(&input).as_bytes());
    let drawn = ark_bn254::G2Projective::rand(&mut rng);
    assert_eq!(made.matching_point, own_g2((drawn * small(11)).into_affine()));
    assert_eq!(made.verify(b"challenge"), Ok(true));
    let zero = RatioProof::<Bn254>::generate(fr(small(0)), b"challenge").unwrap();
    assert_eq!(zero.verify(b"challenge"), Ok(true));
}

#[test]
fn points_are_drawn_as_outside() {
    let mut own = seeded_rng(b"points");
    let mut outside = ChaCha20Rng::from_seed(*blake3::hash(b"points").as_bytes());
    let p = ark_bn254::G1Projective::rand(&mut outside).into_affine();
    assert_eq!(HashToCurve::<Bn254>::hash_g1(&mut own), own_g1(p));
    let q = ark_bn254::G2Projective::rand(&mut outside).into_affine();
    assert_eq!(HashToCurve::<Bn254>::hash_g2(&mut own), own_g2(q));
    assert_eq!(own.position, outside.get_word_pos());
}

#[test]
fn ratios_are_compared_by_pairings() {
    assert!(same_ratio::<Bn254>((g1(6), g2(5)), (g1(10), g2(3))));
    assert!(!same_ratio::<Bn254>((g1(6), g2(5)), (g1(10), g2(4))));
    assert!(same_ratio_swap::<Bn254>((g1(2), g1(6)), (g2(5), g2(15))));
    assert!(!same_ratio_swap::<Bn254>((g1(2), g1(6)), (g2(15), g2(5))));
    assert!(same_ratio::<Bn254>((g1(0), g2(5)), (g1(7), g2(0))));
}

/// The merge of two vectors that are `factor` times one another.
fn check_merge(len: usize) {
    let left: Vec<_> = (0..len as u64).map(|i| small(i * i + 3)).collect();
    let right: Vec<_> = (0..len as u64).map(|i| small(5 * i + 1)).collect();
    let mut hasher = blake3::Hasher::new();
    let indices: Vec<usize> = if len <= 16 {
        (0..len).collect()
    } else {
        (0..16).map(|i| i * len / 16).collect()
    };
    for i in indices {
        hasher.update(&compressed(&one(left[i])));
        hasher.update(&compressed(&one(right[i])));
    }
    hasher.update(&(len as u64).to_le_bytes());
    let mut rng = ChaCha20Rng::from_seed(*hasher.finalize().as_bytes());
    let (mut l, mut r) = (small(0), small(0));
    for i in 0..len {
        let s = ark_bn254::Fr::rand(&mut rng);
        l += left[i] * s;
        r += right[i] * s;
    }
    let points = |values: &[ark_bn254::Fr]| {
        values.iter().map(|value| own_g1(one(*value))).collect::<Vec<_>>()
    };
    assert_eq!(
        merge_ratio_affine_vec(&points(&left), &points(&right)),
        (own_g1(one(l)), own_g1(one(r)))
    );
}

#[test]
fn merges_combine_by_drawn_scalars() {
    for len in [0, 1, 2, 15, 16, 17, 40] {
        check_merge(len);
    }
}

#[test]
fn the_same_merges_to_the_same() {
    let points: Vec<_> = (1..20).map(g1).collect();
    let (l, r) = merge_ratio_affine_vec(&points, &points);
    assert_eq!(l, r);
    assert_eq!(merge_ratio_affine_vec::<Bn254G1>(&[], &[]), (g1(0), g1(0)));
}

#[test]
fn merges_keep_ratios() {
    let right: Vec<_> = (1..20).map(g1).collect();
    let left: Vec<_> = (1..20).map(|i| g1(6 * i)).collect();
    let (l, r) = merge_ratio_affine_vec(&left, &right);
    assert!(same_ratio_swap::<Bn254>((r, l), (g2(1), g2(6))));
    assert!(!same_ratio_swap::<Bn254>((r, l), (g2(1), g2(7))));
}
