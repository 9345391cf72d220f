use ark_ec::{AffineRepr as _, CurveGroup};
use ark_ff::PrimeField as _;
use ark_serialize::{CanonicalDeserialize, CanonicalSerialize, SerializationError};

use arkworks_phase2::bls12_381::{Bls12381G1, Bls12381G2};
use arkworks_phase2::bn254::{Bn254, Bn254G1, Bn254G2};
use arkworks_phase2::canonical::Canonical;
use arkworks_phase2::curve::AffineRepr;
use arkworks_phase2::error::Error;
use arkworks_phase2::keypair::PublicKey;
use arkworks_phase2::ratio::RatioProof;
use arkworks_phase2::transcript::Transcript;
use arkworks_phase2::utils::{serialize, serialize_uncompressed};

fn bn_multiple(k: u64) -> ark_bn254::G1Affine {
    (ark_bn254::G1Affine::generator() * ark_bn254::Fr::from(k)).into_affine()
}

fn bn_multiple2(k: u64) -> ark_bn254::G2Affine {
    (ark_bn254::G2Affine::generator() * ark_bn254::Fr::from(k)).into_affine()
}

fn bls_multiple(k: u64) -> ark_bls12_381::G1Affine {
    (ark_bls12_381::G1Affine::generator() * ark_bls12_381::Fr::from(k)).into_affine()
}

fn bls_multiple2(k: u64) -> ark_bls12_381::G2Affine {
    (ark_bls12_381::G2Affine::generator() * ark_bls12_381::Fr::from(k)).into_affine()
}

fn bn_g1(k: u64) -> Bn254G1 {
    let p = bn_multiple(k);
    Bn254G1 { x: p.x.into_bigint().0, y: p.y.into_bigint().0 }
}

fn bn_g2(k: u64) -> Bn254G2 {
    let p = bn_multiple2(k);
    Bn254G2 {
        x0: p.x.c0.into_bigint().0,
        x1: p.x.c1.into_bigint().0,
        y0: p.y.c0.into_bigint().0,
        y1: p.y.c1.into_bigint().0,
    }
}

fn bls_g1(k: u64) -> Bls12381G1 {
    let p = bls_multiple(k);
    Bls12381G1 { x: p.x.into_bigint().0, y: p.y.into_bigint().0 }
}

fn bls_g2(k: u64) -> Bls12381G2 {
    let p = bls_multiple2(k);
    Bls12381G2 {
        x0: p.x.c0.into_bigint().0,
        x1: p.x.c1.into_bigint().0,
        y0: p.y.c0.into_bigint().0,
        y1: p.y.c1.into_bigint().0,
    }
}

fn compressed<T: CanonicalSerialize>(value: &T) -> Vec<u8> {
    let mut out = Vec::new();
    value.serialize_compressed(&mut out).unwrap();
    out
}

fn uncompressed<T: CanonicalSerialize>(value: &T) -> Vec<u8> {
    let mut out = Vec::new();
    value.serialize_uncompressed(&mut out).unwrap();
    out
}

#[test]
fn points_are_encoded_as_outside() {
    assert_eq!(serialize(&bn_g1(5)).unwrap(), compressed(&bn_multiple(5)));
    assert_eq!(serialize(&bn_g1(5)).unwrap().len(), 32);
    assert_eq!(serialize_uncompressed(&bn_g1(5)).unwrap(), uncompressed(&bn_multiple(5)));
    assert_eq!(serialize(&bn_g2(5)).unwrap(), compressed(&bn_multiple2(5)));
    assert_eq!(serialize_uncompressed(&bn_g2(5)).unwrap(), uncompressed(&bn_multiple2(5)));
    assert_eq!(serialize(&bls_g1(5)).unwrap(), compressed(&bls_multiple(5)));
    assert_eq!(serialize(&bls_g1(5)).unwrap().len(), 48);
    assert_eq!(serialize_uncompressed(&bls_g1(5)).unwrap(), uncompressed(&bls_multiple(5)));
    assert_eq!(serialize(&bls_g2(5)).unwrap(), compressed(&bls_multiple2(5)));
    assert_eq!(serialize_uncompressed(&bls_g2(5)).unwrap(), uncompressed(&bls_multiple2(5)));
}

#[test]
fn points_are_read_back() {
    for compress in [true, false] {
        for validate in [true, false] {
            for k in [0u64, 1, 2, 77] {
                let mut bytes = Vec::new();
                bn_g1(k).serialize_with_mode(compress, &mut bytes).unwrap();
                let length = bytes.len();
                bytes.extend_from_slice(&[9, 9, 9]);
                let read = Bn254G1::deserialize_with_mode(&bytes, compress, validate);
                assert_eq!(read, Ok((bn_g1(k), length)));

                let mut bytes = Vec::new();
                bn_g2(k).serialize_with_mode(compress, &mut bytes).unwrap();
                let read = Bn254G2::deserialize_with_mode(&bytes, compress, validate);
                assert_eq!(read, Ok((bn_g2(k), bytes.len())));

                let mut bytes = Vec::new();
                bls_g1(k).serialize_with_mode(compress, &mut bytes).unwrap();
                let length = bytes.len();
                bytes.push(1);
                let read = Bls12381G1::deserialize_with_mode(&bytes, compress, validate);
                assert_eq!(read, Ok((bls_g1(k), length)));

                let mut bytes = Vec::new();
                bls_g2(k).serialize_with_mode(compress, &mut bytes).unwrap();
                let read = Bls12381G2::deserialize_with_mode(&bytes, compress, validate);
                assert_eq!(read, Ok((bls_g2(k), bytes.len())));
            }
        }
    }
}

#[test]
fn bad_points_are_refused() {
    let invalid = SerializationError::InvalidData.to_string();
    assert_eq!(
        Bn254G1::deserialize_with_mode(&[0u8; 5], true, true),
        Err(ark_bn254::G1Affine::deserialize_compressed(&[0u8; 5][..]).unwrap_err().to_string())
    );
    assert_eq!(Bls12381G1::deserialize_with_mode(&[0u8; 5], true, true), Err(invalid.clone()));
    // Not on the curve.
    let mut bytes = Vec::new();
    bn_g1(3).serialize_with_mode(false, &mut bytes).unwrap();
    bytes[32] ^= 1;
    assert_eq!(Bn254G1::deserialize_with_mode(&bytes, false, true), Err(invalid));
    assert!(Bn254G1::deserialize_with_mode(&bytes, false, false).is_ok());
}

#[test]
fn vectors_are_encoded_as_outside() {
    let own: Vec<Bn254G1> = vec![bn_g1(1), bn_g1(2), bn_g1(3)];
    let outside = vec![bn_multiple(1), bn_multiple(2), bn_multiple(3)];
    let bytes = serialize(&own).unwrap();
    assert_eq!(bytes, compressed(&outside));
    assert_eq!(bytes[..8], [3, 0, 0, 0, 0, 0, 0, 0]);
    assert_eq!(serialize_uncompressed(&own).unwrap(), uncompressed(&outside));
    let read = Vec::<Bn254G1>::deserialize_with_mode(&bytes, true, true);
    assert_eq!(read, Ok((own, bytes.len())));
    let empty: Vec<Bn254G1> = Vec::new();
    assert_eq!(serialize(&empty).unwrap(), vec![0u8; 8]);
}

#[test]
fn bad_vectors_are_refused_as_outside() {
    let outside = vec![bn_multiple(1), bn_multiple(2)];
    let bytes = compressed(&outside);
    // Cut off in the length, and in an element.
    for end in [0, 7, 8, 30, 50] {
        let own = Vec::<Bn254G1>::deserialize_with_mode(&bytes[..end], true, true);
        let theirs = Vec::<ark_bn254::G1Affine>::deserialize_compressed(&bytes[..end]);
        assert_eq!(own.unwrap_err(), theirs.unwrap_err().to_string());
    }
    // An element that is not in the group.
    let mut bytes = uncompressed(&outside);
    bytes[8 + 32] ^= 1;
    let own = Vec::<Bn254G1>::deserialize_with_mode(&bytes, false, true);
    let theirs = Vec::<ark_bn254::G1Affine>::deserialize_uncompressed(&bytes[..]);
    assert_eq!(own.unwrap_err(), theirs.unwrap_err().to_string());
    assert!(Vec::<Bn254G1>::deserialize_with_mode(&bytes, false, false).is_ok());
}

#[test]
fn byte_arrays_are_encoded_as_outside() {
    let array = [7u8; 20];
    let mut bytes = Vec::new();
    Canonical::serialize_with_mode(&array, true, &mut bytes).unwrap();
    assert_eq!(bytes, compressed(&array));
    let read = <[u8; 20] as Canonical>::deserialize_with_mode(&bytes, true, true);
    assert_eq!(read, Ok((array, 20)));
    let own = <[u8; 65] as Canonical>::deserialize_with_mode(&bytes, true, true);
    let theirs = <[u8; 65] as CanonicalDeserialize>::deserialize_compressed(&bytes[..]);
    assert_eq!(own.unwrap_err(), theirs.unwrap_err().to_string());
    let own = <[u8; 20] as Canonical>::deserialize_with_mode(&bytes[..19], true, true);
    assert!(own.is_err());
    let array = [8u8; 65];
    let mut bytes = Vec::new();
    Canonical::serialize_with_mode(&array, false, &mut bytes).unwrap();
    let read = <[u8; 65] as Canonical>::deserialize_with_mode(&bytes, false, true);
    assert_eq!(read, Ok((array, 65)));
}

#[test]
fn public_keys_are_read_back() {
    let key = PublicKey::<Bn254> {
        delta_g1: bn_g1(3),
        delta_g2: bn_g2(3),
        proof: RatioProof { point: bn_g1(4), matching_point: bn_g2(5) },
        eth_address: [1; 20],
        eth_signature: [2; 65],
    };
    let bytes = serialize(&key).unwrap();
    assert_eq!(bytes.len(), 32 + 64 + 32 + 64 + 20 + 65);
    assert_eq!(bytes[..32], compressed(&bn_multiple(3))[..]);
    assert_eq!(bytes[32..96], compressed(&bn_multiple2(3))[..]);
    assert_eq!(bytes[96..128], compressed(&bn_multiple(4))[..]);
    assert_eq!(bytes[192..212], [1; 20]);
    assert_eq!(bytes[212..], [2; 65]);
    let read = PublicKey::<Bn254>::deserialize_with_mode(&bytes, true, true);
    assert_eq!(read, Ok((key, bytes.len())));
}

#[test]
fn transcripts_that_are_cut_off_are_refused() {
    let short = Transcript::<Bn254>::deserialize_uncompressed(&[0u8; 3]);
    let theirs = ark_bn254::G1Affine::deserialize_uncompressed(&[0u8; 3][..]);
    assert_eq!(short.unwrap_err(), Error::Serialization(theirs.unwrap_err().to_string()));
}

#[test]
fn infinity_is_read_back() {
    let zero = <Bls12381G2 as AffineRepr>::zero();
    let bytes = serialize(&zero).unwrap();
    assert_eq!(Bls12381G2::deserialize_with_mode(&bytes, true, true), Ok((zero, bytes.len())));
}
