use ark_ec::AffineRepr as _;
use ark_ff::{BigInt, BigInteger, Field, PrimeField};

use arkworks_phase2::accumulator::{Accumulator, PreparedAccumulator};
use arkworks_phase2::bls12_381::{Bls12381G1, Bls12381G2, Bls12_381};
use arkworks_phase2::bn254::{Bn254, Bn254Fr, Bn254G1, Bn254G2};
use arkworks_phase2::curve::AffineRepr;
use arkworks_phase2::error::{Error, SynthesisError};
use arkworks_phase2::ptau::SeekLimit;
use arkworks_phase2::radix::read_radix_size;
use arkworks_phase2::reader::{read_bigint_le, ByteReader, Defect, PairingReader, ReadError};

fn powers(degree: usize) -> Accumulator<Bn254> {
    let small = |limb: u64| Bn254Fr { limbs: [limb, 0, 0, 0] };
    let mut accum = Accumulator::<Bn254>::empty_from_degree(degree).unwrap();
    accum.contribute_secrets(small(3), small(5), small(7));
    accum
}

fn montgomery(limbs: [u64; 4]) -> Vec<u8> {
    let r = ark_bn254::Fq::from(2u64).pow([256u64]);
    let value = ark_bn254::Fq::new(BigInt(limbs)) * r;
    value.into_bigint().to_bytes_le()
}

fn montgomery6(limbs: [u64; 6]) -> Vec<u8> {
    let r = ark_bls12_381::Fq::from(2u64).pow([384u64]);
    let value = ark_bls12_381::Fq::new(BigInt(limbs)) * r;
    value.into_bigint().to_bytes_le()
}

fn ptau_g1s(points: &[Bn254G1]) -> Vec<u8> {
    let mut out = Vec::new();
    for p in points {
        for limbs in [p.x, p.y] {
            out.extend_from_slice(&montgomery(limbs));
        }
    }
    out
}

fn ptau_g2s(points: &[Bn254G2]) -> Vec<u8> {
    let mut out = Vec::new();
    for p in points {
        for limbs in [p.x0, p.x1, p.y0, p.y1] {
            out.extend_from_slice(&montgomery(limbs));
        }
    }
    out
}

fn header(field: &[u8], power: u32) -> Vec<u8> {
    let mut out = (field.len() as u32).to_le_bytes().to_vec();
    out.extend_from_slice(field);
    out.extend_from_slice(&power.to_le_bytes());
    out.extend_from_slice(&28u32.to_le_bytes());
    out
}

fn order() -> Vec<u8> {
    ark_bn254::Fq::MODULUS.to_bytes_le()
}

/// The sections of a ptau file.
fn sections(accum: &Accumulator<Bn254>, power: u32) -> Vec<(u32, Vec<u8>)> {
    vec![
        (1, header(&order(), power)),
        (2, ptau_g1s(&accum.tau_powers_g1)),
        (3, ptau_g2s(&accum.tau_powers_g2)),
        (4, ptau_g1s(&accum.alpha_tau_powers_g1)),
        (5, ptau_g1s(&accum.beta_tau_powers_g1)),
        (6, ptau_g2s(&[accum.beta_g2])),
        (7, 0u32.to_le_bytes().to_vec()),
    ]
}

fn file(sections: &[(u32, Vec<u8>)]) -> Vec<u8> {
    let mut out = b"ptau".to_vec();
    out.extend_from_slice(&1u32.to_le_bytes());
    out.extend_from_slice(&(sections.len() as u32).to_le_bytes());
    for (kind, contents) in sections {
        out.extend_from_slice(&kind.to_le_bytes());
        out.extend_from_slice(&(contents.len() as u64).to_le_bytes());
        out.extend_from_slice(contents);
    }
    out
}

fn end() -> ReadError {
    ReadError::Error(Error::IO("failed to fill whole buffer".to_string()))
}

fn unreadable(text: &str) -> ReadError {
    ReadError::Error(Error::Read(text.to_string()))
}

fn limit() -> SeekLimit {
    SeekLimit { largest: i64::MAX as u64, failure: "Invalid argument (os error 22)".to_string() }
}

fn parse(bytes: &[u8]) -> Result<Accumulator<Bn254>, ReadError> {
    Accumulator::<Bn254>::parse_ptau(bytes, &limit())
}

#[test]
fn numbers_need_as_many_bytes_as_their_limbs() {
    let mut bytes = [0u8; 32];
    bytes[8] = 1;
    assert_eq!(read_bigint_le([0u64; 4], &bytes), Ok([0, 1, 0, 0]));
    assert_eq!(
        read_bigint_le([0u64; 4], &bytes[..31]),
        Err(Error::Read("Unexpected bigint size: 31".to_string()))
    );
    assert_eq!(
        read_bigint_le([0u64; 4], &[0u8; 40]),
        Err(Error::Read("Unexpected bigint size: 40".to_string()))
    );
    assert_eq!(read_bigint_le([0u64; 4], &[0xff; 32]), Ok([u64::MAX; 4]));
}

#[test]
fn ptau_files_are_read() {
    let accum = powers(2);
    let bytes = file(&sections(&accum, 2));
    assert_eq!(parse(&bytes), Ok(accum.clone()));
    assert_eq!(Accumulator::<Bn254>::from_ptau_file(&bytes, &limit()), Ok(accum));
}

#[test]
fn ptau_sections_may_stand_in_any_order() {
    let accum = powers(1);
    let mut own = sections(&accum, 1);
    own.reverse();
    own.insert(3, (99, vec![1, 2, 3]));
    let mut bytes = file(&own);
    bytes[..8].copy_from_slice(b"otherone");
    assert_eq!(parse(&bytes), Ok(accum));
}

#[test]
fn the_first_ptau_section_of_a_type_is_read() {
    let accum = powers(1);
    let mut own = sections(&accum, 1);
    own.push((6, vec![0xff; 3]));
    own.push((1, Vec::new()));
    assert_eq!(parse(&file(&own)), Ok(accum));
}

#[test]
fn ptau_files_that_are_cut_off_are_refused() {
    let bytes = file(&sections(&powers(1), 1));
    for end_at in [0, 3, 11, 12, 15, 20, 60, bytes.len() - 1] {
        assert_eq!(parse(&bytes[..end_at]), Err(end()));
        assert_eq!(
            Accumulator::<Bn254>::from_ptau_file(&bytes[..end_at], &limit()),
            Err(Error::IO("failed to fill whole buffer".to_string()))
        );
    }
}

#[test]
fn ptau_files_of_another_field_are_refused() {
    let accum = powers(1);
    let mut own = sections(&accum, 1);
    own[0].1 = header(&ark_bls12_381::Fq::MODULUS.to_bytes_le(), 1);
    assert_eq!(parse(&file(&own)), Err(ReadError::Error(Error::PtauFieldNotMatching)));
    let mut field = order();
    field[0] ^= 1;
    own[0].1 = header(&field, 1);
    assert_eq!(parse(&file(&own)), Err(ReadError::Error(Error::PtauFieldNotMatching)));
    own[0].1 = header(&[], 1);
    assert_eq!(parse(&file(&own)), Err(ReadError::Error(Error::PtauFieldNotMatching)));
    assert_eq!(
        Accumulator::<Bls12_381>::parse_ptau(&file(&sections(&accum, 1)), &limit())
            .unwrap_err(),
        ReadError::Error(Error::PtauFieldNotMatching)
    );
}

#[test]
fn ptau_files_without_a_section_are_defective() {
    let accum = powers(1);
    for i in 0..7 {
        let mut own = sections(&accum, 1);
        let (kind, _) = own.remove(i);
        assert_eq!(parse(&file(&own)), Err(ReadError::Defect(Defect::MissingSection(kind))));
    }
}

#[test]
fn ptau_sections_of_impossible_length_are_refused() {
    let mut bytes = b"ptau".to_vec();
    bytes.extend_from_slice(&1u32.to_le_bytes());
    bytes.extend_from_slice(&1u32.to_le_bytes());
    bytes.extend_from_slice(&1u32.to_le_bytes());
    let mut longest = bytes.clone();
    longest.extend_from_slice(&u64::MAX.to_le_bytes());
    assert_eq!(parse(&longest), Err(ReadError::Error(Error::TryFromInt)));
    let mut too_long = bytes;
    too_long.extend_from_slice(&(i64::MAX as u64).to_le_bytes());
    let refused = Error::IO("Invalid argument (os error 22)".to_string());
    assert_eq!(parse(&too_long), Err(ReadError::Error(refused.clone())));
    assert_eq!(Accumulator::<Bn254>::from_ptau_file(&too_long, &limit()), Err(refused));
}

#[test]
fn ptau_sections_end_where_the_system_can_seek() {
    let accum = powers(1);
    let bytes = file(&sections(&accum, 1));
    let end_at = bytes.len() as u64;
    let parse_within = |largest| {
        let limit = SeekLimit { largest, failure: "too far".to_string() };
        Accumulator::<Bn254>::parse_ptau(&bytes, &limit)
    };
    assert_eq!(parse_within(end_at), Ok(accum));
    let refused = ReadError::Error(Error::IO("too far".to_string()));
    assert_eq!(parse_within(end_at - 1), Err(refused.clone()));
    assert_eq!(parse_within(0), Err(refused));
}

#[test]
fn ptau_powers_have_a_limit() {
    let accum = powers(1);
    for power in [30u32, 32, 64, u32::MAX] {
        let own = sections(&accum, power);
        assert_eq!(parse(&file(&own)), Err(ReadError::Defect(Defect::PowerTooLarge)));
    }
    // Thirty-one counts to less than zero.
    let read = parse(&file(&sections(&accum, 31))).unwrap();
    assert_eq!(read.tau_powers_g1, Vec::new());
    assert_eq!(read.tau_powers_g2, Vec::new());
    assert_eq!(read.beta_g2, accum.beta_g2);
}

#[test]
fn ptau_coordinates_stay_below_the_order() {
    let accum = powers(1);
    let texts = ["Unable to read Fq x", "Unable to read Fq y"];
    for (i, text) in texts.iter().enumerate() {
        let mut own = sections(&accum, 1);
        own[1].1[32 * i..32 * i + 32].copy_from_slice(&order());
        assert_eq!(parse(&file(&own)), Err(unreadable(text)));
    }
    let texts = [
        "Unable to read Fq x0",
        "Unable to read Fq x1",
        "Unable to read Fq y0",
        "Unable to read Fq y1",
    ];
    for (i, text) in texts.iter().enumerate() {
        let mut own = sections(&accum, 1);
        own[5].1[32 * i..32 * i + 32].copy_from_slice(&[0xff; 32]);
        assert_eq!(parse(&file(&own)), Err(unreadable(text)));
    }
}

#[test]
fn ptau_points_off_the_curve_are_defective() {
    let accum = powers(1);
    let mut own = sections(&accum, 1);
    own[1].1[0] ^= 1;
    assert_eq!(parse(&file(&own)), Err(ReadError::Defect(Defect::G1NotOnCurve)));
    let mut own = sections(&accum, 1);
    own[2].1[0] ^= 1;
    assert_eq!(parse(&file(&own)), Err(ReadError::Defect(Defect::G2NotOnCurve)));
}

#[test]
fn zero_coordinates_are_infinity() {
    let bytes = [0u8; 192];
    let mut reader = ByteReader { bytes: &bytes, position: 0 };
    assert_eq!(Bn254::read_ptau_g1(&mut reader), Ok(<Bn254G1 as AffineRepr>::zero()));
    assert_eq!(Bn254::read_ptau_g2(&mut reader), Ok(<Bn254G2 as AffineRepr>::zero()));
    assert_eq!(reader.position, 192);
    assert_eq!(Bn254::read_ptau_g1(&mut reader), Err(end()));
}

#[test]
fn ptau_points_of_the_other_curve_are_read() {
    let p = ark_bls12_381::G1Affine::generator();
    let q = ark_bls12_381::G2Affine::generator();
    let mut bytes = Vec::new();
    for value in [p.x, p.y, q.x.c0, q.x.c1, q.y.c0, q.y.c1] {
        bytes.extend_from_slice(&montgomery6(value.into_bigint().0));
    }
    let mut reader = ByteReader { bytes: &bytes, position: 0 };
    assert_eq!(Bls12_381::read_ptau_g1(&mut reader), Ok(<Bls12381G1 as AffineRepr>::generator()));
    assert_eq!(Bls12_381::read_ptau_g2(&mut reader), Ok(<Bls12381G2 as AffineRepr>::generator()));
    assert_eq!(Bls12_381::read_ptau_g2(&mut reader), Err(end()));
    bytes[95] ^= 0x80;
    let mut reader = ByteReader { bytes: &bytes, position: 0 };
    assert_eq!(Bls12_381::read_ptau_g1(&mut reader), Err(unreadable("Unable to read Fq y")));
}

#[test]
fn radix_names_tell_the_size() {
    assert_eq!(read_radix_size(Some("phase1radix2m0")), Ok(1));
    assert_eq!(read_radix_size(Some("phase1radix2m12")), Ok(4096));
    assert_eq!(read_radix_size(Some("bn254phase1radix2m2")), Ok(4));
    assert_eq!(read_radix_size(Some("phase1radix2m9phase1radix2m3")), Ok(8));
    assert_eq!(read_radix_size(Some("phase1radix2m+3")), Ok(8));
    assert_eq!(read_radix_size(Some("phase1radix2m003")), Ok(8));
    assert_eq!(read_radix_size(Some("5")), Ok(32));
    assert_eq!(read_radix_size(Some("phase1radix2m63")), Ok(1 << 63));
    let unknown = unreadable("Unable to read evaluation domain from radix file name");
    for name in [
        "", "phase1radix2m", "phase1radix2m+", "phase1radix2m-1", "phase1radix2m2.bin",
        "phase1radix2m 2", "radix", "phase1radix2m18446744073709551616",
    ] {
        assert_eq!(read_radix_size(Some(name)), Err(unknown.clone()));
    }
    assert_eq!(read_radix_size(None), Err(unknown));
    let defect = ReadError::Defect(Defect::PowerTooLarge);
    assert_eq!(read_radix_size(Some("phase1radix2m64")), Err(defect.clone()));
    assert_eq!(read_radix_size(Some("phase1radix2m18446744073709551615")), Err(defect));
}

fn radix_g1(p: &Bn254G1, out: &mut Vec<u8>) {
    for limbs in [p.x, p.y] {
        out.extend_from_slice(&BigInt(limbs).to_bytes_be());
    }
}

fn radix_g2(p: &Bn254G2, out: &mut Vec<u8>) {
    for limbs in [p.x1, p.x0, p.y1, p.y0] {
        out.extend_from_slice(&BigInt(limbs).to_bytes_be());
    }
}

fn radix_file(prepared: &PreparedAccumulator<Bn254>) -> Vec<u8> {
    let mut out = Vec::new();
    radix_g1(&prepared.alpha, &mut out);
    radix_g1(&prepared.beta, &mut out);
    radix_g2(&prepared.beta_g2, &mut out);
    for p in &prepared.tau_lagrange_g1 {
        radix_g1(&p.point, &mut out);
    }
    for p in &prepared.tau_lagrange_g2 {
        radix_g2(&p.point, &mut out);
    }
    for p in prepared.alpha_lagrange_g1.iter().chain(&prepared.beta_lagrange_g1) {
        radix_g1(&p.point, &mut out);
    }
    for p in &prepared.h_query {
        radix_g1(p, &mut out);
    }
    out
}

#[test]
fn radix_files_are_read() {
    let accum = powers(2);
    let prepared = accum.prepare().unwrap();
    let bytes = radix_file(&prepared);
    let name = Some("phase1radix2m2");
    assert_eq!(PreparedAccumulator::<Bn254>::parse_radix(name, &bytes), Ok(prepared.clone()));
    assert_eq!(PreparedAccumulator::<Bn254>::from_radix_file(name, &bytes), Ok(prepared));
}

#[test]
fn radix_files_give_the_powers_back() {
    let accum = powers(2);
    let bytes = radix_file(&accum.prepare().unwrap());
    let name = Some("phase1radix2m2");
    assert_eq!(Accumulator::<Bn254>::parse_radix(name, &bytes), Ok(accum.clone()));
    let read = Accumulator::<Bn254>::from_radix_file(name, &bytes).unwrap();
    assert_eq!(read, accum);
    assert_eq!(read.prepare(), accum.prepare());
}

#[test]
fn radix_files_that_are_cut_off_are_refused() {
    let prepared = powers(1).prepare().unwrap();
    let bytes = radix_file(&prepared);
    let name = Some("phase1radix2m1");
    for end_at in [0, 63, 200, bytes.len() - 1] {
        let read = PreparedAccumulator::<Bn254>::parse_radix(name, &bytes[..end_at]);
        assert_eq!(read, Err(end()));
        assert_eq!(Accumulator::<Bn254>::parse_radix(name, &bytes[..end_at]), Err(end()));
    }
}

#[test]
fn radix_powers_need_a_domain() {
    let name = Some("phase1radix2m29");
    assert_eq!(
        Accumulator::<Bn254>::parse_radix(name, &[]),
        Err(ReadError::Error(Error::ConstraintSystem(SynthesisError::PolynomialDegreeTooLarge)))
    );
    assert_eq!(PreparedAccumulator::<Bn254>::parse_radix(name, &[]), Err(end()));
    assert_eq!(Accumulator::<Bls12_381>::parse_radix(name, &[]), Err(end()));
}

#[test]
fn radix_flags_are_ignored() {
    let p = <Bn254G1 as AffineRepr>::generator();
    let q = <Bn254G2 as AffineRepr>::generator();
    let mut bytes = Vec::new();
    radix_g1(&p, &mut bytes);
    radix_g2(&q, &mut bytes);
    bytes[0] |= 0xc0;
    bytes[96] |= 0xc0;
    let mut reader = ByteReader { bytes: &bytes, position: 0 };
    assert_eq!(Bn254::read_radix_g1(&mut reader), Ok(p));
    assert_eq!(Bn254::read_radix_g2(&mut reader), Ok(q));
    assert_eq!(reader.position, bytes.len() as u64);
    // Flags elsewhere make the coordinate too large.
    for (i, text) in [(32, "Unable to read Fq y"), (64, "Unable to read Fq x1")] {
        let mut own = bytes.clone();
        own[i] |= 0xc0;
        let mut reader = ByteReader { bytes: &own, position: 0 };
        let read = Bn254::read_radix_g1(&mut reader);
        if i == 32 {
            assert_eq!(read, Err(unreadable(text)));
        } else {
            assert_eq!(Bn254::read_radix_g2(&mut reader), Err(unreadable(text)));
        }
    }
}

#[test]
fn radix_flags_of_the_other_curve_are_ignored() {
    let p = <Bls12381G1 as AffineRepr>::generator();
    let q = <Bls12381G2 as AffineRepr>::generator();
    let mut bytes = Vec::new();
    for limbs in [p.x, p.y, q.x1, q.x0, q.y1, q.y0] {
        bytes.extend_from_slice(&BigInt(limbs).to_bytes_be());
    }
    bytes[0] |= 0xc0;
    bytes[96] |= 0xc0;
    let mut reader = ByteReader { bytes: &bytes, position: 0 };
    assert_eq!(Bls12_381::read_radix_g1(&mut reader), Ok(p));
    assert_eq!(Bls12_381::read_radix_g2(&mut reader), Ok(q));
    bytes[144] |= 0xc0;
    let mut reader = ByteReader { bytes: &bytes, position: 96 };
    assert_eq!(Bls12_381::read_radix_g2(&mut reader), Err(unreadable("Unable to read Fq x0")));
    bytes[1] ^= 1;
    let mut reader = ByteReader { bytes: &bytes, position: 0 };
    assert_eq!(
        Bls12_381::read_radix_g1(&mut reader),
        Err(ReadError::Defect(Defect::G1NotOnCurve))
    );
}

#[test]
fn radix_points_off_the_curve_are_defective() {
    let prepared = powers(1).prepare().unwrap();
    let mut bytes = radix_file(&prepared);
    bytes[31] ^= 1;
    let name = Some("phase1radix2m1");
    assert_eq!(
        PreparedAccumulator::<Bn254>::parse_radix(name, &bytes),
        Err(ReadError::Defect(Defect::G1NotOnCurve))
    );
}
