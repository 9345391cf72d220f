use vstd::arithmetic::power2::{lemma2_to64_rest, lemma_pow2_adds, pow2};
use vstd::prelude::*;

use ark_ff::{BigInt, PrimeField as _};
use ark_bls12_381::{Fq, Fq2, G1Affine, G2Affine};

use crate::algebra::lemma_mul_mod;
use crate::bls12_381::{
    base_order, g1_on_curve_spec, g2_on_curve_spec, Bls12_381, Bls12381G1, Bls12381G2,
};
use crate::math::{lemma_six_limbs, lemma_limbs_injective, limbs_equal, limbs_value};
use crate::reader::{
    bytes_at, lemma_radix_below, g1_texts, g1_texts_spec, ptau_g2_texts, ptau_g2_texts_spec, ptau_point, radix_g2_texts,
    radix_g2_texts_spec, radix_point, read_bigint_le, read_ptau_elements, read_radix_elements,
    ByteReader, Defect, PairingReader, ReadError, ReadErrorModel,
};
use crate::writing::{
    lemma_concatenated_equal, lemma_ptau_written, lemma_radix_written, montgomery_bytes, swapped,
    to_le,
};

verus! {

/// The number that elements of the base field are multiplied with in Montgomery form.
pub open spec fn montgomery() -> nat {
    pow2(384) % base_order()
}

/// The inverse of [`montgomery`] in the base field.
pub open spec fn montgomery_inverse() -> nat {
    3231460744492646417066832100176244795738767926513225105051837195607029917124509527734802654356338138714468589979680nat
}

/// The element of the base field whose Montgomery form is `value`.
pub open spec fn from_montgomery(value: nat) -> nat {
    (value * montgomery_inverse()) % base_order()
}

pub open spec fn g1_coordinates(p: Bls12381G1, x: nat, y: nat) -> bool {
    limbs_value(p.x@) == x && limbs_value(p.y@) == y
}

/// The point with these coordinates.
pub open spec fn g1_at(x: nat, y: nat) -> Bls12381G1 {
    choose|p: Bls12381G1| g1_coordinates(p, x, y)
}

pub open spec fn g2_coordinates(p: Bls12381G2, x0: nat, x1: nat, y0: nat, y1: nat) -> bool {
    limbs_value(p.x0@) == x0 && limbs_value(p.x1@) == x1 && limbs_value(p.y0@) == y0
        && limbs_value(p.y1@) == y1
}

/// The point with these coordinates.
pub open spec fn g2_at(x0: nat, x1: nat, y0: nat, y1: nat) -> Bls12381G2 {
    choose|p: Bls12381G2| g2_coordinates(p, x0, x1, y0, y1)
}

proof fn lemma_g1_at(p: Bls12381G1)
    ensures
        g1_at(limbs_value(p.x@), limbs_value(p.y@)) == p,
{
    let (x, y) = (limbs_value(p.x@), limbs_value(p.y@));
    assert(g1_coordinates(p, x, y));
    let q = g1_at(x, y);
    lemma_limbs_injective(p.x@, q.x@);
    lemma_limbs_injective(p.y@, q.y@);
    assert(p.x =~= q.x && p.y =~= q.y);
}

proof fn lemma_g2_at(p: Bls12381G2)
    ensures
        g2_at(
            limbs_value(p.x0@),
            limbs_value(p.x1@),
            limbs_value(p.y0@),
            limbs_value(p.y1@),
        ) == p,
{
    let (x0, x1) = (limbs_value(p.x0@), limbs_value(p.x1@));
    let (y0, y1) = (limbs_value(p.y0@), limbs_value(p.y1@));
    assert(g2_coordinates(p, x0, x1, y0, y1));
    let q = g2_at(x0, x1, y0, y1);
    lemma_limbs_injective(p.x0@, q.x0@);
    lemma_limbs_injective(p.x1@, q.x1@);
    lemma_limbs_injective(p.y0@, q.y0@);
    lemma_limbs_injective(p.y1@, q.y1@);
    assert(p.x0 =~= q.x0 && p.x1 =~= q.x1 && p.y0 =~= q.y0 && p.y1 =~= q.y1);
}

/// The limbs of a number.
proof fn lemma_limbs_of(value: nat) -> (limbs: [u64; 6])
    requires
        value < base_order(),
    ensures
        limbs_value(limbs@) == value,
{
    let w = 0x1_0000_0000_0000_0000nat;
    let q0 = value / w;
    let q1 = q0 / w;
    let q2 = q1 / w;
    let q3 = q2 / w;
    let q4 = q3 / w;
    let limbs: [u64; 6] = [(value % w) as u64, (q0 % w) as u64, (q1 % w) as u64, (q2 % w) as u64, (q3 % w) as u64, (q4 % w) as u64];
    lemma_six_limbs(limbs@);
    limbs
}

/// The point at reduced coordinates has them.
proof fn lemma_g1_exists(x: nat, y: nat)
    requires
        x < base_order(),
        y < base_order(),
    ensures
        g1_coordinates(g1_at(x, y), x, y),
{
    let point = Bls12381G1 { x: lemma_limbs_of(x), y: lemma_limbs_of(y) };
    assert(g1_coordinates(point, x, y));
}

/// The point at reduced coordinates has them.
proof fn lemma_g2_exists(x0: nat, x1: nat, y0: nat, y1: nat)
    requires
        x0 < base_order(),
        x1 < base_order(),
        y0 < base_order(),
        y1 < base_order(),
    ensures
        g2_coordinates(g2_at(x0, x1, y0, y1), x0, x1, y0, y1),
{
    let point = Bls12381G2 {
        x0: lemma_limbs_of(x0),
        x1: lemma_limbs_of(x1),
        y0: lemma_limbs_of(y0),
        y1: lemma_limbs_of(y1),
    };
    assert(g2_coordinates(point, x0, x1, y0, y1));
}

/// The quotient of two `ark_bls12_381::Fq`: the reduced element that gives `a` when multiplied by `b`.
#[verifier::external_body]
fn fq_div(a: [u64; 6], b: [u64; 6]) -> (res: [u64; 6])
    requires
        limbs_value(b@) % base_order() != 0,
    ensures
        limbs_value(res@) < base_order(),
        (limbs_value(res@) * limbs_value(b@)) % base_order() == limbs_value(a@) % base_order(),
{
    (Fq::new(BigInt(a)) / Fq::new(BigInt(b))).into_bigint().0
}

/// `ark_bls12_381::G1Affine::is_on_curve`: whether the curve's equation holds, or the point is the one at
/// infinity.
#[verifier::external_body]
fn g1_on_curve(p: &Bls12381G1) -> (res: bool)
    ensures
        res == g1_on_curve_spec(limbs_value(p.x@), limbs_value(p.y@)),
{
    G1Affine::new_unchecked(Fq::new(BigInt(p.x)), Fq::new(BigInt(p.y))).is_on_curve()
}

/// `ark_bls12_381::G2Affine::is_on_curve`: whether the twist's equation holds, or the point is the one at
/// infinity.
#[verifier::external_body]
fn g2_on_curve(p: &Bls12381G2) -> (res: bool)
    ensures
        res == g2_on_curve_spec(
            limbs_value(p.x0@),
            limbs_value(p.x1@),
            limbs_value(p.y0@),
            limbs_value(p.y1@),
        ),
{
    let x = Fq2::new(Fq::new(BigInt(p.x0)), Fq::new(BigInt(p.x1)));
    let y = Fq2::new(Fq::new(BigInt(p.y0)), Fq::new(BigInt(p.y1)));
    G2Affine::new_unchecked(x, y).is_on_curve()
}

/// The order of the base field.
fn base_modulus() -> (res: [u64; 6])
    ensures
        limbs_value(res@) == base_order(),
{
    let res: [u64; 6] = [
        0xb9feffffffffaaab,
        0x1eabfffeb153ffff,
        0x6730d2a0f6b0f624,
        0x64774b84f38512bf,
        0x4b1ba7b6434bacd7,
        0x1a0111ea397fe69a,
    ];
    proof {
        lemma_six_limbs(res@);
    }
    res
}

/// The order of the base field and two to the number of bits of the limbs.
proof fn lemma_montgomery_inverse()
    ensures
        pow2(384) == 39402006196394479212279040100143613805079739270465446667948293404245721771497210611414266254884915640806627990306816nat,
        montgomery() == 3380320199399472671518931668520476396067793891014375699959770179129436917079669831430077592723774664465579537268733nat,
        (montgomery() * montgomery_inverse()) % base_order() == 1,
        montgomery() % base_order() != 0,
{
    lemma2_to64_rest();
    lemma_pow2_adds(64, 64);
    lemma_pow2_adds(128, 64);
    lemma_pow2_adds(192, 64);
    lemma_pow2_adds(256, 64);
    lemma_pow2_adds(320, 64);
    assert(pow2(384) == 39402006196394479212279040100143613805079739270465446667948293404245721771497210611414266254884915640806627990306816nat);
    assert(39402006196394479212279040100143613805079739270465446667948293404245721771497210611414266254884915640806627990306816nat % base_order() == 3380320199399472671518931668520476396067793891014375699959770179129436917079669831430077592723774664465579537268733nat);
    assert((3380320199399472671518931668520476396067793891014375699959770179129436917079669831430077592723774664465579537268733nat * montgomery_inverse()) % base_order() == 1);
}

/// An element comes back out of its Montgomery form.
proof fn lemma_from_montgomery(value: nat)
    requires
        value < base_order(),
    ensures
        from_montgomery((value * pow2(384)) % base_order()) == value,
{
    let p = base_order();
    let (r, i) = (pow2(384), montgomery_inverse());
    lemma_montgomery_inverse();
    lemma_mul_mod(value, r, i, p);
    lemma_mul_mod(r, i, 1, p);
    lemma_mul_mod(r, 1, i, p);
    assert(r * 1 == r && 1 * i == i);
    vstd::arithmetic::div_mod::lemma_small_mod(value, p);
    assert(value * 1 == value);
}

/// The values of the elements that a point is written as in a ptau file.
proof fn lemma_ptau_values(
    elements: Seq<nat>,
    bytes: Seq<u8>,
    position: nat,
    texts: Seq<Seq<char>>,
)
    requires
        texts.len() == elements.len(),
        bytes_at(bytes, position, elements.len() * 48) == Ok::<Seq<u8>, ReadErrorModel>(
            montgomery_bytes(elements, 48, base_order()),
        ),
    ensures
        ptau_point(bytes, position, 48, base_order(), texts) == Ok::<Seq<nat>, ReadErrorModel>(
            Seq::new(
                elements.len(),
                |k: int| (elements[k] * pow2(384)) % base_order(),
            ),
        ),
{
    let values = Seq::new(
        elements.len(),
        |k: int| (elements[k] * pow2(384)) % base_order(),
    );
    let own = montgomery_bytes(elements, 48, base_order());
    let f = |k: nat| to_le((elements[k as int] * pow2(8 * 48)) % base_order(), 48);
    let g = |k: nat| to_le(values[k as int], 48);
    assert forall|k: nat| k < elements.len() implies #[trigger] f(k) == g(k) by {
        assert(8 * 48nat == 384nat);
    }
    lemma_concatenated_equal(f, g, elements.len());
    lemma_montgomery_inverse();
    lemma_ptau_written(values, own, 48, base_order(), texts, elements.len());
    assert(values.take(elements.len() as int) =~= values);
}

/// Two to the number of bits of the limbs, in the base field.
fn montgomery_r() -> (res: [u64; 6])
    ensures
        limbs_value(res@) == montgomery(),
        (montgomery() * montgomery_inverse()) % base_order() == 1,
        montgomery() % base_order() != 0,
{
    let res: [u64; 6] = [
        0x760900000002fffd,
        0xebf4000bc40c0002,
        0x5f48985753c758ba,
        0x77ce585370525745,
        0x5c071a97a256ec6d,
        0x15f65ec3fa80e493,
    ];
    proof {
        lemma_six_limbs(res@);
        lemma_montgomery_inverse();
    }
    res
}

/// Takes an element out of Montgomery form.
fn leave_montgomery(limbs: [u64; 6]) -> (res: [u64; 6])
    requires
        limbs_value(limbs@) < base_order(),
    ensures
        limbs_value(res@) == from_montgomery(limbs_value(limbs@)),
{
    let r = montgomery_r();
    let res = fq_div(limbs, r);
    proof {
        let p = base_order();
        let (q, v, m, i) = (
            limbs_value(res@),
            limbs_value(limbs@),
            montgomery(),
            montgomery_inverse(),
        );
        lemma_mul_mod(q, m, i, p);
        lemma_mul_mod(v, 1, i, p);
        vstd::arithmetic::div_mod::lemma_small_mod(q, p);
        vstd::arithmetic::div_mod::lemma_small_mod(v, p);
        assert(q * 1 == q);
    }
    res
}

/// The point of the first group, if it is on the curve.
pub open spec fn g1_checked(x: nat, y: nat) -> Result<Bls12381G1, ReadErrorModel> {
    if g1_on_curve_spec(x, y) {
        Ok(g1_at(x, y))
    } else {
        Err(ReadErrorModel::Defect(Defect::G1NotOnCurve))
    }
}

/// The point of the second group, if it is on the curve.
pub open spec fn g2_checked(x0: nat, x1: nat, y0: nat, y1: nat) -> Result<
    Bls12381G2,
    ReadErrorModel,
> {
    if g2_on_curve_spec(x0, x1, y0, y1) {
        Ok(g2_at(x0, x1, y0, y1))
    } else {
        Err(ReadErrorModel::Defect(Defect::G2NotOnCurve))
    }
}

impl PairingReader for Bls12_381 {
    open spec fn modulus() -> nat {
        base_order()
    }

    open spec fn element_length() -> nat {
        48
    }

    open spec fn ptau_g1(bytes: Seq<u8>, position: nat) -> Result<Bls12381G1, ReadErrorModel> {
        match ptau_point(bytes, position, 48, base_order(), g1_texts_spec()) {
            Err(error) => Err(error),
            Ok(values) => g1_checked(from_montgomery(values[0]), from_montgomery(values[1])),
        }
    }

    open spec fn ptau_g2(bytes: Seq<u8>, position: nat) -> Result<Bls12381G2, ReadErrorModel> {
        match ptau_point(bytes, position, 48, base_order(), ptau_g2_texts_spec()) {
            Err(error) => Err(error),
            Ok(values) => g2_checked(
                from_montgomery(values[0]),
                from_montgomery(values[1]),
                from_montgomery(values[2]),
                from_montgomery(values[3]),
            ),
        }
    }

    open spec fn radix_g1(bytes: Seq<u8>, position: nat) -> Result<Bls12381G1, ReadErrorModel> {
        match radix_point(bytes, position, 48, base_order(), g1_texts_spec(), 0, 2) {
            Err(error) => Err(error),
            Ok(values) => g1_checked(values[0], values[1]),
        }
    }

    open spec fn radix_g2(bytes: Seq<u8>, position: nat) -> Result<Bls12381G2, ReadErrorModel> {
        match radix_point(bytes, position, 48, base_order(), radix_g2_texts_spec(), 0, 4) {
            Err(error) => Err(error),
            Ok(values) => g2_checked(values[1], values[0], values[3], values[2]),
        }
    }

    proof fn lemma_ptau_g1(a: Seq<u8>, p: nat, b: Seq<u8>, q: nat) {
        assert(g1_texts_spec().len() == 2);
    }

    proof fn lemma_ptau_g2(a: Seq<u8>, p: nat, b: Seq<u8>, q: nat) {
        assert(ptau_g2_texts_spec().len() == 4);
    }

    open spec fn g1_elements(point: Bls12381G1) -> Seq<nat> {
        seq![limbs_value(point.x@), limbs_value(point.y@)]
    }

    open spec fn g2_elements(point: Bls12381G2) -> Seq<nat> {
        seq![
            limbs_value(point.x0@),
            limbs_value(point.x1@),
            limbs_value(point.y0@),
            limbs_value(point.y1@),
        ]
    }

    open spec fn radix_g2_flagged() -> nat {
        0
    }

    proof fn lemma_modulus() {
        lemma_montgomery_inverse();
    }

    proof fn lemma_read_ptau_g1(bytes: Seq<u8>, position: nat) {
        assert(g1_texts_spec().len() == 2);
        if let Ok(values) = ptau_point(bytes, position, 48, base_order(), g1_texts_spec()) {
            lemma_g1_exists(from_montgomery(values[0]), from_montgomery(values[1]));
        }
    }

    proof fn lemma_read_ptau_g2(bytes: Seq<u8>, position: nat) {
        assert(ptau_g2_texts_spec().len() == 4);
        if let Ok(values) = ptau_point(
            bytes,
            position,
            48,
            base_order(),
            ptau_g2_texts_spec(),
        ) {
            lemma_g2_exists(
                from_montgomery(values[0]),
                from_montgomery(values[1]),
                from_montgomery(values[2]),
                from_montgomery(values[3]),
            );
        }
    }

    proof fn lemma_read_radix_g1(bytes: Seq<u8>, position: nat) {
        lemma_radix_below(bytes, position, 48, base_order(), g1_texts_spec(), 0, 2);
        if let Ok(values) = radix_point(
            bytes,
            position,
            48,
            base_order(),
            g1_texts_spec(),
            0,
            2,
        ) {
            assert(values[0] < base_order() && values[1] < base_order());
            lemma_g1_exists(values[0], values[1]);
        }
    }

    proof fn lemma_read_radix_g2(bytes: Seq<u8>, position: nat) {
        lemma_radix_below(bytes, position, 48, base_order(), radix_g2_texts_spec(), 0, 4);
        if let Ok(values) = radix_point(
            bytes,
            position,
            48,
            base_order(),
            radix_g2_texts_spec(),
            0,
            4,
        ) {
            assert(values[0] < base_order() && values[1] < base_order() && values[2] < base_order()
                && values[3] < base_order());
            lemma_g2_exists(values[1], values[0], values[3], values[2]);
        }
    }

    proof fn lemma_written_ptau_g1(point: Bls12381G1, bytes: Seq<u8>, position: nat) {
        let elements = Self::g1_elements(point);
        assert(g1_texts_spec().len() == 2);
        lemma_ptau_values(elements, bytes, position, g1_texts_spec());
        assert(elements[0] < Self::modulus() && elements[1] < Self::modulus());
        lemma_from_montgomery(elements[0]);
        lemma_from_montgomery(elements[1]);
        lemma_g1_at(point);
    }

    proof fn lemma_written_ptau_g2(point: Bls12381G2, bytes: Seq<u8>, position: nat) {
        let elements = Self::g2_elements(point);
        assert(ptau_g2_texts_spec().len() == 4);
        lemma_ptau_values(elements, bytes, position, ptau_g2_texts_spec());
        assert(elements[0] < Self::modulus() && elements[1] < Self::modulus() && elements[2]
            < Self::modulus() && elements[3] < Self::modulus());
        lemma_from_montgomery(elements[0]);
        lemma_from_montgomery(elements[1]);
        lemma_from_montgomery(elements[2]);
        lemma_from_montgomery(elements[3]);
        lemma_g2_at(point);
    }

    proof fn lemma_written_radix_g1(
        point: Bls12381G1,
        flags: nat,
        bytes: Seq<u8>,
        position: nat,
    ) {
        let elements = Self::g1_elements(point);
        lemma_montgomery_inverse();
        lemma_radix_written(
            elements,
            flags,
            0,
            bytes,
            position,
            48,
            base_order(),
            g1_texts_spec(),
            2,
        );
        assert(elements.take(2) =~= elements);
        lemma_g1_at(point);
    }

    proof fn lemma_written_radix_g2(
        point: Bls12381G2,
        flags: nat,
        bytes: Seq<u8>,
        position: nat,
    ) {
        let own = Self::g2_elements(point);
        let elements = swapped(own);
        lemma_montgomery_inverse();
        assert(own[0] < Self::modulus() && own[1] < Self::modulus() && own[2] < Self::modulus()
            && own[3] < Self::modulus());
        lemma_radix_written(
            elements,
            flags,
            Self::radix_g2_flagged(),
            bytes,
            position,
            48,
            base_order(),
            radix_g2_texts_spec(),
            4,
        );
        assert(elements.take(4) =~= elements);
        lemma_g2_at(point);
    }

    fn element_bytes() -> (res: usize) {
        48
    }

    fn is_modulus(bytes: &[u8]) -> (res: bool) {
        let modulus = base_modulus();
        match read_bigint_le(modulus, bytes) {
            Err(_) => false,
            Ok(limbs) => {
                proof {
                    if limbs_value(limbs@) == limbs_value(modulus@) {
                        lemma_limbs_injective(limbs@, modulus@);
                        assert(limbs =~= modulus);
                    }
                }
                limbs_equal(&limbs, &modulus)
            },
        }
    }

    fn read_ptau_g1(reader: &mut ByteReader<'_>) -> (res: Result<Bls12381G1, ReadError>) {
        let elements = read_ptau_elements(reader, &base_modulus(), &g1_texts())?;
        let point = Bls12381G1 {
            x: leave_montgomery(elements[0]),
            y: leave_montgomery(elements[1]),
        };
        proof {
            lemma_g1_at(point);
        }
        if g1_on_curve(&point) {
            Ok(point)
        } else {
            Err(ReadError::Defect(Defect::G1NotOnCurve))
        }
    }

    fn read_ptau_g2(reader: &mut ByteReader<'_>) -> (res: Result<Bls12381G2, ReadError>) {
        let elements = read_ptau_elements(reader, &base_modulus(), &ptau_g2_texts())?;
        let point = Bls12381G2 {
            x0: leave_montgomery(elements[0]),
            x1: leave_montgomery(elements[1]),
            y0: leave_montgomery(elements[2]),
            y1: leave_montgomery(elements[3]),
        };
        proof {
            lemma_g2_at(point);
        }
        if g2_on_curve(&point) {
            Ok(point)
        } else {
            Err(ReadError::Defect(Defect::G2NotOnCurve))
        }
    }

    fn read_radix_g1(reader: &mut ByteReader<'_>) -> (res: Result<Bls12381G1, ReadError>) {
        let elements = read_radix_elements(reader, &base_modulus(), &g1_texts(), 0)?;
        let point = Bls12381G1 { x: elements[0], y: elements[1] };
        proof {
            lemma_g1_at(point);
        }
        if g1_on_curve(&point) {
            Ok(point)
        } else {
            Err(ReadError::Defect(Defect::G1NotOnCurve))
        }
    }

    fn read_radix_g2(reader: &mut ByteReader<'_>) -> (res: Result<Bls12381G2, ReadError>) {
        let elements = read_radix_elements(reader, &base_modulus(), &radix_g2_texts(), 0)?;
        let point = Bls12381G2 {
            x0: elements[1],
            x1: elements[0],
            y0: elements[3],
            y1: elements[2],
        };
        proof {
            lemma_g2_at(point);
        }
        if g2_on_curve(&point) {
            Ok(point)
        } else {
            Err(ReadError::Defect(Defect::G2NotOnCurve))
        }
    }
}

} // verus!
