use vstd::arithmetic::power::lemma_pow1;
use vstd::arithmetic::power2::lemma2_to64;
use vstd::prelude::*;

use ark_ec::pairing::Pairing as _;
use ark_ec::{AffineRepr as _, CurveGroup};
use ark_ff::{BigInt, Field, PrimeField as _, UniformRand};
use ark_poly::{EvaluationDomain, Radix2EvaluationDomain};
use ark_serialize::{
    CanonicalDeserialize, CanonicalSerialize, Compress, Valid as _, Validate,
};
use ark_bn254::{Fq, Fq2, Fr, G1Affine, G1Projective, G2Affine, G2Projective};
use rand::SeedableRng;
use rand_chacha::ChaCha20Rng;

use crate::algebra::invertible;
use crate::canonical::{Canonical, CanonicalModel};
use crate::curve::{
    all_in_group, commutes, distributes, domain_root, exps, in_group, is_domain_size, log, logs,
    AffineRepr, GroupModel, Pairing, PrimeField, ScalarModel, Subtract,
};
use crate::math::{dft, inverse_dft, lemma_four_limbs, limbs_equal, limbs_value};
use crate::rng::SeededRng;
use crate::transform::lemma_square_power;

verus! {

/// The BN254 pairing.
#[derive(Clone, Copy, Debug, PartialEq, Eq)]
pub struct Bn254;

/// A scalar of the BN254 groups, by the limbs of a number that represents it, least
/// significant first.
#[derive(Clone, Copy, Debug, PartialEq, Eq)]
pub struct Bn254Fr {
    pub limbs: [u64; 4],
}

/// A point of the BN254 curve over the base field, by the limbs of its affine coordinates,
/// least significant first. The point at infinity has both coordinates 0.
#[derive(Clone, Copy, Debug, PartialEq, Eq)]
pub struct Bn254G1 {
    pub x: [u64; 4],
    pub y: [u64; 4],
}

/// A point of the BN254 twist, with coordinates `x0 + x1 u` and `y0 + y1 u` where
/// `u^2 = -1`. The point at infinity has all of them 0.
#[derive(Clone, Copy, Debug, PartialEq, Eq)]
pub struct Bn254G2 {
    pub x0: [u64; 4],
    pub x1: [u64; 4],
    pub y0: [u64; 4],
    pub y1: [u64; 4],
}

/// The order of the groups.
pub open spec fn scalar_order() -> nat {
    21888242871839275222246405745257275088548364400416034343698204186575808495617nat
}

/// The order of the base field.
pub open spec fn base_order() -> nat {
    21888242871839275222246405745257275088696311157297823662689037894645226208583nat
}

pub open spec fn g1_generator_point() -> Bn254G1 {
    Bn254G1 {
        x: [0x1, 0x0, 0x0, 0x0],
        y: [0x2, 0x0, 0x0, 0x0],
    }
}

pub open spec fn g2_generator_point() -> Bn254G2 {
    Bn254G2 {
        x0: [0x46debd5cd992f6ed, 0x674322d4f75edadd, 0x426a00665e5c4479, 0x1800deef121f1e76],
        x1: [0x97e485b7aef312c2, 0xf1aa493335a9e712, 0x7260bfb731fb5d25, 0x198e9393920d483a],
        y0: [0x4ce6cc0166fa7daa, 0xe3d1e7690c43d37b, 0x4aab71808dcb408f, 0x12c85ea5db8c6deb],
        y1: [0x55acdadcd122975b, 0xbc4b313370b38ef3, 0xec9e99ad690c3395, 0x90689d0585ff075],
    }
}

/// Whether `y^2 = x^3 + 3` in the base field, or the coordinates are those of the point at infinity.
pub open spec fn g1_on_curve_spec(x: nat, y: nat) -> bool {
    let p = base_order();
    (y * y) % p == (x * x * x + 3) % p || (x % p == 0 && y % p == 0)
}

/// The coefficient `b` of the twist, as `b0 + b1 u`.
pub open spec fn twist_coefficient() -> (int, int) {
    (
        19485874751759354771024239261021720505790618469301721065564631296452457478373int,
        266929791119991161246907387137283842545076965332900288569378510910307636690int,
    )
}

/// Whether `y^2 = x^3 + b` for `x = x0 + x1 u` and `y = y0 + y1 u`, or the coordinates are those of
/// the point at infinity.
pub open spec fn g2_on_curve_spec(x0: nat, x1: nat, y0: nat, y1: nat) -> bool {
    let p = base_order() as int;
    let (b0, b1) = twist_coefficient();
    ||| (y0 * y0 - y1 * y1) % p == (x0 * x0 * x0 - 3 * x0 * x1 * x1 + b0) % p && (2 * y0 * y1)
        as int % p
        == (3 * x0 * x0 * x1 - x1 * x1 * x1 + b1) % p
    ||| x0 % base_order() == 0 && x1 % base_order() == 0 && y0 % base_order() == 0 && y1
        % base_order() == 0
}

/// What drawing a scalar with `ark_bn254::Fr::rand` gives.
pub uninterp spec fn bn254_fr_rand(seed: Seq<u8>, position: u128) -> (Bn254Fr, u128);

/// `ark_bn254::Fr::MODULUS`: the order of the groups. It is the prime of a prime field, in which every
/// element but zero has an inverse.
#[verifier::external_body]
fn fr_modulus() -> (res: [u64; 4])
    ensures
        limbs_value(res@) == scalar_order(),
        (forall|a: nat|
            0 < a < limbs_value(res@) ==> #[trigger] invertible(a, limbs_value(res@))),
{
    Fr::MODULUS.0
}

/// The product of two `ark_bn254::Fr`: the product of the residues.
#[verifier::external_body]
fn fr_mul(a: Bn254Fr, b: Bn254Fr) -> (res: Bn254Fr)
    ensures
        res.value() == (a.value() * b.value()) % scalar_order(),
{
    let c = Fr::new(BigInt(a.limbs)) * Fr::new(BigInt(b.limbs));
    Bn254Fr { limbs: c.into_bigint().0 }
}

/// `ark_bn254::Fr::inverse`: the multiplicative inverse of every residue but 0.
#[verifier::external_body]
fn fr_inverse(a: Bn254Fr) -> (res: Option<Bn254Fr>)
    ensures
        res is None <==> a.value() == 0,
        res matches Some(inverse) ==> (inverse.value() * a.value()) % scalar_order() == 1,
{
    Fr::new(BigInt(a.limbs)).inverse().map(|b| Bn254Fr { limbs: b.into_bigint().0 })
}

/// `ark_bn254::Fr::rand` on a `ChaCha20Rng` at a position of its key stream: the scalar drawn and
/// the position reached depend on the seed and the position alone.
#[verifier::external_body]
fn fr_rand(seed: [u8; 32], position: u128) -> (res: (Bn254Fr, u128))
    ensures
        res == bn254_fr_rand(seed@, position),
{
    let mut rng = ChaCha20Rng::from_seed(seed);
    rng.set_word_pos(position);
    let a = Fr::rand(&mut rng);
    (Bn254Fr { limbs: a.into_bigint().0 }, rng.get_word_pos())
}

/// `Radix2EvaluationDomain::<ark_bn254::Fr>::compute_size_of_domain`: the least power of two that is
/// not below `n`, where it fits and there are as many roots of unity in the field.
#[verifier::external_body]
fn fr_domain_size(n: usize) -> (res: Option<usize>)
    ensures
        match res {
            Some(size) => crate::math::domain_size(n as nat, 28) == Some(size as nat),
            None => crate::math::domain_size(n as nat, 28) is None,
        },
{
    Radix2EvaluationDomain::<Fr>::compute_size_of_domain(n)
}

impl ScalarModel for Bn254Fr {
    open spec fn order() -> nat {
        scalar_order()
    }

    open spec fn value(self) -> nat {
        limbs_value(self.limbs@) % scalar_order()
    }

    open spec fn two_adicity() -> nat {
        28
    }

    open spec fn root_of_unity() -> nat {
        19103219067921713944291392827692070036145651957329286315305642004821462161904nat
    }

    open spec fn sampled(seed: Seq<u8>, position: u128) -> (Self, u128) {
        bn254_fr_rand(seed, position)
    }
}

impl PrimeField for Bn254Fr {
    proof fn lemma_value(self) {
    }

    proof fn lemma_root_of_unity() {
        let root = Self::root_of_unity();
        let order = scalar_order();
        lemma2_to64();
        lemma_pow1(root as int);
        lemma_square_power(
            root,
            0,
            19103219067921713944291392827692070036145651957329286315305642004821462161904nat,
            2082940218526944230311718225077035922214683169814847712455127909555749686340nat,
            order,
        );
        lemma_square_power(
            root,
            1,
            2082940218526944230311718225077035922214683169814847712455127909555749686340nat,
            7419588552507395652481651088034484897579724952953562618697845598160172257810nat,
            order,
        );
        lemma_square_power(
            root,
            2,
            7419588552507395652481651088034484897579724952953562618697845598160172257810nat,
            19200870435978225707111062059747084165650991997241425080699860725083300967194nat,
            order,
        );
        lemma_square_power(
            root,
            3,
            19200870435978225707111062059747084165650991997241425080699860725083300967194nat,
            5709868443893258075976348696661355716898495876243883251619397131511003808859nat,
            order,
        );
        lemma_square_power(
            root,
            4,
            5709868443893258075976348696661355716898495876243883251619397131511003808859nat,
            934650972362265999028062457054462628285482693704334323590406443310927365533nat,
            order,
        );
        lemma_square_power(
            root,
            5,
            934650972362265999028062457054462628285482693704334323590406443310927365533nat,
            12143866164239048021030917283424216263377309185099704096317235600302831912062nat,
            order,
        );
        lemma_square_power(
            root,
            6,
            12143866164239048021030917283424216263377309185099704096317235600302831912062nat,
            13536764371732269273912573961853310557438878140379554347802702086337840854307nat,
            order,
        );
        lemma_square_power(
            root,
            7,
            13536764371732269273912573961853310557438878140379554347802702086337840854307nat,
            17220337697351015657950521176323262483320249231368149235373741788599650842711nat,
            order,
        );
        lemma_square_power(
            root,
            8,
            17220337697351015657950521176323262483320249231368149235373741788599650842711nat,
            15549849457946371566896172786938980432421851627449396898353380550861104573629nat,
            order,
        );
        lemma_square_power(
            root,
            9,
            15549849457946371566896172786938980432421851627449396898353380550861104573629nat,
            11699596668367776675346610687704220591435078791727316319397053191800576917728nat,
            order,
        );
        lemma_square_power(
            root,
            10,
            11699596668367776675346610687704220591435078791727316319397053191800576917728nat,
            12650941915662020058015862023665998998969191525479888727406889100124684769509nat,
            order,
        );
        lemma_square_power(
            root,
            11,
            12650941915662020058015862023665998998969191525479888727406889100124684769509nat,
            421743594562400382753388642386256516545992082196004333756405989743524594615nat,
            order,
        );
        lemma_square_power(
            root,
            12,
            421743594562400382753388642386256516545992082196004333756405989743524594615nat,
            20402931748843538985151001264530049874871572933694634836567070693966133783803nat,
            order,
        );
        lemma_square_power(
            root,
            13,
            20402931748843538985151001264530049874871572933694634836567070693966133783803nat,
            20619701001583904760601357484951574588621083236087856586626117568842480512645nat,
            order,
        );
        lemma_square_power(
            root,
            14,
            20619701001583904760601357484951574588621083236087856586626117568842480512645nat,
            197302210312744933010843010704445784068657690384188106020011018676818793232nat,
            order,
        );
        lemma_square_power(
            root,
            15,
            197302210312744933010843010704445784068657690384188106020011018676818793232nat,
            4158865282786404163413953114870269622875596290766033564087307867933865333818nat,
            order,
        );
        lemma_square_power(
            root,
            16,
            4158865282786404163413953114870269622875596290766033564087307867933865333818nat,
            1120550406532664055539694724667294622065367841900378087843176726913374367458nat,
            order,
        );
        lemma_square_power(
            root,
            17,
            1120550406532664055539694724667294622065367841900378087843176726913374367458nat,
            3161067157621608152362653341354432744960400845131437947728257924963983317266nat,
            order,
        );
        lemma_square_power(
            root,
            18,
            3161067157621608152362653341354432744960400845131437947728257924963983317266nat,
            6837567842312086091520287814181175430087169027974246751610506942214842701774nat,
            order,
        );
        lemma_square_power(
            root,
            19,
            6837567842312086091520287814181175430087169027974246751610506942214842701774nat,
            3478517300119284901893091970156912948790432420133812234316178878452092729974nat,
            order,
        );
        lemma_square_power(
            root,
            20,
            3478517300119284901893091970156912948790432420133812234316178878452092729974nat,
            10359452186428527605436343203440067497552205259388878191021578220384701716497nat,
            order,
        );
        lemma_square_power(
            root,
            21,
            10359452186428527605436343203440067497552205259388878191021578220384701716497nat,
            9088801421649573101014283686030284801466796108869023335878462724291607593530nat,
            order,
        );
        lemma_square_power(
            root,
            22,
            9088801421649573101014283686030284801466796108869023335878462724291607593530nat,
            4419234939496763621076330863786513495701855246241724391626358375488475697872nat,
            order,
        );
        lemma_square_power(
            root,
            23,
            4419234939496763621076330863786513495701855246241724391626358375488475697872nat,
            14940766826517323942636479241147756311199852622225275649687664389641784935947nat,
            order,
        );
        lemma_square_power(
            root,
            24,
            14940766826517323942636479241147756311199852622225275649687664389641784935947nat,
            19540430494807482326159819597004422086093766032135589407132600596362845576832nat,
            order,
        );
        lemma_square_power(
            root,
            25,
            19540430494807482326159819597004422086093766032135589407132600596362845576832nat,
            21888242871839275217838484774961031246007050428528088939761107053157389710902nat,
            order,
        );
        lemma_square_power(
            root,
            26,
            21888242871839275217838484774961031246007050428528088939761107053157389710902nat,
            21888242871839275222246405745257275088548364400416034343698204186575808495616nat,
            order,
        );
    }

    fn modulus() -> (res: [u64; 4]) {
        fr_modulus()
    }

    fn one() -> (res: Self) {
        let res = Bn254Fr { limbs: [1, 0, 0, 0] };
        proof {
            lemma_four_limbs(res.limbs@);
        }
        res
    }

    fn product(self, other: Self) -> (res: Self) {
        fr_mul(self, other)
    }

    fn inverse(self) -> (res: Option<Self>) {
        fr_inverse(self)
    }

    fn rand(rng: &mut SeededRng) -> (res: Self) {
        let (res, position) = fr_rand(rng.seed, rng.position);
        rng.position = position;
        res
    }

    fn domain_size(n: usize) -> (res: Option<usize>) {
        fr_domain_size(n)
    }
}

/// What `ark_bn254::G1Affine` times a scalar of value `k` gives.
pub uninterp spec fn bn254_g1_mul(p: Bn254G1, k: nat) -> Bn254G1;

/// What the sum of two `ark_bn254::G1Affine` gives.
pub uninterp spec fn bn254_g1_add(a: Bn254G1, b: Bn254G1) -> Bn254G1;

/// What the difference of two `ark_bn254::G1Projective` gives.
pub uninterp spec fn bn254_g1_sub(a: Bn254G1, b: Bn254G1) -> Bn254G1;

/// What `Radix2EvaluationDomain::fft` gives on `ark_bn254::G1Projective`.
pub uninterp spec fn bn254_g1_fft(values: Seq<Bn254G1>) -> Seq<Bn254G1>;

/// What `Radix2EvaluationDomain::ifft` gives on `ark_bn254::G1Projective`.
pub uninterp spec fn bn254_g1_ifft(values: Seq<Bn254G1>) -> Seq<Bn254G1>;

/// What drawing a point with `ark_bn254::G1Projective::rand` gives.
pub uninterp spec fn bn254_g1_rand(seed: Seq<u8>, position: u128) -> (Bn254G1, u128);

/// What `ark_bn254::G1Affine::serialize_with_mode` writes.
pub uninterp spec fn bn254_g1_bytes(p: Bn254G1, compress: bool) -> Seq<u8>;

/// What `ark_bn254::G1Affine::deserialize_with_mode` reads, and how many bytes it takes.
pub uninterp spec fn bn254_g1_read(bytes: Seq<u8>, compress: bool, validate: bool) -> Result<
    (Bn254G1, nat),
    Seq<char>,
>;

/// `ark_bn254::G1Affine::generator`: a point of the group's full order, which is what 1 times it is.
#[verifier::external_body]
fn g1_generator() -> (res: Bn254G1)
    ensures
        res == g1_generator_point(),
        res == bn254_g1_mul(res, 1),
        forall|j: nat, k: nat|
            #![trigger bn254_g1_mul(res, j), bn254_g1_mul(res, k)]
            j < scalar_order() && k < scalar_order() && bn254_g1_mul(res, j) == bn254_g1_mul(res, k)
                ==> j == k,
{
    let p = G1Affine::generator();
    Bn254G1 { x: p.x.into_bigint().0, y: p.y.into_bigint().0 }
}

/// `ark_bn254::G1Affine::zero`: the point at infinity, which is what 0 times the generator is.
#[verifier::external_body]
fn g1_zero() -> (res: Bn254G1)
    ensures
        res == (Bn254G1 { x: [0, 0, 0, 0], y: [0, 0, 0, 0] }),
        res == bn254_g1_mul(g1_generator_point(), 0),
{
    let p = G1Affine::zero();
    Bn254G1 { x: p.x.into_bigint().0, y: p.y.into_bigint().0 }
}

/// The sum of two `ark_bn254::G1Affine`: in the group, multiples of the generator add up modulo the
/// order. Points of the curve add up to a point of the curve, and multiplication distributes over
/// their sum.
#[verifier::external_body]
fn g1_add(a: Bn254G1, b: Bn254G1) -> (res: Bn254G1)
    ensures
        res == bn254_g1_add(a, b),
        in_group(a) && in_group(b) ==> res == bn254_g1_mul(
            g1_generator_point(),
            (log(a) + log(b)) % scalar_order(),
        ),
        a.on_curve() && b.on_curve() ==> res.on_curve() && distributes(res, a, b),
{
    let [a, b] = [a, b].map(|p| G1Affine::new_unchecked(Fq::new(BigInt(p.x)), Fq::new(BigInt(p.y))));
    let c = (a + b).into_affine();
    Bn254G1 { x: c.x.into_bigint().0, y: c.y.into_bigint().0 }
}

/// The difference of two `ark_bn254::G1Projective`: in the group, multiples of the generator are
/// subtracted modulo the order.
#[verifier::external_body]
fn g1_sub(a: Bn254G1, b: Bn254G1) -> (res: Bn254G1)
    ensures
        res == bn254_g1_sub(a, b),
        in_group(a) && in_group(b) ==> res == bn254_g1_mul(
            g1_generator_point(),
            ((log(a) + scalar_order() - log(b)) % (scalar_order() as int)) as nat,
        ),
{
    let [a, b] = [a, b].map(|p| G1Affine::new_unchecked(Fq::new(BigInt(p.x)), Fq::new(BigInt(p.y))));
    let c = (a.into_group() - b.into_group()).into_affine();
    Bn254G1 { x: c.x.into_bigint().0, y: c.y.into_bigint().0 }
}

/// A `ark_bn254::G1Affine` times a `ark_bn254::Fr`: in the group, a multiple of the generator is
/// multiplied modulo the order. Multiples of a point of the curve lie on the curve, and two
/// multiplications can change places.
#[verifier::external_body]
fn g1_mul(p: Bn254G1, k: Bn254Fr) -> (res: Bn254G1)
    ensures
        res == bn254_g1_mul(p, k.value()),
        in_group(p) ==> res == bn254_g1_mul(g1_generator_point(), (log(p) * k.value()) % scalar_order()),
        p.on_curve() ==> res.on_curve() && commutes(res, p, k.value()),
{
    let p = G1Affine::new_unchecked(Fq::new(BigInt(p.x)), Fq::new(BigInt(p.y)));
    let q = (p * Fr::new(BigInt(k.limbs))).into_affine();
    Bn254G1 { x: q.x.into_bigint().0, y: q.y.into_bigint().0 }
}

/// `Radix2EvaluationDomain::fft` on `ark_bn254::G1Projective`: the values of the polynomial with
/// these coefficients on the domain, and in the group its multiples are transformed modulo the
/// order.
#[verifier::external_body]
fn g1_fft(values: &Vec<Bn254G1>) -> (res: Vec<Bn254G1>)
    requires
        is_domain_size::<Bn254Fr>(values@.len()),
    ensures
        res@.len() == values@.len(),
        res@ == bn254_g1_fft(values@),
        all_in_group(values@) ==> res@ == exps::<Bn254G1>(
            dft(logs(values@), domain_root::<Bn254Fr>(values@.len()), scalar_order()),
        ),
{
    let domain = Radix2EvaluationDomain::<Fr>::new(values.len()).unwrap();
    let fq = |limbs| Fq::new(BigInt(limbs));
    let points: Vec<G1Projective> = values.iter().map(|p| G1Affine::new_unchecked(fq(p.x), fq(p.y)).into()).collect();
    G1Projective::normalize_batch(&domain.fft(&points)).iter().map(|p| Bn254G1 { x: p.x.into_bigint().0, y: p.y.into_bigint().0 }).collect()
}

/// `Radix2EvaluationDomain::ifft` on `ark_bn254::G1Projective`: the coefficients of the polynomial
/// with these values on the domain, and in the group its multiples are transformed modulo the
/// order.
#[verifier::external_body]
fn g1_ifft(values: &Vec<Bn254G1>) -> (res: Vec<Bn254G1>)
    requires
        is_domain_size::<Bn254Fr>(values@.len()),
    ensures
        res@.len() == values@.len(),
        res@ == bn254_g1_ifft(values@),
        all_in_group(values@) ==> res@ == exps::<Bn254G1>(
            inverse_dft(logs(values@), domain_root::<Bn254Fr>(values@.len()), scalar_order()),
        ),
{
    let domain = Radix2EvaluationDomain::<Fr>::new(values.len()).unwrap();
    let fq = |limbs| Fq::new(BigInt(limbs));
    let points: Vec<G1Projective> = values.iter().map(|p| G1Affine::new_unchecked(fq(p.x), fq(p.y)).into()).collect();
    G1Projective::normalize_batch(&domain.ifft(&points)).iter().map(|p| Bn254G1 { x: p.x.into_bigint().0, y: p.y.into_bigint().0 }).collect()
}

/// `ark_bn254::G1Projective::rand` on a `ChaCha20Rng` at a position of its key stream: the point
/// drawn lies in the group, and it and the position reached depend on the seed and the position
/// alone.
#[verifier::external_body]
fn g1_rand(seed: [u8; 32], position: u128) -> (res: (Bn254G1, u128))
    ensures
        res == bn254_g1_rand(seed@, position),
        in_group(res.0),
{
    let mut rng = ChaCha20Rng::from_seed(seed);
    rng.set_word_pos(position);
    let p = G1Projective::rand(&mut rng).into_affine();
    (Bn254G1 { x: p.x.into_bigint().0, y: p.y.into_bigint().0 }, rng.get_word_pos())
}

/// `ark_bn254::G1Affine::serialize_with_mode` into a vector, which does not fail and writes 32
/// bytes of a compressed point and 64 of one in full. `deserialize_with_mode` fails on fewer bytes.
/// A point of the group is read back by it from what was written, whatever follows it.
#[verifier::external_body]
fn g1_serialize(p: &Bn254G1, compress: bool) -> (res: Result<Vec<u8>, String>)
    ensures
        res is Ok,
        res->Ok_0@ == bn254_g1_bytes(*p, compress),
        res->Ok_0@.len() == (if compress {
            32
        } else {
            64nat
        }),
        (forall|bytes: Seq<u8>, validate: bool|
            bytes.len() < res->Ok_0@.len() ==> #[trigger] bn254_g1_read(bytes, compress, validate)
                is Err),
        (in_group(*p) ==> (forall|tail: Seq<u8>, validate: bool|
            #[trigger] bn254_g1_read(res->Ok_0@ + tail, compress, validate) == Ok::<
                (Bn254G1, nat),
                Seq<char>,
            >((*p, res->Ok_0@.len())))),
{
    let p = G1Affine::new_unchecked(Fq::new(BigInt(p.x)), Fq::new(BigInt(p.y)));
    let mode = if compress { Compress::Yes } else { Compress::No };
    let mut bytes = Vec::new();
    p.serialize_with_mode(&mut bytes, mode).map_err(|e| e.to_string())?;
    Ok(bytes)
}

/// `ark_bn254::G1Affine::deserialize_with_mode` from the start of `bytes`: the point and the number
/// of bytes left over, or the message of the error.
#[verifier::external_body]
fn g1_deserialize(bytes: &[u8], compress: bool, validate: bool) -> (res: Result<
    (Bn254G1, usize),
    String,
>)
    ensures
        match res {
            Ok((p, rest)) => rest <= bytes@.len() && bn254_g1_read(bytes@, compress, validate) == Ok::<
                (Bn254G1, nat),
                Seq<char>,
            >((p, (bytes@.len() - rest) as nat)),
            Err(message) => bn254_g1_read(bytes@, compress, validate) == Err::<
                (Bn254G1, nat),
                Seq<char>,
            >(message@),
        },
{
    let mut reader = bytes;
    let mode = if compress { Compress::Yes } else { Compress::No };
    let validate = if validate { Validate::Yes } else { Validate::No };
    let p = G1Affine::deserialize_with_mode(&mut reader, mode, validate);
    let p = p.map_err(|e| e.to_string())?;
    Ok((Bn254G1 { x: p.x.into_bigint().0, y: p.y.into_bigint().0 }, reader.len()))
}

/// `ark_bn254::G1Affine::check`, with `Fq::from_bigint` for the coordinates: whether they are
/// reduced and the point is a multiple of the generator.
#[verifier::external_body]
fn g1_check(p: &Bn254G1) -> (res: bool)
    ensures
        res == in_group(*p),
{
    match (Fq::from_bigint(BigInt(p.x)), Fq::from_bigint(BigInt(p.y))) {
        (Some(x), Some(y)) => G1Affine::new_unchecked(x, y).check().is_ok(),
        _ => false,
    }
}

impl GroupModel for Bn254G1 {
    type ScalarField = Bn254Fr;

    open spec fn exp(k: nat) -> Self {
        bn254_g1_mul(g1_generator_point(), k)
    }

    open spec fn on_curve(self) -> bool {
        g1_on_curve_spec(limbs_value(self.x@), limbs_value(self.y@))
    }

    open spec fn point_length(compress: bool) -> nat {
        if compress {
            32
        } else {
            64
        }
    }

    open spec fn outside_sum(a: Self, b: Self) -> Self {
        bn254_g1_add(a, b)
    }

    open spec fn outside_multiple(a: Self, k: nat) -> Self {
        bn254_g1_mul(a, k)
    }

    open spec fn outside_fft(values: Seq<Self>) -> Seq<Self> {
        bn254_g1_fft(values)
    }

    open spec fn outside_ifft(values: Seq<Self>) -> Seq<Self> {
        bn254_g1_ifft(values)
    }

    open spec fn sampled_point(seed: Seq<u8>, position: u128) -> (Self, u128) {
        bn254_g1_rand(seed, position)
    }
}

impl CanonicalModel for Bn254G1 {
    type Value = Bn254G1;

    open spec fn value_of(self) -> Self {
        self
    }

    open spec fn valid(value: Self) -> bool {
        in_group(value)
    }

    open spec fn encoding(value: Self, compress: bool) -> Seq<u8> {
        bn254_g1_bytes(value, compress)
    }

    open spec fn encoded_length(value: Self, compress: bool) -> nat {
        Self::point_length(compress)
    }

    open spec fn decoding(bytes: Seq<u8>, compress: bool, validate: bool) -> Result<
        (Self, nat),
        Seq<char>,
    > {
        bn254_g1_read(bytes, compress, validate)
    }
}

impl Canonical for Bn254G1 {
    fn serialize_with_mode(&self, compress: bool, out: &mut Vec<u8>) -> (res: Result<(), String>) {
        let mut bytes = g1_serialize(self, compress)?;
        out.append(&mut bytes);
        Ok(())
    }

    fn deserialize_with_mode(bytes: &[u8], compress: bool, validate: bool) -> (res: Result<
        (Self, usize),
        String,
    >) {
        let (p, rest) = g1_deserialize(bytes, compress, validate)?;
        Ok((p, bytes.len() - rest))
    }

    fn check(&self) -> (res: bool) {
        g1_check(self)
    }
}

impl AffineRepr for Bn254G1 {
    proof fn lemma_canonical(self) {
    }

    fn generator() -> (res: Self) {
        g1_generator()
    }

    fn zero() -> (res: Self) {
        let res = g1_zero();
        proof {
            lemma_four_limbs(res.x@);
        }
        res
    }

    fn plus(self, other: Self) -> (res: Self) {
        g1_add(self, other)
    }

    fn times(self, scalar: Bn254Fr) -> (res: Self) {
        g1_mul(self, scalar)
    }

    fn equals(&self, other: &Self) -> (res: bool) {
        limbs_equal(&self.x, &other.x) && limbs_equal(&self.y, &other.y)
    }

    fn fft(coefficients: &Vec<Self>) -> (res: Vec<Self>) {
        g1_fft(coefficients)
    }

    fn ifft(values: &Vec<Self>) -> (res: Vec<Self>) {
        g1_ifft(values)
    }

    fn rand(rng: &mut SeededRng) -> (res: Self) {
        let (res, position) = g1_rand(rng.seed, rng.position);
        rng.position = position;
        res
    }
}

impl Subtract for Bn254G1 {
    open spec fn outside_difference(a: Self, b: Self) -> Self {
        bn254_g1_sub(a, b)
    }

    fn minus(self, other: Self) -> (res: Self) {
        g1_sub(self, other)
    }
}

/// What `ark_bn254::G2Affine` times a scalar of value `k` gives.
pub uninterp spec fn bn254_g2_mul(p: Bn254G2, k: nat) -> Bn254G2;

/// What the sum of two `ark_bn254::G2Affine` gives.
pub uninterp spec fn bn254_g2_add(a: Bn254G2, b: Bn254G2) -> Bn254G2;

/// What `Radix2EvaluationDomain::fft` gives on `ark_bn254::G2Projective`.
pub uninterp spec fn bn254_g2_fft(values: Seq<Bn254G2>) -> Seq<Bn254G2>;

/// What `Radix2EvaluationDomain::ifft` gives on `ark_bn254::G2Projective`.
pub uninterp spec fn bn254_g2_ifft(values: Seq<Bn254G2>) -> Seq<Bn254G2>;

/// What drawing a point with `ark_bn254::G2Projective::rand` gives.
pub uninterp spec fn bn254_g2_rand(seed: Seq<u8>, position: u128) -> (Bn254G2, u128);

/// What `ark_bn254::G2Affine::serialize_with_mode` writes.
pub uninterp spec fn bn254_g2_bytes(p: Bn254G2, compress: bool) -> Seq<u8>;

/// What `ark_bn254::G2Affine::deserialize_with_mode` reads, and how many bytes it takes.
pub uninterp spec fn bn254_g2_read(bytes: Seq<u8>, compress: bool, validate: bool) -> Result<
    (Bn254G2, nat),
    Seq<char>,
>;

/// `ark_bn254::G2Affine::generator`: a point of the group's full order, which is what 1 times it is.
#[verifier::external_body]
fn g2_generator() -> (res: Bn254G2)
    ensures
        res == g2_generator_point(),
        res == bn254_g2_mul(res, 1),
        forall|j: nat, k: nat|
            #![trigger bn254_g2_mul(res, j), bn254_g2_mul(res, k)]
            j < scalar_order() && k < scalar_order() && bn254_g2_mul(res, j) == bn254_g2_mul(res, k)
                ==> j == k,
{
    let p = G2Affine::generator();
    Bn254G2 {
        x0: p.x.c0.into_bigint().0,
        x1: p.x.c1.into_bigint().0,
        y0: p.y.c0.into_bigint().0,
        y1: p.y.c1.into_bigint().0,
    }
}

/// `ark_bn254::G2Affine::zero`: the point at infinity, which is what 0 times the generator is.
#[verifier::external_body]
fn g2_zero() -> (res: Bn254G2)
    ensures
        res == (Bn254G2 {
            x0: [0, 0, 0, 0],
            x1: [0, 0, 0, 0],
            y0: [0, 0, 0, 0],
            y1: [0, 0, 0, 0],
        }),
        res == bn254_g2_mul(g2_generator_point(), 0),
{
    let p = G2Affine::zero();
    Bn254G2 {
        x0: p.x.c0.into_bigint().0,
        x1: p.x.c1.into_bigint().0,
        y0: p.y.c0.into_bigint().0,
        y1: p.y.c1.into_bigint().0,
    }
}

/// The sum of two `ark_bn254::G2Affine`: in the group, multiples of the generator add up modulo the
/// order. Points of the curve add up to a point of the curve, and multiplication distributes over
/// their sum.
#[verifier::external_body]
fn g2_add(a: Bn254G2, b: Bn254G2) -> (res: Bn254G2)
    ensures
        res == bn254_g2_add(a, b),
        in_group(a) && in_group(b) ==> res == bn254_g2_mul(
            g2_generator_point(),
            (log(a) + log(b)) % scalar_order(),
        ),
        a.on_curve() && b.on_curve() ==> res.on_curve() && distributes(res, a, b),
{
    let [a, b] = [a, b].map(|p| G2Affine::new_unchecked(
        Fq2::new(Fq::new(BigInt(p.x0)), Fq::new(BigInt(p.x1))),
        Fq2::new(Fq::new(BigInt(p.y0)), Fq::new(BigInt(p.y1))),
    ));
    let c = (a + b).into_affine();
    Bn254G2 {
        x0: c.x.c0.into_bigint().0,
        x1: c.x.c1.into_bigint().0,
        y0: c.y.c0.into_bigint().0,
        y1: c.y.c1.into_bigint().0,
    }
}

/// A `ark_bn254::G2Affine` times a `ark_bn254::Fr`: in the group, a multiple of the generator is
/// multiplied modulo the order. Multiples of a point of the curve lie on the curve, and two
/// multiplications can change places.
#[verifier::external_body]
fn g2_mul(p: Bn254G2, k: Bn254Fr) -> (res: Bn254G2)
    ensures
        res == bn254_g2_mul(p, k.value()),
        in_group(p) ==> res == bn254_g2_mul(g2_generator_point(), (log(p) * k.value()) % scalar_order()),
        p.on_curve() ==> res.on_curve() && commutes(res, p, k.value()),
{
    let p = G2Affine::new_unchecked(
        Fq2::new(Fq::new(BigInt(p.x0)), Fq::new(BigInt(p.x1))),
        Fq2::new(Fq::new(BigInt(p.y0)), Fq::new(BigInt(p.y1))),
    );
    let q = (p * Fr::new(BigInt(k.limbs))).into_affine();
    Bn254G2 {
        x0: q.x.c0.into_bigint().0,
        x1: q.x.c1.into_bigint().0,
        y0: q.y.c0.into_bigint().0,
        y1: q.y.c1.into_bigint().0,
    }
}

/// `Radix2EvaluationDomain::fft` on `ark_bn254::G2Projective`: the values of the polynomial with
/// these coefficients on the domain, and in the group its multiples are transformed modulo the
/// order.
#[verifier::external_body]
fn g2_fft(values: &Vec<Bn254G2>) -> (res: Vec<Bn254G2>)
    requires
        is_domain_size::<Bn254Fr>(values@.len()),
    ensures
        res@.len() == values@.len(),
        res@ == bn254_g2_fft(values@),
        all_in_group(values@) ==> res@ == exps::<Bn254G2>(
            dft(logs(values@), domain_root::<Bn254Fr>(values@.len()), scalar_order()),
        ),
{
    let domain = Radix2EvaluationDomain::<Fr>::new(values.len()).unwrap();
    let fq = |limbs| Fq::new(BigInt(limbs));
    let points: Vec<G2Projective> = values.iter().map(|p| G2Affine::new_unchecked(
        Fq2::new(fq(p.x0), fq(p.x1)),
        Fq2::new(fq(p.y0), fq(p.y1)),
    ).into()).collect();
    G2Projective::normalize_batch(&domain.fft(&points)).iter().map(|p| Bn254G2 {
        x0: p.x.c0.into_bigint().0,
        x1: p.x.c1.into_bigint().0,
        y0: p.y.c0.into_bigint().0,
        y1: p.y.c1.into_bigint().0,
    }).collect()
}

/// `Radix2EvaluationDomain::ifft` on `ark_bn254::G2Projective`: the coefficients of the polynomial
/// with these values on the domain, and in the group its multiples are transformed modulo the
/// order.
#[verifier::external_body]
fn g2_ifft(values: &Vec<Bn254G2>) -> (res: Vec<Bn254G2>)
    requires
        is_domain_size::<Bn254Fr>(values@.len()),
    ensures
        res@.len() == values@.len(),
        res@ == bn254_g2_ifft(values@),
        all_in_group(values@) ==> res@ == exps::<Bn254G2>(
            inverse_dft(logs(values@), domain_root::<Bn254Fr>(values@.len()), scalar_order()),
        ),
{
    let domain = Radix2EvaluationDomain::<Fr>::new(values.len()).unwrap();
    let fq = |limbs| Fq::new(BigInt(limbs));
    let points: Vec<G2Projective> = values.iter().map(|p| G2Affine::new_unchecked(
        Fq2::new(fq(p.x0), fq(p.x1)),
        Fq2::new(fq(p.y0), fq(p.y1)),
    ).into()).collect();
    G2Projective::normalize_batch(&domain.ifft(&points)).iter().map(|p| Bn254G2 {
        x0: p.x.c0.into_bigint().0,
        x1: p.x.c1.into_bigint().0,
        y0: p.y.c0.into_bigint().0,
        y1: p.y.c1.into_bigint().0,
    }).collect()
}

/// `ark_bn254::G2Projective::rand` on a `ChaCha20Rng` at a position of its key stream: the point
/// drawn lies in the group, and it and the position reached depend on the seed and the position
/// alone.
#[verifier::external_body]
fn g2_rand(seed: [u8; 32], position: u128) -> (res: (Bn254G2, u128))
    ensures
        res == bn254_g2_rand(seed@, position),
        in_group(res.0),
{
    let mut rng = ChaCha20Rng::from_seed(seed);
    rng.set_word_pos(position);
    let p = G2Projective::rand(&mut rng).into_affine();
    (Bn254G2 {
        x0: p.x.c0.into_bigint().0,
        x1: p.x.c1.into_bigint().0,
        y0: p.y.c0.into_bigint().0,
        y1: p.y.c1.into_bigint().0,
    }, rng.get_word_pos())
}

/// `ark_bn254::G2Affine::serialize_with_mode` into a vector, which does not fail and writes 64
/// bytes of a compressed point and 128 of one in full. `deserialize_with_mode` fails on fewer bytes.
/// A point of the group is read back by it from what was written, whatever follows it.
#[verifier::external_body]
fn g2_serialize(p: &Bn254G2, compress: bool) -> (res: Result<Vec<u8>, String>)
    ensures
        res is Ok,
        res->Ok_0@ == bn254_g2_bytes(*p, compress),
        res->Ok_0@.len() == (if compress {
            64
        } else {
            128nat
        }),
        (forall|bytes: Seq<u8>, validate: bool|
            bytes.len() < res->Ok_0@.len() ==> #[trigger] bn254_g2_read(bytes, compress, validate)
                is Err),
        (in_group(*p) ==> (forall|tail: Seq<u8>, validate: bool|
            #[trigger] bn254_g2_read(res->Ok_0@ + tail, compress, validate) == Ok::<
                (Bn254G2, nat),
                Seq<char>,
            >((*p, res->Ok_0@.len())))),
{
    let p = G2Affine::new_unchecked(
        Fq2::new(Fq::new(BigInt(p.x0)), Fq::new(BigInt(p.x1))),
        Fq2::new(Fq::new(BigInt(p.y0)), Fq::new(BigInt(p.y1))),
    );
    let mode = if compress { Compress::Yes } else { Compress::No };
    let mut bytes = Vec::new();
    p.serialize_with_mode(&mut bytes, mode).map_err(|e| e.to_string())?;
    Ok(bytes)
}

/// `ark_bn254::G2Affine::deserialize_with_mode` from the start of `bytes`: the point and the number
/// of bytes left over, or the message of the error.
#[verifier::external_body]
fn g2_deserialize(bytes: &[u8], compress: bool, validate: bool) -> (res: Result<
    (Bn254G2, usize),
    String,
>)
    ensures
        match res {
            Ok((p, rest)) => rest <= bytes@.len() && bn254_g2_read(bytes@, compress, validate) == Ok::<
                (Bn254G2, nat),
                Seq<char>,
            >((p, (bytes@.len() - rest) as nat)),
            Err(message) => bn254_g2_read(bytes@, compress, validate) == Err::<
                (Bn254G2, nat),
                Seq<char>,
            >(message@),
        },
{
    let mut reader = bytes;
    let mode = if compress { Compress::Yes } else { Compress::No };
    let validate = if validate { Validate::Yes } else { Validate::No };
    let p = G2Affine::deserialize_with_mode(&mut reader, mode, validate);
    let p = p.map_err(|e| e.to_string())?;
    Ok((Bn254G2 {
        x0: p.x.c0.into_bigint().0,
        x1: p.x.c1.into_bigint().0,
        y0: p.y.c0.into_bigint().0,
        y1: p.y.c1.into_bigint().0,
    }, reader.len()))
}

/// `ark_bn254::G2Affine::check`, with `Fq::from_bigint` for the coordinates: whether they are
/// reduced and the point is a multiple of the generator.
#[verifier::external_body]
fn g2_check(p: &Bn254G2) -> (res: bool)
    ensures
        res == in_group(*p),
{
    let x = (Fq::from_bigint(BigInt(p.x0)), Fq::from_bigint(BigInt(p.x1)));
    let y = (Fq::from_bigint(BigInt(p.y0)), Fq::from_bigint(BigInt(p.y1)));
    match (x, y) {
        ((Some(x0), Some(x1)), (Some(y0), Some(y1))) => {
            let (x, y) = (Fq2::new(x0, x1), Fq2::new(y0, y1));
            G2Affine::new_unchecked(x, y).check().is_ok()
        },
        _ => false,
    }
}

impl GroupModel for Bn254G2 {
    type ScalarField = Bn254Fr;

    open spec fn exp(k: nat) -> Self {
        bn254_g2_mul(g2_generator_point(), k)
    }

    open spec fn on_curve(self) -> bool {
        g2_on_curve_spec(
            limbs_value(self.x0@),
            limbs_value(self.x1@),
            limbs_value(self.y0@),
            limbs_value(self.y1@),
        )
    }

    open spec fn point_length(compress: bool) -> nat {
        if compress {
            64
        } else {
            128
        }
    }

    open spec fn outside_sum(a: Self, b: Self) -> Self {
        bn254_g2_add(a, b)
    }

    open spec fn outside_multiple(a: Self, k: nat) -> Self {
        bn254_g2_mul(a, k)
    }

    open spec fn outside_fft(values: Seq<Self>) -> Seq<Self> {
        bn254_g2_fft(values)
    }

    open spec fn outside_ifft(values: Seq<Self>) -> Seq<Self> {
        bn254_g2_ifft(values)
    }

    open spec fn sampled_point(seed: Seq<u8>, position: u128) -> (Self, u128) {
        bn254_g2_rand(seed, position)
    }
}

impl CanonicalModel for Bn254G2 {
    type Value = Bn254G2;

    open spec fn value_of(self) -> Self {
        self
    }

    open spec fn valid(value: Self) -> bool {
        in_group(value)
    }

    open spec fn encoding(value: Self, compress: bool) -> Seq<u8> {
        bn254_g2_bytes(value, compress)
    }

    open spec fn encoded_length(value: Self, compress: bool) -> nat {
        Self::point_length(compress)
    }

    open spec fn decoding(bytes: Seq<u8>, compress: bool, validate: bool) -> Result<
        (Self, nat),
        Seq<char>,
    > {
        bn254_g2_read(bytes, compress, validate)
    }
}

impl Canonical for Bn254G2 {
    fn serialize_with_mode(&self, compress: bool, out: &mut Vec<u8>) -> (res: Result<(), String>) {
        let mut bytes = g2_serialize(self, compress)?;
        out.append(&mut bytes);
        Ok(())
    }

    fn deserialize_with_mode(bytes: &[u8], compress: bool, validate: bool) -> (res: Result<
        (Self, usize),
        String,
    >) {
        let (p, rest) = g2_deserialize(bytes, compress, validate)?;
        Ok((p, bytes.len() - rest))
    }

    fn check(&self) -> (res: bool) {
        g2_check(self)
    }
}

impl AffineRepr for Bn254G2 {
    proof fn lemma_canonical(self) {
    }

    fn generator() -> (res: Self) {
        g2_generator()
    }

    fn zero() -> (res: Self) {
        let res = g2_zero();
        proof {
            lemma_four_limbs(res.x0@);
        }
        res
    }

    fn plus(self, other: Self) -> (res: Self) {
        g2_add(self, other)
    }

    fn times(self, scalar: Bn254Fr) -> (res: Self) {
        g2_mul(self, scalar)
    }

    fn equals(&self, other: &Self) -> (res: bool) {
        limbs_equal(&self.x0, &other.x0) && limbs_equal(&self.x1, &other.x1) && limbs_equal(
            &self.y0,
            &other.y0,
        ) && limbs_equal(&self.y1, &other.y1)
    }

    fn fft(coefficients: &Vec<Self>) -> (res: Vec<Self>) {
        g2_fft(coefficients)
    }

    fn ifft(values: &Vec<Self>) -> (res: Vec<Self>) {
        g2_ifft(values)
    }

    fn rand(rng: &mut SeededRng) -> (res: Self) {
        let (res, position) = g2_rand(rng.seed, rng.position);
        rng.position = position;
        res
    }
}

/// Whether two pairs of points have the same pairing by `ark_bn254::Bn254`.
pub uninterp spec fn bn254_same_pairing(
    a: Bn254G1,
    b: Bn254G2,
    c: Bn254G1,
    d: Bn254G2,
) -> Option<bool>;

/// `ark_bn254::Bn254::miller_loop` and `final_exponentiation` on two pairs of points, and `==` on
/// what they give, or `None` where one of the Miller loops ends in zero, which has no final
/// exponentiation. In the groups both have one: the pairing is bilinear and its value on the
/// generators has the groups' order.
#[verifier::external_body]
fn same_pairing(a: Bn254G1, b: Bn254G2, c: Bn254G1, d: Bn254G2) -> (res: Option<bool>)
    ensures
        res == bn254_same_pairing(a, b, c, d),
        in_group(a) && in_group(b) && in_group(c) && in_group(d) ==> res == Some(
            (log(a) * log(b)) % scalar_order() == (log(c) * log(d)) % scalar_order(),
        ),
{
    let [a, c] = [a, c].map(|p| G1Affine::new_unchecked(Fq::new(BigInt(p.x)), Fq::new(BigInt(p.y))));
    let [b, d] = [b, d].map(|p| G2Affine::new_unchecked(
        Fq2::new(Fq::new(BigInt(p.x0)), Fq::new(BigInt(p.x1))),
        Fq2::new(Fq::new(BigInt(p.y0)), Fq::new(BigInt(p.y1))),
    ));
    let left = ark_bn254::Bn254::final_exponentiation(ark_bn254::Bn254::miller_loop(a, b))?;
    let right = ark_bn254::Bn254::final_exponentiation(ark_bn254::Bn254::miller_loop(c, d))?;
    Some(left == right)
}

impl Pairing for Bn254 {
    type ScalarField = Bn254Fr;

    type G1Affine = Bn254G1;

    type G2Affine = Bn254G2;

    open spec fn outside_same_pairing(
        a: Bn254G1,
        b: Bn254G2,
        c: Bn254G1,
        d: Bn254G2,
    ) -> Option<bool> {
        bn254_same_pairing(a, b, c, d)
    }

    fn same_pairing(a: Bn254G1, b: Bn254G2, c: Bn254G1, d: Bn254G2) -> (res: Option<bool>) {
        same_pairing(a, b, c, d)
    }
}

} // verus!
