use vstd::arithmetic::power::lemma_pow1;
use vstd::arithmetic::power2::lemma2_to64;
use vstd::prelude::*;

use ark_ec::pairing::Pairing as _;
use ark_ec::{AffineRepr as _, CurveGroup};
use ark_ff::{BigInt, Field, PrimeField as _, UniformRand};
use ark_poly::{EvaluationDomain, Radix2EvaluationDomain};
use ark_serialize::{
    CanonicalDeserialize, CanonicalSerialize, Compress, Valid as _, Validate,
};
use ark_bls12_381::{Fq, Fq2, Fr, G1Affine, G1Projective, G2Affine, G2Projective};
use rand::SeedableRng;
use rand_chacha::ChaCha20Rng;

use crate::algebra::invertible;
use crate::canonical::{Canonical, CanonicalModel};
use crate::curve::{
    all_in_group, commutes, distributes, domain_root, exps, in_group, is_domain_size, log, logs,
    AffineRepr, GroupModel, Pairing, PrimeField, ScalarModel, Subtract,
};
use crate::math::{dft, inverse_dft, lemma_four_limbs, lemma_six_limbs, limbs_equal, limbs_value};
use crate::rng::SeededRng;
use crate::transform::lemma_square_power;

verus! {

/// The BLS12-381 pairing.
#[derive(Clone, Copy, Debug, PartialEq, Eq)]
pub struct Bls12_381;

/// A scalar of the BLS12-381 groups, by the limbs of a number that represents it, least
/// significant first.
#[derive(Clone, Copy, Debug, PartialEq, Eq)]
pub struct Bls12381Fr {
    pub limbs: [u64; 4],
}

/// A point of the BLS12-381 curve over the base field, by the limbs of its affine coordinates,
/// least significant first. The point at infinity has both coordinates 0.
#[derive(Clone, Copy, Debug, PartialEq, Eq)]
pub struct Bls12381G1 {
    pub x: [u64; 6],
    pub y: [u64; 6],
}

/// A point of the BLS12-381 twist, with coordinates `x0 + x1 u` and `y0 + y1 u` where
/// `u^2 = -1`. The point at infinity has all of them 0.
#[derive(Clone, Copy, Debug, PartialEq, Eq)]
pub struct Bls12381G2 {
    pub x0: [u64; 6],
    pub x1: [u64; 6],
    pub y0: [u64; 6],
    pub y1: [u64; 6],
}

/// The order of the groups.
pub open spec fn scalar_order() -> nat {
    52435875175126190479447740508185965837690552500527637822603658699938581184513nat
}

/// The order of the base field.
pub open spec fn base_order() -> nat {
    4002409555221667393417789825735904156556882819939007885332058136124031650490837864442687629129015664037894272559787nat
}

pub open spec fn g1_generator_point() -> Bls12381G1 {
    Bls12381G1 {
        x: [0xfb3af00adb22c6bb, 0x6c55e83ff97a1aef, 0xa14e3a3f171bac58, 0xc3688c4f9774b905, 0x2695638c4fa9ac0f, 0x17f1d3a73197d794],
        y: [0xcaa232946c5e7e1, 0xd03cc744a2888ae4, 0xdb18cb2c04b3ed, 0xfcf5e095d5d00af6, 0xa09e30ed741d8ae4, 0x8b3f481e3aaa0f1],
    }
}

pub open spec fn g2_generator_point() -> Bls12381G2 {
    Bls12381G2 {
        x0: [0xd48056c8c121bdb8, 0xbac0326a805bbef, 0xb4510b647ae3d177, 0xc6e47ad4fa403b02, 0x260805272dc51051, 0x24aa2b2f08f0a91],
        x1: [0xe5ac7d055d042b7e, 0x334cf11213945d57, 0xb5da61bbdc7f5049, 0x596bd0d09920b61a, 0x7dacd3a088274f65, 0x13e02b6052719f60],
        y0: [0xe193548608b82801, 0x923ac9cc3baca289, 0x6d429a695160d12c, 0xadfd9baa8cbdd3a7, 0x8cc9cdc6da2e351a, 0xce5d527727d6e11],
        y1: [0xaaa9075ff05f79be, 0x3f370d275cec1da1, 0x267492ab572e99ab, 0xcb3e287e85a763af, 0x32acd2b02bc28b99, 0x606c4a02ea734cc],
    }
}

/// Whether `y^2 = x^3 + 4` in the base field, or the coordinates are those of the point at infinity.
pub open spec fn g1_on_curve_spec(x: nat, y: nat) -> bool {
    let p = base_order();
    (y * y) % p == (x * x * x + 4) % p || (x % p == 0 && y % p == 0)
}

/// The coefficient `b` of the twist, as `b0 + b1 u`.
pub open spec fn twist_coefficient() -> (int, int) {
    (
        4int,
        4int,
    )
}

/// Whether `y^2 = x^3 + b` for `x = x0 + x1 u` and `y = y0 + y1 u`, or the coordinates are those of
/// the point at infinity.
pub open spec fn g2_on_curve_spec(x0: nat, x1: nat, y0: nat, y1: nat) -> bool {
    let p = base_order() as int;
    let (b0, b1) = twist_coefficient();
    ||| (y0 * y0 - y1 * y1) % p == (x0 * x0 * x0 - 3 * x0 * x1 * x1 + b0) % p && (2 * y0 * y1)
        as int % p
        == (3 * x0 * x0 * x1 - x1 * x1 * x1 + b1) % p
    ||| x0 % base_order() == 0 && x1 % base_order() == 0 && y0 % base_order() == 0 && y1
        % base_order() == 0
}

/// What drawing a scalar with `ark_bls12_381::Fr::rand` gives.
pub uninterp spec fn bls12_381_fr_rand(seed: Seq<u8>, position: u128) -> (Bls12381Fr, u128);

/// `ark_bls12_381::Fr::MODULUS`: the order of the groups. It is the prime of a prime field, in which every
/// element but zero has an inverse.
#[verifier::external_body]
fn fr_modulus() -> (res: [u64; 4])
    ensures
        limbs_value(res@) == scalar_order(),
        (forall|a: nat|
            0 < a < limbs_value(res@) ==> #[trigger] invertible(a, limbs_value(res@))),
{
    Fr::MODULUS.0
}

/// The product of two `ark_bls12_381::Fr`: the product of the residues.
#[verifier::external_body]
fn fr_mul(a: Bls12381Fr, b: Bls12381Fr) -> (res: Bls12381Fr)
    ensures
        res.value() == (a.value() * b.value()) % scalar_order(),
{
    let c = Fr::new(BigInt(a.limbs)) * Fr::new(BigInt(b.limbs));
    Bls12381Fr { limbs: c.into_bigint().0 }
}

/// `ark_bls12_381::Fr::inverse`: the multiplicative inverse of every residue but 0.
#[verifier::external_body]
fn fr_inverse(a: Bls12381Fr) -> (res: Option<Bls12381Fr>)
    ensures
        res is None <==> a.value() == 0,
        res matches Some(inverse) ==> (inverse.value() * a.value()) % scalar_order() == 1,
{
    Fr::new(BigInt(a.limbs)).inverse().map(|b| Bls12381Fr { limbs: b.into_bigint().0 })
}

/// `ark_bls12_381::Fr::rand` on a `ChaCha20Rng` at a position of its key stream: the scalar drawn and
/// the position reached depend on the seed and the position alone.
#[verifier::external_body]
fn fr_rand(seed: [u8; 32], position: u128) -> (res: (Bls12381Fr, u128))
    ensures
        res == bls12_381_fr_rand(seed@, position),
{
    let mut rng = ChaCha20Rng::from_seed(seed);
    rng.set_word_pos(position);
    let a = Fr::rand(&mut rng);
    (Bls12381Fr { limbs: a.into_bigint().0 }, rng.get_word_pos())
}

/// `Radix2EvaluationDomain::<ark_bls12_381::Fr>::compute_size_of_domain`: the least power of two that is
/// not below `n`, where it fits and there are as many roots of unity in the field.
#[verifier::external_body]
fn fr_domain_size(n: usize) -> (res: Option<usize>)
    ensures
        match res {
            Some(size) => crate::math::domain_size(n as nat, 32) == Some(size as nat),
            None => crate::math::domain_size(n as nat, 32) is None,
        },
{
    Radix2EvaluationDomain::<Fr>::compute_size_of_domain(n)
}

impl ScalarModel for Bls12381Fr {
    open spec fn order() -> nat {
        scalar_order()
    }

    open spec fn value(self) -> nat {
        limbs_value(self.limbs@) % scalar_order()
    }

    open spec fn two_adicity() -> nat {
        32
    }

    open spec fn root_of_unity() -> nat {
        10238227357739495823651030575849232062558860180284477541189508159991286009131nat
    }

    open spec fn sampled(seed: Seq<u8>, position: u128) -> (Self, u128) {
        bls12_381_fr_rand(seed, position)
    }
}

impl PrimeField for Bls12381Fr {
    proof fn lemma_value(self) {
    }

    proof fn lemma_root_of_unity() {
        let root = Self::root_of_unity();
        let order = scalar_order();
        lemma2_to64();
        lemma_pow1(root as int);
        lemma_square_power(
            root,
            0,
            10238227357739495823651030575849232062558860180284477541189508159991286009131nat,
            34070893824967080313820779135880760772780807222436853681508667398599787661631nat,
            order,
        );
        lemma_square_power(
            root,
            1,
            34070893824967080313820779135880760772780807222436853681508667398599787661631nat,
            20094891866007995289136270587723853997043774683345353712639419774914899074390nat,
            order,
        );
        lemma_square_power(
            root,
            2,
            20094891866007995289136270587723853997043774683345353712639419774914899074390nat,
            5660829372603820951332104046316074966592589311213397907344198301300676239643nat,
            order,
        );
        lemma_square_power(
            root,
            3,
            5660829372603820951332104046316074966592589311213397907344198301300676239643nat,
            37480612446576615530266821837655054090426372233228960378061628060638903214217nat,
            order,
        );
        lemma_square_power(
            root,
            4,
            37480612446576615530266821837655054090426372233228960378061628060638903214217nat,
            15932505959375582308231798849995567447410469395474322018100309999481287547373nat,
            order,
        );
        lemma_square_power(
            root,
            5,
            15932505959375582308231798849995567447410469395474322018100309999481287547373nat,
            4541622677469846713471916119560591929733417256448031920623614406126544048514nat,
            order,
        );
        lemma_square_power(
            root,
            6,
            4541622677469846713471916119560591929733417256448031920623614406126544048514nat,
            734830308204920577628633053915970695663549910788964686411700880930222744862nat,
            order,
        );
        lemma_square_power(
            root,
            7,
            734830308204920577628633053915970695663549910788964686411700880930222744862nat,
            18596002123094854211120822350746157678791770803088570110573239418060655130524nat,
            order,
        );
        lemma_square_power(
            root,
            8,
            18596002123094854211120822350746157678791770803088570110573239418060655130524nat,
            52167942466760591552294394977846462646742207006759917080697723404762651336366nat,
            order,
        );
        lemma_square_power(
            root,
            9,
            52167942466760591552294394977846462646742207006759917080697723404762651336366nat,
            4859563557044021881916617240989566298388494151979623102977292742331120628579nat,
            order,
        );
        lemma_square_power(
            root,
            10,
            4859563557044021881916617240989566298388494151979623102977292742331120628579nat,
            32468834368094611004052562760214251466632493208153926274007662173556188291130nat,
            order,
        );
        lemma_square_power(
            root,
            11,
            32468834368094611004052562760214251466632493208153926274007662173556188291130nat,
            1755840822790712607783180844474754741366353396308200820563736496551326485835nat,
            order,
        );
        lemma_square_power(
            root,
            12,
            1755840822790712607783180844474754741366353396308200820563736496551326485835nat,
            37115000097562964541269718788523040559386243094666416358585267518228781043101nat,
            order,
        );
        lemma_square_power(
            root,
            13,
            37115000097562964541269718788523040559386243094666416358585267518228781043101nat,
            20439484849038267462774237595151440867617792718791690563928621375157525968123nat,
            order,
        );
        lemma_square_power(
            root,
            14,
            20439484849038267462774237595151440867617792718791690563928621375157525968123nat,
            15495926509001846844474268026226183818445427694968626800913907911890390421264nat,
            order,
        );
        lemma_square_power(
            root,
            15,
            15495926509001846844474268026226183818445427694968626800913907911890390421264nat,
            15076889834420168339092859836519192632846122361203618639585008852351569017005nat,
            order,
        );
        lemma_square_power(
            root,
            16,
            15076889834420168339092859836519192632846122361203618639585008852351569017005nat,
            22872204467218851938836547481240843888453165451755431061227190987689039608686nat,
            order,
        );
        lemma_square_power(
            root,
            17,
            22872204467218851938836547481240843888453165451755431061227190987689039608686nat,
            39072540533732477250409069030641316533649120504872707460480262653418090977761nat,
            order,
        );
        lemma_square_power(
            root,
            18,
            39072540533732477250409069030641316533649120504872707460480262653418090977761nat,
            32731401973776920074999878620293785439674386180695720638377027142500196583783nat,
            order,
        );
        lemma_square_power(
            root,
            19,
            32731401973776920074999878620293785439674386180695720638377027142500196583783nat,
            39033254847818212395286706435128746857159659164139250548781411570340225835782nat,
            order,
        );
        lemma_square_power(
            root,
            20,
            39033254847818212395286706435128746857159659164139250548781411570340225835782nat,
            49307615728544765012166121802278658070711169839041683575071795236746050763237nat,
            order,
        );
        lemma_square_power(
            root,
            21,
            49307615728544765012166121802278658070711169839041683575071795236746050763237nat,
            22781213702924172180523978385542388841346373992886390990881355510284839737428nat,
            order,
        );
        lemma_square_power(
            root,
            22,
            22781213702924172180523978385542388841346373992886390990881355510284839737428nat,
            4214636447306890335450803789410475782380792963881561516561680164772024173390nat,
            order,
        );
        lemma_square_power(
            root,
            23,
            4214636447306890335450803789410475782380792963881561516561680164772024173390nat,
            36007022166693598376559747923784822035233416720563672082740011604939309541707nat,
            order,
        );
        lemma_square_power(
            root,
            24,
            36007022166693598376559747923784822035233416720563672082740011604939309541707nat,
            47309214877430199588914062438791732591241783999377560080318349803002842391998nat,
            order,
        );
        lemma_square_power(
            root,
            25,
            47309214877430199588914062438791732591241783999377560080318349803002842391998nat,
            31519469946562159605140591558550197856588417350474800936898404023113662197331nat,
            order,
        );
        lemma_square_power(
            root,
            26,
            31519469946562159605140591558550197856588417350474800936898404023113662197331nat,
            36581797046584068049060372878520385032448812009597153775348195406694427778894nat,
            order,
        );
        lemma_square_power(
            root,
            27,
            36581797046584068049060372878520385032448812009597153775348195406694427778894nat,
            14788168760825820622209131888203028446852016562542525606630160374691593895118nat,
            order,
        );
        lemma_square_power(
            root,
            28,
            14788168760825820622209131888203028446852016562542525606630160374691593895118nat,
            23674694431658770659612952115660802947967373701506253797663184111817857449850nat,
            order,
        );
        lemma_square_power(
            root,
            29,
            23674694431658770659612952115660802947967373701506253797663184111817857449850nat,
            3465144826073652318776269530687742778270252468765361963008nat,
            order,
        );
        lemma_square_power(
            root,
            30,
            3465144826073652318776269530687742778270252468765361963008nat,
            52435875175126190479447740508185965837690552500527637822603658699938581184512nat,
            order,
        );
    }

    fn modulus() -> (res: [u64; 4]) {
        fr_modulus()
    }

    fn one() -> (res: Self) {
        let res = Bls12381Fr { limbs: [1, 0, 0, 0] };
        proof {
            lemma_four_limbs(res.limbs@);
        }
        res
    }

    fn product(self, other: Self) -> (res: Self) {
        fr_mul(self, other)
    }

    fn inverse(self) -> (res: Option<Self>) {
        fr_inverse(self)
    }

    fn rand(rng: &mut SeededRng) -> (res: Self) {
        let (res, position) = fr_rand(rng.seed, rng.position);
        rng.position = position;
        res
    }

    fn domain_size(n: usize) -> (res: Option<usize>) {
        fr_domain_size(n)
    }
}

/// What `ark_bls12_381::G1Affine` times a scalar of value `k` gives.
pub uninterp spec fn bls12_381_g1_mul(p: Bls12381G1, k: nat) -> Bls12381G1;

/// What the sum of two `ark_bls12_381::G1Affine` gives.
pub uninterp spec fn bls12_381_g1_add(a: Bls12381G1, b: Bls12381G1) -> Bls12381G1;

/// What the difference of two `ark_bls12_381::G1Projective` gives.
pub uninterp spec fn bls12_381_g1_sub(a: Bls12381G1, b: Bls12381G1) -> Bls12381G1;

/// What `Radix2EvaluationDomain::fft` gives on `ark_bls12_381::G1Projective`.
pub uninterp spec fn bls12_381_g1_fft(values: Seq<Bls12381G1>) -> Seq<Bls12381G1>;

/// What `Radix2EvaluationDomain::ifft` gives on `ark_bls12_381::G1Projective`.
pub uninterp spec fn bls12_381_g1_ifft(values: Seq<Bls12381G1>) -> Seq<Bls12381G1>;

/// What drawing a point with `ark_bls12_381::G1Projective::rand` gives.
pub uninterp spec fn bls12_381_g1_rand(seed: Seq<u8>, position: u128) -> (Bls12381G1, u128);

/// What `ark_bls12_381::G1Affine::serialize_with_mode` writes.
pub uninterp spec fn bls12_381_g1_bytes(p: Bls12381G1, compress: bool) -> Seq<u8>;

/// What `ark_bls12_381::G1Affine::deserialize_with_mode` reads, and how many bytes it takes.
pub uninterp spec fn bls12_381_g1_read(bytes: Seq<u8>, compress: bool, validate: bool) -> Result<
    (Bls12381G1, nat),
    Seq<char>,
>;

/// `ark_bls12_381::G1Affine::generator`: a point of the group's full order, which is what 1 times it is.
#[verifier::external_body]
fn g1_generator() -> (res: Bls12381G1)
    ensures
        res == g1_generator_point(),
        res == bls12_381_g1_mul(res, 1),
        forall|j: nat, k: nat|
            #![trigger bls12_381_g1_mul(res, j), bls12_381_g1_mul(res, k)]
            j < scalar_order() && k < scalar_order() && bls12_381_g1_mul(res, j) == bls12_381_g1_mul(res, k)
                ==> j == k,
{
    let p = G1Affine::generator();
    Bls12381G1 { x: p.x.into_bigint().0, y: p.y.into_bigint().0 }
}

/// `ark_bls12_381::G1Affine::zero`: the point at infinity, which is what 0 times the generator is.
#[verifier::external_body]
fn g1_zero() -> (res: Bls12381G1)
    ensures
        res == (Bls12381G1 { x: [0, 0, 0, 0, 0, 0], y: [0, 0, 0, 0, 0, 0] }),
        res == bls12_381_g1_mul(g1_generator_point(), 0),
{
    let p = G1Affine::zero();
    Bls12381G1 { x: p.x.into_bigint().0, y: p.y.into_bigint().0 }
}

/// The sum of two `ark_bls12_381::G1Affine`: in the group, multiples of the generator add up modulo the
/// order. Points of the curve add up to a point of the curve, and multiplication distributes over
/// their sum.
#[verifier::external_body]
fn g1_add(a: Bls12381G1, b: Bls12381G1) -> (res: Bls12381G1)
    ensures
        res == bls12_381_g1_add(a, b),
        in_group(a) && in_group(b) ==> res == bls12_381_g1_mul(
            g1_generator_point(),
            (log(a) + log(b)) % scalar_order(),
        ),
        a.on_curve() && b.on_curve() ==> res.on_curve() && distributes(res, a, b),
{
    let [a, b] = [a, b].map(|p| G1Affine::new_unchecked(Fq::new(BigInt(p.x)), Fq::new(BigInt(p.y))));
    let c = (a + b).into_affine();
    Bls12381G1 { x: c.x.into_bigint().0, y: c.y.into_bigint().0 }
}

/// The difference of two `ark_bls12_381::G1Projective`: in the group, multiples of the generator are
/// subtracted modulo the order.
#[verifier::external_body]
fn g1_sub(a: Bls12381G1, b: Bls12381G1) -> (res: Bls12381G1)
    ensures
        res == bls12_381_g1_sub(a, b),
        in_group(a) && in_group(b) ==> res == bls12_381_g1_mul(
            g1_generator_point(),
            ((log(a) + scalar_order() - log(b)) % (scalar_order() as int)) as nat,
        ),
{
    let [a, b] = [a, b].map(|p| G1Affine::new_unchecked(Fq::new(BigInt(p.x)), Fq::new(BigInt(p.y))));
    let c = (a.into_group() - b.into_group()).into_affine();
    Bls12381G1 { x: c.x.into_bigint().0, y: c.y.into_bigint().0 }
}

/// A `ark_bls12_381::G1Affine` times a `ark_bls12_381::Fr`: in the group, a multiple of the generator is
/// multiplied modulo the order. Multiples of a point of the curve lie on the curve, and two
/// multiplications can change places.
#[verifier::external_body]
fn g1_mul(p: Bls12381G1, k: Bls12381Fr) -> (res: Bls12381G1)
    ensures
        res == bls12_381_g1_mul(p, k.value()),
        in_group(p) ==> res == bls12_381_g1_mul(g1_generator_point(), (log(p) * k.value()) % scalar_order()),
        p.on_curve() ==> res.on_curve() && commutes(res, p, k.value()),
{
    let p = G1Affine::new_unchecked(Fq::new(BigInt(p.x)), Fq::new(BigInt(p.y)));
    let q = (p * Fr::new(BigInt(k.limbs))).into_affine();
    Bls12381G1 { x: q.x.into_bigint().0, y: q.y.into_bigint().0 }
}

/// `Radix2EvaluationDomain::fft` on `ark_bls12_381::G1Projective`: the values of the polynomial with
/// these coefficients on the domain, and in the group its multiples are transformed modulo the
/// order.
#[verifier::external_body]
fn g1_fft(values: &Vec<Bls12381G1>) -> (res: Vec<Bls12381G1>)
    requires
        is_domain_size::<Bls12381Fr>(values@.len()),
    ensures
        res@.len() == values@.len(),
        res@ == bls12_381_g1_fft(values@),
        all_in_group(values@) ==> res@ == exps::<Bls12381G1>(
            dft(logs(values@), domain_root::<Bls12381Fr>(values@.len()), scalar_order()),
        ),
{
    let domain = Radix2EvaluationDomain::<Fr>::new(values.len()).unwrap();
    let fq = |limbs| Fq::new(BigInt(limbs));
    let points: Vec<G1Projective> = values.iter().map(|p| G1Affine::new_unchecked(fq(p.x), fq(p.y)).into()).collect();
    G1Projective::normalize_batch(&domain.fft(&points)).iter().map(|p| Bls12381G1 { x: p.x.into_bigint().0, y: p.y.into_bigint().0 }).collect()
}

/// `Radix2EvaluationDomain::ifft` on `ark_bls12_381::G1Projective`: the coefficients of the polynomial
/// with these values on the domain, and in the group its multiples are transformed modulo the
/// order.
#[verifier::external_body]
fn g1_ifft(values: &Vec<Bls12381G1>) -> (res: Vec<Bls12381G1>)
    requires
        is_domain_size::<Bls12381Fr>(values@.len()),
    ensures
        res@.len() == values@.len(),
        res@ == bls12_381_g1_ifft(values@),
        all_in_group(values@) ==> res@ == exps::<Bls12381G1>(
            inverse_dft(logs(values@), domain_root::<Bls12381Fr>(values@.len()), scalar_order()),
        ),
{
    let domain = Radix2EvaluationDomain::<Fr>::new(values.len()).unwrap();
    let fq = |limbs| Fq::new(BigInt(limbs));
    let points: Vec<G1Projective> = values.iter().map(|p| G1Affine::new_unchecked(fq(p.x), fq(p.y)).into()).collect();
    G1Projective::normalize_batch(&domain.ifft(&points)).iter().map(|p| Bls12381G1 { x: p.x.into_bigint().0, y: p.y.into_bigint().0 }).collect()
}

/// `ark_bls12_381::G1Projective::rand` on a `ChaCha20Rng` at a position of its key stream: the point
/// drawn lies in the group, and it and the position reached depend on the seed and the position
/// alone.
#[verifier::external_body]
fn g1_rand(seed: [u8; 32], position: u128) -> (res: (Bls12381G1, u128))
    ensures
        res == bls12_381_g1_rand(seed@, position),
        in_group(res.0),
{
    let mut rng = ChaCha20Rng::from_seed(seed);
    rng.set_word_pos(position);
    let p = G1Projective::rand(&mut rng).into_affine();
    (Bls12381G1 { x: p.x.into_bigint().0, y: p.y.into_bigint().0 }, rng.get_word_pos())
}

/// `ark_bls12_381::G1Affine::serialize_with_mode` into a vector, which does not fail and writes 48
/// bytes of a compressed point and 96 of one in full. `deserialize_with_mode` fails on fewer bytes.
/// A point of the group is read back by it from what was written, whatever follows it.
#[verifier::external_body]
fn g1_serialize(p: &Bls12381G1, compress: bool) -> (res: Result<Vec<u8>, String>)
    ensures
        res is Ok,
        res->Ok_0@ == bls12_381_g1_bytes(*p, compress),
        res->Ok_0@.len() == (if compress {
            48
        } else {
            96nat
        }),
        (forall|bytes: Seq<u8>, validate: bool|
            bytes.len() < res->Ok_0@.len() ==> #[trigger] bls12_381_g1_read(bytes, compress, validate)
                is Err),
        (in_group(*p) ==> (forall|tail: Seq<u8>, validate: bool|
            #[trigger] bls12_381_g1_read(res->Ok_0@ + tail, compress, validate) == Ok::<
                (Bls12381G1, nat),
                Seq<char>,
            >((*p, res->Ok_0@.len())))),
{
    let p = G1Affine::new_unchecked(Fq::new(BigInt(p.x)), Fq::new(BigInt(p.y)));
    let mode = if compress { Compress::Yes } else { Compress::No };
    let mut bytes = Vec::new();
    p.serialize_with_mode(&mut bytes, mode).map_err(|e| e.to_string())?;
    Ok(bytes)
}

/// `ark_bls12_381::G1Affine::deserialize_with_mode` from the start of `bytes`: the point and the number
/// of bytes left over, or the message of the error.
#[verifier::external_body]
fn g1_deserialize(bytes: &[u8], compress: bool, validate: bool) -> (res: Result<
    (Bls12381G1, usize),
    String,
>)
    ensures
        match res {
            Ok((p, rest)) => rest <= bytes@.len() && bls12_381_g1_read(bytes@, compress, validate) == Ok::<
                (Bls12381G1, nat),
                Seq<char>,
            >((p, (bytes@.len() - rest) as nat)),
            Err(message) => bls12_381_g1_read(bytes@, compress, validate) == Err::<
                (Bls12381G1, nat),
                Seq<char>,
            >(message@),
        },
{
    let mut reader = bytes;
    let mode = if compress { Compress::Yes } else { Compress::No };
    let validate = if validate { Validate::Yes } else { Validate::No };
    let p = G1Affine::deserialize_with_mode(&mut reader, mode, validate);
    let p = p.map_err(|e| e.to_string())?;
    Ok((Bls12381G1 { x: p.x.into_bigint().0, y: p.y.into_bigint().0 }, reader.len()))
}

/// `ark_bls12_381::G1Affine::check`, with `Fq::from_bigint` for the coordinates: whether they are
/// reduced and the point is a multiple of the generator.
#[verifier::external_body]
fn g1_check(p: &Bls12381G1) -> (res: bool)
    ensures
        res == in_group(*p),
{
    match (Fq::from_bigint(BigInt(p.x)), Fq::from_bigint(BigInt(p.y))) {
        (Some(x), Some(y)) => G1Affine::new_unchecked(x, y).check().is_ok(),
        _ => false,
    }
}

impl GroupModel for Bls12381G1 {
    type ScalarField = Bls12381Fr;

    open spec fn exp(k: nat) -> Self {
        bls12_381_g1_mul(g1_generator_point(), k)
    }

    open spec fn on_curve(self) -> bool {
        g1_on_curve_spec(limbs_value(self.x@), limbs_value(self.y@))
    }

    open spec fn point_length(compress: bool) -> nat {
        if compress {
            48
        } else {
            96
        }
    }

    open spec fn outside_sum(a: Self, b: Self) -> Self {
        bls12_381_g1_add(a, b)
    }

    open spec fn outside_multiple(a: Self, k: nat) -> Self {
        bls12_381_g1_mul(a, k)
    }

    open spec fn outside_fft(values: Seq<Self>) -> Seq<Self> {
        bls12_381_g1_fft(values)
    }

    open spec fn outside_ifft(values: Seq<Self>) -> Seq<Self> {
        bls12_381_g1_ifft(values)
    }

    open spec fn sampled_point(seed: Seq<u8>, position: u128) -> (Self, u128) {
        bls12_381_g1_rand(seed, position)
    }
}

impl CanonicalModel for Bls12381G1 {
    type Value = Bls12381G1;

    open spec fn value_of(self) -> Self {
        self
    }

    open spec fn valid(value: Self) -> bool {
        in_group(value)
    }

    open spec fn encoding(value: Self, compress: bool) -> Seq<u8> {
        bls12_381_g1_bytes(value, compress)
    }

    open spec fn encoded_length(value: Self, compress: bool) -> nat {
        Self::point_length(compress)
    }

    open spec fn decoding(bytes: Seq<u8>, compress: bool, validate: bool) -> Result<
        (Self, nat),
        Seq<char>,
    > {
        bls12_381_g1_read(bytes, compress, validate)
    }
}

impl Canonical for Bls12381G1 {
    fn serialize_with_mode(&self, compress: bool, out: &mut Vec<u8>) -> (res: Result<(), String>) {
        let mut bytes = g1_serialize(self, compress)?;
        out.append(&mut bytes);
        Ok(())
    }

    fn deserialize_with_mode(bytes: &[u8], compress: bool, validate: bool) -> (res: Result<
        (Self, usize),
        String,
    >) {
        let (p, rest) = g1_deserialize(bytes, compress, validate)?;
        Ok((p, bytes.len() - rest))
    }

    fn check(&self) -> (res: bool) {
        g1_check(self)
    }
}

impl AffineRepr for Bls12381G1 {
    proof fn lemma_canonical(self) {
    }

    fn generator() -> (res: Self) {
        g1_generator()
    }

    fn zero() -> (res: Self) {
        let res = g1_zero();
        proof {
            lemma_six_limbs(res.x@);
        }
        res
    }

    fn plus(self, other: Self) -> (res: Self) {
        g1_add(self, other)
    }

    fn times(self, scalar: Bls12381Fr) -> (res: Self) {
        g1_mul(self, scalar)
    }

    fn equals(&self, other: &Self) -> (res: bool) {
        limbs_equal(&self.x, &other.x) && limbs_equal(&self.y, &other.y)
    }

    fn fft(coefficients: &Vec<Self>) -> (res: Vec<Self>) {
        g1_fft(coefficients)
    }

    fn ifft(values: &Vec<Self>) -> (res: Vec<Self>) {
        g1_ifft(values)
    }

    fn rand(rng: &mut SeededRng) -> (res: Self) {
        let (res, position) = g1_rand(rng.seed, rng.position);
        rng.position = position;
        res
    }
}

impl Subtract for Bls12381G1 {
    open spec fn outside_difference(a: Self, b: Self) -> Self {
        bls12_381_g1_sub(a, b)
    }

    fn minus(self, other: Self) -> (res: Self) {
        g1_sub(self, other)
    }
}

/// What `ark_bls12_381::G2Affine` times a scalar of value `k` gives.
pub uninterp spec fn bls12_381_g2_mul(p: Bls12381G2, k: nat) -> Bls12381G2;

/// What the sum of two `ark_bls12_381::G2Affine` gives.
pub uninterp spec fn bls12_381_g2_add(a: Bls12381G2, b: Bls12381G2) -> Bls12381G2;

/// What `Radix2EvaluationDomain::fft` gives on `ark_bls12_381::G2Projective`.
pub uninterp spec fn bls12_381_g2_fft(values: Seq<Bls12381G2>) -> Seq<Bls12381G2>;

/// What `Radix2EvaluationDomain::ifft` gives on `ark_bls12_381::G2Projective`.
pub uninterp spec fn bls12_381_g2_ifft(values: Seq<Bls12381G2>) -> Seq<Bls12381G2>;

/// What drawing a point with `ark_bls12_381::G2Projective::rand` gives.
pub uninterp spec fn bls12_381_g2_rand(seed: Seq<u8>, position: u128) -> (Bls12381G2, u128);

/// What `ark_bls12_381::G2Affine::serialize_with_mode` writes.
pub uninterp spec fn bls12_381_g2_bytes(p: Bls12381G2, compress: bool) -> Seq<u8>;

/// What `ark_bls12_381::G2Affine::deserialize_with_mode` reads, and how many bytes it takes.
pub uninterp spec fn bls12_381_g2_read(bytes: Seq<u8>, compress: bool, validate: bool) -> Result<
    (Bls12381G2, nat),
    Seq<char>,
>;

/// `ark_bls12_381::G2Affine::generator`: a point of the group's full order, which is what 1 times it is.
#[verifier::external_body]
fn g2_generator() -> (res: Bls12381G2)
    ensures
        res == g2_generator_point(),
        res == bls12_381_g2_mul(res, 1),
        forall|j: nat, k: nat|
            #![trigger bls12_381_g2_mul(res, j), bls12_381_g2_mul(res, k)]
            j < scalar_order() && k < scalar_order() && bls12_381_g2_mul(res, j) == bls12_381_g2_mul(res, k)
                ==> j == k,
{
    let p = G2Affine::generator();
    Bls12381G2 {
        x0: p.x.c0.into_bigint().0,
        x1: p.x.c1.into_bigint().0,
        y0: p.y.c0.into_bigint().0,
        y1: p.y.c1.into_bigint().0,
    }
}

/// `ark_bls12_381::G2Affine::zero`: the point at infinity, which is what 0 times the generator is.
#[verifier::external_body]
fn g2_zero() -> (res: Bls12381G2)
    ensures
        res == (Bls12381G2 {
            x0: [0, 0, 0, 0, 0, 0],
            x1: [0, 0, 0, 0, 0, 0],
            y0: [0, 0, 0, 0, 0, 0],
            y1: [0, 0, 0, 0, 0, 0],
        }),
        res == bls12_381_g2_mul(g2_generator_point(), 0),
{
    let p = G2Affine::zero();
    Bls12381G2 {
        x0: p.x.c0.into_bigint().0,
        x1: p.x.c1.into_bigint().0,
        y0: p.y.c0.into_bigint().0,
        y1: p.y.c1.into_bigint().0,
    }
}

/// The sum of two `ark_bls12_381::G2Affine`: in the group, multiples of the generator add up modulo the
/// order. Points of the curve add up to a point of the curve, and multiplication distributes over
/// their sum.
#[verifier::external_body]
fn g2_add(a: Bls12381G2, b: Bls12381G2) -> (res: Bls12381G2)
    ensures
        res == bls12_381_g2_add(a, b),
        in_group(a) && in_group(b) ==> res == bls12_381_g2_mul(
            g2_generator_point(),
            (log(a) + log(b)) % scalar_order(),
        ),
        a.on_curve() && b.on_curve() ==> res.on_curve() && distributes(res, a, b),
{
    let [a, b] = [a, b].map(|p| G2Affine::new_unchecked(
        Fq2::new(Fq::new(BigInt(p.x0)), Fq::new(BigInt(p.x1))),
        Fq2::new(Fq::new(BigInt(p.y0)), Fq::new(BigInt(p.y1))),
    ));
    let c = (a + b).into_affine();
    Bls12381G2 {
        x0: c.x.c0.into_bigint().0,
        x1: c.x.c1.into_bigint().0,
        y0: c.y.c0.into_bigint().0,
        y1: c.y.c1.into_bigint().0,
    }
}

/// A `ark_bls12_381::G2Affine` times a `ark_bls12_381::Fr`: in the group, a multiple of the generator is
/// multiplied modulo the order. Multiples of a point of the curve lie on the curve, and two
/// multiplications can change places.
#[verifier::external_body]
fn g2_mul(p: Bls12381G2, k: Bls12381Fr) -> (res: Bls12381G2)
    ensures
        res == bls12_381_g2_mul(p, k.value()),
        in_group(p) ==> res == bls12_381_g2_mul(g2_generator_point(), (log(p) * k.value()) % scalar_order()),
        p.on_curve() ==> res.on_curve() && commutes(res, p, k.value()),
{
    let p = G2Affine::new_unchecked(
        Fq2::new(Fq::new(BigInt(p.x0)), Fq::new(BigInt(p.x1))),
        Fq2::new(Fq::new(BigInt(p.y0)), Fq::new(BigInt(p.y1))),
    );
    let q = (p * Fr::new(BigInt(k.limbs))).into_affine();
    Bls12381G2 {
        x0: q.x.c0.into_bigint().0,
        x1: q.x.c1.into_bigint().0,
        y0: q.y.c0.into_bigint().0,
        y1: q.y.c1.into_bigint().0,
    }
}

/// `Radix2EvaluationDomain::fft` on `ark_bls12_381::G2Projective`: the values of the polynomial with
/// these coefficients on the domain, and in the group its multiples are transformed modulo the
/// order.
#[verifier::external_body]
fn g2_fft(values: &Vec<Bls12381G2>) -> (res: Vec<Bls12381G2>)
    requires
        is_domain_size::<Bls12381Fr>(values@.len()),
    ensures
        res@.len() == values@.len(),
        res@ == bls12_381_g2_fft(values@),
        all_in_group(values@) ==> res@ == exps::<Bls12381G2>(
            dft(logs(values@), domain_root::<Bls12381Fr>(values@.len()), scalar_order()),
        ),
{
    let domain = Radix2EvaluationDomain::<Fr>::new(values.len()).unwrap();
    let fq = |limbs| Fq::new(BigInt(limbs));
    let points: Vec<G2Projective> = values.iter().map(|p| G2Affine::new_unchecked(
        Fq2::new(fq(p.x0), fq(p.x1)),
        Fq2::new(fq(p.y0), fq(p.y1)),
    ).into()).collect();
    G2Projective::normalize_batch(&domain.fft(&points)).iter().map(|p| Bls12381G2 {
        x0: p.x.c0.into_bigint().0,
        x1: p.x.c1.into_bigint().0,
        y0: p.y.c0.into_bigint().0,
        y1: p.y.c1.into_bigint().0,
    }).collect()
}

/// `Radix2EvaluationDomain::ifft` on `ark_bls12_381::G2Projective`: the coefficients of the polynomial
/// with these values on the domain, and in the group its multiples are transformed modulo the
/// order.
#[verifier::external_body]
fn g2_ifft(values: &Vec<Bls12381G2>) -> (res: Vec<Bls12381G2>)
    requires
        is_domain_size::<Bls12381Fr>(values@.len()),
    ensures
        res@.len() == values@.len(),
        res@ == bls12_381_g2_ifft(values@),
        all_in_group(values@) ==> res@ == exps::<Bls12381G2>(
            inverse_dft(logs(values@), domain_root::<Bls12381Fr>(values@.len()), scalar_order()),
        ),
{
    let domain = Radix2EvaluationDomain::<Fr>::new(values.len()).unwrap();
    let fq = |limbs| Fq::new(BigInt(limbs));
    let points: Vec<G2Projective> = values.iter().map(|p| G2Affine::new_unchecked(
        Fq2::new(fq(p.x0), fq(p.x1)),
        Fq2::new(fq(p.y0), fq(p.y1)),
    ).into()).collect();
    G2Projective::normalize_batch(&domain.ifft(&points)).iter().map(|p| Bls12381G2 {
        x0: p.x.c0.into_bigint().0,
        x1: p.x.c1.into_bigint().0,
        y0: p.y.c0.into_bigint().0,
        y1: p.y.c1.into_bigint().0,
    }).collect()
}

/// `ark_bls12_381::G2Projective::rand` on a `ChaCha20Rng` at a position of its key stream: the point
/// drawn lies in the group, and it and the position reached depend on the seed and the position
/// alone.
#[verifier::external_body]
fn g2_rand(seed: [u8; 32], position: u128) -> (res: (Bls12381G2, u128))
    ensures
        res == bls12_381_g2_rand(seed@, position),
        in_group(res.0),
{
    let mut rng = ChaCha20Rng::from_seed(seed);
    rng.set_word_pos(position);
    let p = G2Projective::rand(&mut rng).into_affine();
    (Bls12381G2 {
        x0: p.x.c0.into_bigint().0,
        x1: p.x.c1.into_bigint().0,
        y0: p.y.c0.into_bigint().0,
        y1: p.y.c1.into_bigint().0,
    }, rng.get_word_pos())
}

/// `ark_bls12_381::G2Affine::serialize_with_mode` into a vector, which does not fail and writes 96
/// bytes of a compressed point and 192 of one in full. `deserialize_with_mode` fails on fewer bytes.
/// A point of the group is read back by it from what was written, whatever follows it.
#[verifier::external_body]
fn g2_serialize(p: &Bls12381G2, compress: bool) -> (res: Result<Vec<u8>, String>)
    ensures
        res is Ok,
        res->Ok_0@ == bls12_381_g2_bytes(*p, compress),
        res->Ok_0@.len() == (if compress {
            96
        } else {
            192nat
        }),
        (forall|bytes: Seq<u8>, validate: bool|
            bytes.len() < res->Ok_0@.len() ==> #[trigger] bls12_381_g2_read(bytes, compress, validate)
                is Err),
        (in_group(*p) ==> (forall|tail: Seq<u8>, validate: bool|
            #[trigger] bls12_381_g2_read(res->Ok_0@ + tail, compress, validate) == Ok::<
                (Bls12381G2, nat),
                Seq<char>,
            >((*p, res->Ok_0@.len())))),
{
    let p = G2Affine::new_unchecked(
        Fq2::new(Fq::new(BigInt(p.x0)), Fq::new(BigInt(p.x1))),
        Fq2::new(Fq::new(BigInt(p.y0)), Fq::new(BigInt(p.y1))),
    );
    let mode = if compress { Compress::Yes } else { Compress::No };
    let mut bytes = Vec::new();
    p.serialize_with_mode(&mut bytes, mode).map_err(|e| e.to_string())?;
    Ok(bytes)
}

/// `ark_bls12_381::G2Affine::deserialize_with_mode` from the start of `bytes`: the point and the number
/// of bytes left over, or the message of the error.
#[verifier::external_body]
fn g2_deserialize(bytes: &[u8], compress: bool, validate: bool) -> (res: Result<
    (Bls12381G2, usize),
    String,
>)
    ensures
        match res {
            Ok((p, rest)) => rest <= bytes@.len() && bls12_381_g2_read(bytes@, compress, validate) == Ok::<
                (Bls12381G2, nat),
                Seq<char>,
            >((p, (bytes@.len() - rest) as nat)),
            Err(message) => bls12_381_g2_read(bytes@, compress, validate) == Err::<
                (Bls12381G2, nat),
                Seq<char>,
            >(message@),
        },
{
    let mut reader = bytes;
    let mode = if compress { Compress::Yes } else { Compress::No };
    let validate = if validate { Validate::Yes } else { Validate::No };
    let p = G2Affine::deserialize_with_mode(&mut reader, mode, validate);
    let p = p.map_err(|e| e.to_string())?;
    Ok((Bls12381G2 {
        x0: p.x.c0.into_bigint().0,
        x1: p.x.c1.into_bigint().0,
        y0: p.y.c0.into_bigint().0,
        y1: p.y.c1.into_bigint().0,
    }, reader.len()))
}

/// `ark_bls12_381::G2Affine::check`, with `Fq::from_bigint` for the coordinates: whether they are
/// reduced and the point is a multiple of the generator.
#[verifier::external_body]
fn g2_check(p: &Bls12381G2) -> (res: bool)
    ensures
        res == in_group(*p),
{
    let x = (Fq::from_bigint(BigInt(p.x0)), Fq::from_bigint(BigInt(p.x1)));
    let y = (Fq::from_bigint(BigInt(p.y0)), Fq::from_bigint(BigInt(p.y1)));
    match (x, y) {
        ((Some(x0), Some(x1)), (Some(y0), Some(y1))) => {
            let (x, y) = (Fq2::new(x0, x1), Fq2::new(y0, y1));
            G2Affine::new_unchecked(x, y).check().is_ok()
        },
        _ => false,
    }
}

impl GroupModel for Bls12381G2 {
    type ScalarField = Bls12381Fr;

    open spec fn exp(k: nat) -> Self {
        bls12_381_g2_mul(g2_generator_point(), k)
    }

    open spec fn on_curve(self) -> bool {
        g2_on_curve_spec(
            limbs_value(self.x0@),
            limbs_value(self.x1@),
            limbs_value(self.y0@),
            limbs_value(self.y1@),
        )
    }

    open spec fn point_length(compress: bool) -> nat {
        if compress {
            96
        } else {
            192
        }
    }

    open spec fn outside_sum(a: Self, b: Self) -> Self {
        bls12_381_g2_add(a, b)
    }

    open spec fn outside_multiple(a: Self, k: nat) -> Self {
        bls12_381_g2_mul(a, k)
    }

    open spec fn outside_fft(values: Seq<Self>) -> Seq<Self> {
        bls12_381_g2_fft(values)
    }

    open spec fn outside_ifft(values: Seq<Self>) -> Seq<Self> {
        bls12_381_g2_ifft(values)
    }

    open spec fn sampled_point(seed: Seq<u8>, position: u128) -> (Self, u128) {
        bls12_381_g2_rand(seed, position)
    }
}

impl CanonicalModel for Bls12381G2 {
    type Value = Bls12381G2;

    open spec fn value_of(self) -> Self {
        self
    }

    open spec fn valid(value: Self) -> bool {
        in_group(value)
    }

    open spec fn encoding(value: Self, compress: bool) -> Seq<u8> {
        bls12_381_g2_bytes(value, compress)
    }

    open spec fn encoded_length(value: Self, compress: bool) -> nat {
        Self::point_length(compress)
    }

    open spec fn decoding(bytes: Seq<u8>, compress: bool, validate: bool) -> Result<
        (Self, nat),
        Seq<char>,
    > {
        bls12_381_g2_read(bytes, compress, validate)
    }
}

impl Canonical for Bls12381G2 {
    fn serialize_with_mode(&self, compress: bool, out: &mut Vec<u8>) -> (res: Result<(), String>) {
        let mut bytes = g2_serialize(self, compress)?;
        out.append(&mut bytes);
        Ok(())
    }

    fn deserialize_with_mode(bytes: &[u8], compress: bool, validate: bool) -> (res: Result<
        (Self, usize),
        String,
    >) {
        let (p, rest) = g2_deserialize(bytes, compress, validate)?;
        Ok((p, bytes.len() - rest))
    }

    fn check(&self) -> (res: bool) {
        g2_check(self)
    }
}

impl AffineRepr for Bls12381G2 {
    proof fn lemma_canonical(self) {
    }

    fn generator() -> (res: Self) {
        g2_generator()
    }

    fn zero() -> (res: Self) {
        let res = g2_zero();
        proof {
            lemma_six_limbs(res.x0@);
        }
        res
    }

    fn plus(self, other: Self) -> (res: Self) {
        g2_add(self, other)
    }

    fn times(self, scalar: Bls12381Fr) -> (res: Self) {
        g2_mul(self, scalar)
    }

    fn equals(&self, other: &Self) -> (res: bool) {
        limbs_equal(&self.x0, &other.x0) && limbs_equal(&self.x1, &other.x1) && limbs_equal(
            &self.y0,
            &other.y0,
        ) && limbs_equal(&self.y1, &other.y1)
    }

    fn fft(coefficients: &Vec<Self>) -> (res: Vec<Self>) {
        g2_fft(coefficients)
    }

    fn ifft(values: &Vec<Self>) -> (res: Vec<Self>) {
        g2_ifft(values)
    }

    fn rand(rng: &mut SeededRng) -> (res: Self) {
        let (res, position) = g2_rand(rng.seed, rng.position);
        rng.position = position;
        res
    }
}

/// Whether two pairs of points have the same pairing by `ark_bls12_381::Bls12_381`.
pub uninterp spec fn bls12_381_same_pairing(
    a: Bls12381G1,
    b: Bls12381G2,
    c: Bls12381G1,
    d: Bls12381G2,
) -> Option<bool>;

/// `ark_bls12_381::Bls12_381::miller_loop` and `final_exponentiation` on two pairs of points, and `==` on
/// what they give, or `None` where one of the Miller loops ends in zero, which has no final
/// exponentiation. In the groups both have one: the pairing is bilinear and its value on the
/// generators has the groups' order.
#[verifier::external_body]
fn same_pairing(a: Bls12381G1, b: Bls12381G2, c: Bls12381G1, d: Bls12381G2) -> (res: Option<bool>)
    ensures
        res == bls12_381_same_pairing(a, b, c, d),
        in_group(a) && in_group(b) && in_group(c) && in_group(d) ==> res == Some(
            (log(a) * log(b)) % scalar_order() == (log(c) * log(d)) % scalar_order(),
        ),
{
    let [a, c] = [a, c].map(|p| G1Affine::new_unchecked(Fq::new(BigInt(p.x)), Fq::new(BigInt(p.y))));
    let [b, d] = [b, d].map(|p| G2Affine::new_unchecked(
        Fq2::new(Fq::new(BigInt(p.x0)), Fq::new(BigInt(p.x1))),
        Fq2::new(Fq::new(BigInt(p.y0)), Fq::new(BigInt(p.y1))),
    ));
    let left = ark_bls12_381::Bls12_381::final_exponentiation(ark_bls12_381::Bls12_381::miller_loop(a, b))?;
    let right = ark_bls12_381::Bls12_381::final_exponentiation(ark_bls12_381::Bls12_381::miller_loop(c, d))?;
    Some(left == right)
}

impl Pairing for Bls12_381 {
    type ScalarField = Bls12381Fr;

    type G1Affine = Bls12381G1;

    type G2Affine = Bls12381G2;

    open spec fn outside_same_pairing(
        a: Bls12381G1,
        b: Bls12381G2,
        c: Bls12381G1,
        d: Bls12381G2,
    ) -> Option<bool> {
        bls12_381_same_pairing(a, b, c, d)
    }

    fn same_pairing(a: Bls12381G1, b: Bls12381G2, c: Bls12381G1, d: Bls12381G2) -> (res: Option<bool>) {
        same_pairing(a, b, c, d)
    }
}

} // verus!
