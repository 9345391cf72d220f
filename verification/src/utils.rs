use vstd::arithmetic::div_mod::lemma_small_mod;
use vstd::bytes::{spec_u64_to_le_bytes, u64_to_le_bytes};
use vstd::prelude::*;

use crate::algebra::lemma_log_exp;
use crate::canonical::{items_length, reads_back, Canonical, CanonicalModel};
use crate::curve::{
    all_in_group, all_on_curve, full_order, in_group, multiple, pairings_equal, sum,
    AffineRepr, GroupModel, Pairing, PrimeField, ScalarModel,
};
use crate::error::Error;
use crate::math::ceil_log2;
use crate::rng::{hash, SeededRng};

verus! {

/// `ark_std::log2`: the ceiling of the base-2 logarithm, and 0 for 0.
pub assume_specification[ ark_std::log2 ](x: usize) -> (res: u32)
    ensures
        res == ceil_log2(x as nat),
;

/// An element of a curve's group in the form in which it is computed with. It is held by the
/// affine coordinates of the point that it is.
#[derive(Clone, Copy, Debug, PartialEq, Eq)]
pub struct Projective<A> {
    pub point: A,
}

/// The points that the elements are.
pub open spec fn affine_points<A>(elements: Seq<Projective<A>>) -> Seq<A> {
    elements.map_values(|p: Projective<A>| p.point)
}

/// The points as elements to compute with.
#[must_use]
pub fn batch_into_projective<A: AffineRepr>(points: &[A]) -> (res: Vec<Projective<A>>)
    ensures
        affine_points(res@) == points@,
        res@.len() == points@.len(),
{
    let mut res: Vec<Projective<A>> = Vec::new();
    let mut i: usize = 0;
    while i < points.len()
        invariant
            i <= points.len(),
            res@.len() == i,
            forall|j: int| 0 <= j < i ==> (#[trigger] res@[j]).point == points@[j],
        decreases points.len() - i,
    {
        res.push(Projective { point: points[i] });
        i = i + 1;
    }
    res
}

/// The points that the elements are.
#[must_use]
pub fn batch_into_affine<A: AffineRepr>(points: &[Projective<A>]) -> (res: Vec<A>)
    ensures
        res@ == affine_points(points@),
{
    let mut res: Vec<A> = Vec::new();
    let mut i: usize = 0;
    while i < points.len()
        invariant
            i <= points.len(),
            res@.len() == i,
            forall|j: int| 0 <= j < i ==> (#[trigger] res@[j]) == points@[j].point,
        decreases points.len() - i,
    {
        res.push(points[i].point);
        i = i + 1;
    }
    res
}

/// Whether two vectors hold the same points.
pub fn points_equal<A: AffineRepr>(a: &Vec<A>, b: &Vec<A>) -> (res: bool)
    ensures
        res == (a@ == b@),
{
    if a.len() != b.len() {
        return false;
    }
    let mut i: usize = 0;
    while i < a.len()
        invariant
            i <= a@.len(),
            a@.len() == b@.len(),
            forall|j: int| 0 <= j < i ==> a@[j] == b@[j],
        decreases a.len() - i,
    {
        if !a[i].equals(&b[i]) {
            return false;
        }
        i = i + 1;
    }
    proof {
        assert(a@ =~= b@);
    }
    true
}

/// A vector of points is encoded as what it holds.
pub proof fn lemma_points_value<A: AffineRepr>(points: Vec<A>)
    ensures
        points.value_of() == points@,
        <Vec<A> as CanonicalModel>::valid(points@) == all_in_group(points@),
{
    assert forall|i: int| 0 <= i < points@.len() implies #[trigger] points.value_of()[i]
        == points@[i] by {
        points@[i].lemma_canonical();
    }
    assert(points.value_of() =~= points@);
    assert forall|p: A| #[trigger] A::valid(p) == in_group(p) by {
        p.lemma_canonical();
    }
}

/// The points of a vector take the same number of bytes each.
pub proof fn lemma_points_length<A: AffineRepr>(points: Seq<A>, count: nat, compress: bool)
    ensures
        items_length::<A>(points, count, compress) == count * A::point_length(compress),
    decreases count,
{
    let length = A::point_length(compress);
    if count > 0 {
        let last = (count - 1) as nat;
        lemma_points_length(points, last, compress);
        points[last as int].lemma_canonical();
        assert(count * length == last * length + length) by (nonlinear_arith)
            requires
                count == last + 1,
        ;
    } else {
        assert(0 * length == 0);
    }
}

/// Every point `k` times.
pub open spec fn multiples<A: AffineRepr>(points: Seq<A>, k: nat) -> Seq<A> {
    points.map_values(|p: A| multiple(p, k))
}

/// Multiplies every point by `scalar`.
pub fn batch_mul_fixed_scalar<A: AffineRepr>(points: &mut Vec<A>, scalar: A::ScalarField)
    ensures
        final(points)@ == multiples(old(points)@, scalar.value()),
{
    let ghost before = points@;
    let mut i: usize = 0;
    while i < points.len()
        invariant
            i <= points.len(),
            points@.len() == before.len(),
            forall|j: int|
                0 <= j < i ==> #[trigger] points@[j] == multiple(before[j], scalar.value()),
            forall|j: int| i <= j < before.len() ==> #[trigger] points@[j] == before[j],
        decreases points.len() - i,
    {
        let point = points[i].times(scalar);
        points.set(i, point);
        i = i + 1;
    }
    proof {
        assert(points@ =~= multiples(before, scalar.value()));
    }
}

/// Whether two pairs of points have pairings, so that they can be compared.
pub open spec fn same_ratio_defined<E: Pairing>(
    lhs: (E::G1Affine, E::G2Affine),
    rhs: (E::G1Affine, E::G2Affine),
) -> bool {
    pairings_equal::<E>(lhs.0, lhs.1, rhs.0, rhs.1) is Some
}

/// Whether two pairs of points have the same pairing.
pub open spec fn same_ratio_spec<E: Pairing>(
    lhs: (E::G1Affine, E::G2Affine),
    rhs: (E::G1Affine, E::G2Affine),
) -> bool {
    pairings_equal::<E>(lhs.0, lhs.1, rhs.0, rhs.1) == Some(true)
}

/// Whether the ratio of `lhs.0` and `lhs.1` can be compared with that of `rhs.0` and `rhs.1`.
pub open spec fn same_ratio_swap_defined<E: Pairing>(
    lhs: (E::G1Affine, E::G1Affine),
    rhs: (E::G2Affine, E::G2Affine),
) -> bool {
    same_ratio_defined::<E>((lhs.0, rhs.1), (lhs.1, rhs.0))
}

/// Whether `lhs.0` and `lhs.1` have the ratio of `rhs.0` and `rhs.1`.
pub open spec fn same_ratio_swap_spec<E: Pairing>(
    lhs: (E::G1Affine, E::G1Affine),
    rhs: (E::G2Affine, E::G2Affine),
) -> bool {
    same_ratio_spec::<E>((lhs.0, rhs.1), (lhs.1, rhs.0))
}

/// Whether the pairing of `lhs` equals the pairing of `rhs`.
#[must_use]
pub fn same_ratio<E: Pairing>(
    lhs: (E::G1Affine, E::G2Affine),
    rhs: (E::G1Affine, E::G2Affine),
) -> (res: bool)
    requires
        same_ratio_defined::<E>(lhs, rhs),
    ensures
        res == same_ratio_spec::<E>(lhs, rhs),
{
    E::same_pairing(lhs.0, lhs.1, rhs.0, rhs.1).unwrap()
}

/// Whether the pairing of `lhs` equals the pairing of `rhs`, or `None` where one of them is not
/// defined, which it is in the groups.
pub fn checked_same_ratio<E: Pairing>(
    lhs: (E::G1Affine, E::G2Affine),
    rhs: (E::G1Affine, E::G2Affine),
) -> (res: Option<bool>)
    ensures
        res is Some <==> same_ratio_defined::<E>(lhs, rhs),
        res matches Some(same) ==> same == same_ratio_spec::<E>(lhs, rhs),
{
    E::same_pairing(lhs.0, lhs.1, rhs.0, rhs.1)
}

/// Whether the pairing of `lhs.0` and `rhs.1` equals that of `lhs.1` and `rhs.0`.
#[must_use]
pub fn same_ratio_swap<E: Pairing>(
    lhs: (E::G1Affine, E::G1Affine),
    rhs: (E::G2Affine, E::G2Affine),
) -> (res: bool)
    requires
        same_ratio_swap_defined::<E>(lhs, rhs),
    ensures
        res == same_ratio_swap_spec::<E>(lhs, rhs),
{
    same_ratio::<E>((lhs.0, rhs.1), (lhs.1, rhs.0))
}

/// Whether the pairing of `lhs.0` and `rhs.1` equals that of `lhs.1` and `rhs.0`, or `None` where
/// one of them is not defined, which it is in the groups.
pub fn checked_same_ratio_swap<E: Pairing>(
    lhs: (E::G1Affine, E::G1Affine),
    rhs: (E::G2Affine, E::G2Affine),
) -> (res: Option<bool>)
    ensures
        res is Some <==> same_ratio_swap_defined::<E>(lhs, rhs),
        res matches Some(same) ==> same == same_ratio_swap_spec::<E>(lhs, rhs),
{
    checked_same_ratio::<E>((lhs.0, rhs.1), (lhs.1, rhs.0))
}

/// The random number generator whose seed is the hash of `bytes`.
pub open spec fn seeded_rng_spec(bytes: Seq<u8>, rng: SeededRng) -> bool {
    rng.seed@ == crate::rng::blake3_hash(bytes) && rng.position == 0
}

/// The random number generator whose seed is the hash of `bytes`.
#[must_use]
pub fn seeded_rng(bytes: &[u8]) -> (res: SeededRng)
    ensures
        seeded_rng_spec(bytes@, res),
{
    SeededRng::from_seed(hash(bytes))
}

/// The encoding of `value` with its points compressed.
pub fn serialize<T: Canonical>(value: &T) -> (res: Result<Vec<u8>, Error>)
    ensures
        res matches Ok(bytes) && bytes@ == T::encoding(value.value_of(), true) && bytes@.len()
            == T::encoded_length(value.value_of(), true),
        T::valid(value.value_of()) ==> reads_back::<T>(value.value_of(), true),
{
    let mut output: Vec<u8> = Vec::new();
    match value.serialize_with_mode(true, &mut output) {
        Ok(()) => {
            proof {
                assert(output@ =~= T::encoding(value.value_of(), true));
            }
            Ok(output)
        },
        Err(message) => Err(Error::Custom(message)),
    }
}

/// The encoding of `value` with its points written in full.
pub fn serialize_uncompressed<T: Canonical>(value: &T) -> (res: Result<Vec<u8>, Error>)
    ensures
        res matches Ok(bytes) && bytes@ == T::encoding(value.value_of(), false) && bytes@.len()
            == T::encoded_length(value.value_of(), false),
        T::valid(value.value_of()) ==> reads_back::<T>(value.value_of(), false),
{
    let mut output: Vec<u8> = Vec::new();
    match value.serialize_with_mode(false, &mut output) {
        Ok(()) => {
            proof {
                assert(output@ =~= T::encoding(value.value_of(), false));
            }
            Ok(output)
        },
        Err(message) => Err(Error::Custom(message)),
    }
}

/// The positions of the elements of two vectors of length `len` that go into the seed of their
/// merge: all of them up to 16, else 16 of them spread over the length.
pub open spec fn sample_index(len: nat, i: nat) -> nat {
    if len <= 16 {
        i
    } else {
        (i * len) / 16
    }
}

pub open spec fn sample_count(len: nat) -> nat {
    if len <= 16 {
        len
    } else {
        16
    }
}

/// The encodings of the first `count` samples of two vectors, in turns.
pub open spec fn sample_bytes<A: AffineRepr>(lhs: Seq<A>, rhs: Seq<A>, count: nat) -> Seq<u8>
    decreases count,
{
    if count == 0 {
        Seq::empty()
    } else {
        let i = sample_index(lhs.len(), (count - 1) as nat) as int;
        sample_bytes(lhs, rhs, (count - 1) as nat) + A::encoding(lhs[i], true) + A::encoding(
            rhs[i],
            true,
        )
    }
}

/// The seed of the scalars that two vectors are merged with.
pub open spec fn merge_seed_spec<A: AffineRepr>(lhs: Seq<A>, rhs: Seq<A>) -> Seq<u8> {
    crate::rng::blake3_hash(
        sample_bytes(lhs, rhs, sample_count(lhs.len())) + spec_u64_to_le_bytes(lhs.len() as u64),
    )
}

/// The scalar that the elements at `i` are multiplied with, and the position after drawing it.
pub open spec fn merge_scalar<A: AffineRepr>(seed: Seq<u8>, i: nat) -> (A::ScalarField, u128)
    decreases i,
{
    if i == 0 {
        A::ScalarField::sampled(seed, 0)
    } else {
        A::ScalarField::sampled(seed, merge_scalar::<A>(seed, (i - 1) as nat).1)
    }
}

/// The sum of the first `count` points, each multiplied with its scalar.
pub open spec fn merged<A: AffineRepr>(points: Seq<A>, seed: Seq<u8>, count: nat) -> A
    decreases count,
{
    if count == 0 {
        A::exp(0)
    } else {
        let last = (count - 1) as nat;
        sum(
            merged(points, seed, last),
            multiple(points[last as int], merge_scalar::<A>(seed, last).0.value()),
        )
    }
}

/// Whether every point on the right is `ratio` times the one on the left.
pub open spec fn have_ratio<A: AffineRepr>(lhs: Seq<A>, rhs: Seq<A>, ratio: nat) -> bool {
    forall|i: int| 0 <= i < lhs.len() ==> multiple(#[trigger] lhs[i], ratio) == rhs[i]
}

/// What two vectors merge to.
pub open spec fn merge_ratio<A: AffineRepr>(lhs: Seq<A>, rhs: Seq<A>) -> (A, A) {
    let seed = merge_seed_spec(lhs, rhs);
    (merged(lhs, seed, lhs.len()), merged(rhs, seed, rhs.len()))
}

proof fn lemma_sample_index(len: nat, i: nat)
    requires
        i < sample_count(len),
    ensures
        sample_index(len, i) < len,
        len > 16 ==> sample_index(len, i) == i * (len / 16) + (i * (len % 16)) / 16,
{
    if len > 16 {
        let q = len / 16;
        let m = len % 16;
        assert(len == 16 * q + m);
        assert(i * len == 16 * (i * q) + i * m) by (nonlinear_arith)
            requires
                len == 16 * q + m,
        ;
        let a: int = (i * q) as int;
        let b: int = (i * m) as int;
        assert((16 * a + b) / 16 == a + b / 16);
        assert(i * len < 16 * len) by (nonlinear_arith)
            requires
                i < 16,
                len > 16,
        ;
    }
}

/// A seed for a random linear combination of two vectors, made of a sample of their elements and
/// of their length.
fn merge_seed<A: AffineRepr>(lhs: &[A], rhs: &[A]) -> (res: [u8; 32])
    requires
        lhs@.len() == rhs@.len(),
    ensures
        res@ == merge_seed_spec(lhs@, rhs@),
{
    let mut input: Vec<u8> = Vec::new();
    let len: usize = lhs.len();
    let count: usize = if len <= 16 {
        len
    } else {
        16
    };
    let mut i: usize = 0;
    while i < count
        invariant
            i <= count,
            count == sample_count(len as nat),
            len == lhs@.len(),
            len == rhs@.len(),
            input@ == sample_bytes(lhs@, rhs@, i as nat),
        decreases count - i,
    {
        proof {
            lemma_sample_index(len as nat, i as nat);
        }
        let index: usize = if len <= 16 {
            i
        } else {
            proof {
                let q = len as nat / 16;
                let m = len as nat % 16;
                assert(i * q <= 16 * q) by (nonlinear_arith)
                    requires
                        i <= 16,
                ;
                assert(i * m <= 16 * 16) by (nonlinear_arith)
                    requires
                        i <= 16,
                        m <= 16,
                ;
                assert(i * q + (i * m) / 16 < len);
            }
            i * (len / 16) + (i * (len % 16)) / 16
        };
        let ghost before = input@;
        proof {
            lhs@[index as int].lemma_canonical();
            rhs@[index as int].lemma_canonical();
        }
        let _ = lhs[index].serialize_with_mode(true, &mut input);
        let _ = rhs[index].serialize_with_mode(true, &mut input);
        i = i + 1;
        proof {
            assert(input@ =~= sample_bytes(lhs@, rhs@, i as nat));
        }
    }
    let mut length = u64_to_le_bytes(len as u64);
    input.append(&mut length);
    hash(&input)
}

/// Zero is any multiple of zero.
proof fn lemma_zero_multiple<A: AffineRepr>(k: nat)
    requires
        full_order::<A>(),
    ensures
        multiple(A::exp(0), k) == A::exp(0),
{
    let any = arbitrary::<A::ScalarField>();
    any.lemma_value();
    lemma_log_exp::<A>(0);
    assert(0 * k == 0);
    lemma_small_mod(0, A::ScalarField::order());
}

/// Merges two vectors by random linear combination with the same scalars, which are drawn from a
/// generator seeded from the vectors.
///
/// Vectors of points of the curve that have one ratio merge to points that have it.
#[must_use]
pub fn merge_ratio_affine_vec<A: AffineRepr>(lhs: &[A], rhs: &[A]) -> (res: (A, A))
    requires
        lhs@.len() == rhs@.len(),
    ensures
        res == merge_ratio(lhs@, rhs@),
        forall|ratio: nat|
            all_on_curve(lhs@) && ratio < A::ScalarField::order() && #[trigger] have_ratio(
                lhs@,
                rhs@,
                ratio,
            ) ==> multiple(res.0, ratio) == res.1,
{
    let seed = merge_seed(lhs, rhs);
    let _ = A::generator();
    let mut rng = SeededRng::from_seed(seed);
    let mut l = A::zero();
    let mut r = A::zero();
    let mut i: usize = 0;
    proof {
        assert forall|ratio: nat| #[trigger] multiple(l, ratio) == r by {
            lemma_zero_multiple::<A>(ratio);
        }
    }
    while i < lhs.len()
        invariant
            i <= lhs@.len(),
            lhs@.len() == rhs@.len(),
            rng.seed == seed,
            rng.position == (if i == 0 {
                0
            } else {
                merge_scalar::<A>(seed@, (i - 1) as nat).1
            }),
            l == merged(lhs@, seed@, i as nat),
            r == merged(rhs@, seed@, i as nat),
            all_on_curve(lhs@) ==> l.on_curve(),
            forall|ratio: nat|
                all_on_curve(lhs@) && ratio < A::ScalarField::order() && #[trigger] have_ratio(
                    lhs@,
                    rhs@,
                    ratio,
                ) ==> multiple(l, ratio) == r,
        decreases lhs.len() - i,
    {
        let s = A::ScalarField::rand(&mut rng);
        proof {
            assert((s, rng.position) == merge_scalar::<A>(seed@, i as nat));
        }
        let left = lhs[i].times(s);
        let right = rhs[i].times(s);
        let next_l = l.plus(left);
        let next_r = r.plus(right);
        proof {
            assert forall|ratio: nat|
                all_on_curve(lhs@) && ratio < A::ScalarField::order() && #[trigger] have_ratio(
                    lhs@,
                    rhs@,
                    ratio,
                ) implies multiple(next_l, ratio) == next_r by {
                // ratio (l + s p) == ratio l + s (ratio p)
                assert(lhs@[i as int].on_curve());
                assert(multiple(lhs@[i as int], ratio) == rhs@[i as int]);
                assert(multiple(left, ratio) == right);
                assert(multiple(l, ratio) == r);
                assert(multiple(next_l, ratio) == sum(multiple(l, ratio), multiple(left, ratio)));
            }
        }
        l = next_l;
        r = next_r;
        i = i + 1;
    }
    (l, r)
}

} // verus!
