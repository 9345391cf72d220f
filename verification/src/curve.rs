use vstd::arithmetic::power::pow;
use vstd::arithmetic::power2::pow2;
use vstd::prelude::*;

use crate::algebra::prime_order;
use crate::canonical::{Canonical, CanonicalModel};
use crate::rng::SeededRng;

verus! {

/// What the scalars of a prime-order group stand for.
pub trait ScalarModel: Sized {
    /// The order of the group, a prime.
    spec fn order() -> nat;

    /// The residue that the scalar stands for.
    spec fn value(self) -> nat;

    /// The largest `k` for which `2^k` divides `order() - 1`.
    spec fn two_adicity() -> nat;

    /// A residue of multiplicative order `2^two_adicity()`.
    spec fn root_of_unity() -> nat;

    /// What is drawn from the key stream of `seed` at `position`, and the position after it.
    spec fn sampled(seed: Seq<u8>, position: u128) -> (Self, u128);
}

/// The scalars of a prime-order group.
pub trait PrimeField: ScalarModel + Copy {
    proof fn lemma_value(self)
        ensures
            self.value() < Self::order(),
            Self::order() > 2,
            Self::order() % 2 == 1,
    ;

    /// The root of unity has the order that it is said to have.
    proof fn lemma_root_of_unity()
        ensures
            Self::two_adicity() >= 1,
            pow(Self::root_of_unity() as int, pow2((Self::two_adicity() - 1) as nat)) % (
            Self::order() as int) == Self::order() - 1,
    ;

    /// The limbs of the order, which is a prime.
    fn modulus() -> (res: [u64; 4])
        ensures
            crate::math::limbs_value(res@) == Self::order(),
            prime_order::<Self>(),
    ;

    fn one() -> (res: Self)
        ensures
            res.value() == 1,
    ;

    fn product(self, other: Self) -> (res: Self)
        ensures
            res.value() == (self.value() * other.value()) % Self::order(),
    ;

    /// The multiplicative inverse; zero has none.
    fn inverse(self) -> (res: Option<Self>)
        ensures
            res is None <==> self.value() == 0,
            res matches Some(inverse) ==> (inverse.value() * self.value()) % Self::order() == 1,
    ;

    /// Draws a scalar.
    fn rand(rng: &mut SeededRng) -> (res: Self)
        ensures
            (res, final(rng).position) == Self::sampled(old(rng).seed@, old(rng).position),
            final(rng).seed == old(rng).seed,
    ;

    /// The size of the smallest radix-2 evaluation domain with at least `n` elements.
    fn domain_size(n: usize) -> (res: Option<usize>)
        ensures
            match res {
                Some(size) => crate::math::domain_size(n as nat, Self::two_adicity()) == Some(
                    size as nat,
                ),
                None => crate::math::domain_size(n as nat, Self::two_adicity()) is None,
            },
    ;
}

/// The generator of the evaluation domain of `size` elements.
pub open spec fn domain_root<F: ScalarModel>(size: nat) -> nat {
    (pow(F::root_of_unity() as int, pow2(F::two_adicity()) / size) % (F::order() as int)) as nat
}

/// What the points of a curve stand for.
///
/// The multiples `exp(0), exp(1), ..` of the generator make up the group. The other functions
/// give the results of the curve's operations where an argument lies outside it.
pub trait GroupModel: Sized {
    type ScalarField: PrimeField;

    /// The generator times `k`.
    spec fn exp(k: nat) -> Self;

    /// Whether the curve's equation holds, or the point is the one at infinity.
    spec fn on_curve(self) -> bool;

    /// The number of bytes that a point is encoded in.
    spec fn point_length(compress: bool) -> nat;

    spec fn outside_sum(a: Self, b: Self) -> Self;

    spec fn outside_multiple(a: Self, k: nat) -> Self;

    spec fn outside_fft(values: Seq<Self>) -> Seq<Self>;

    spec fn outside_ifft(values: Seq<Self>) -> Seq<Self>;

    /// What is drawn from the key stream of `seed` at `position`, and the position after it.
    spec fn sampled_point(seed: Seq<u8>, position: u128) -> (Self, u128);
}

/// Whether `p` is a multiple of the generator.
pub open spec fn in_group<A: GroupModel>(p: A) -> bool {
    exists|k: nat| k < A::ScalarField::order() && #[trigger] A::exp(k) == p
}

/// The multiple of the generator that `p` is.
pub open spec fn log<A: GroupModel>(p: A) -> nat {
    choose|k: nat| k < A::ScalarField::order() && #[trigger] A::exp(k) == p
}

/// Whether the generator has `order()` different multiples.
pub open spec fn full_order<A: GroupModel>() -> bool {
    forall|j: nat, k: nat|
        #![trigger A::exp(j), A::exp(k)]
        j < A::ScalarField::order() && k < A::ScalarField::order() && A::exp(j) == A::exp(k) ==> j
            == k
}

pub open spec fn all_in_group<A: GroupModel>(points: Seq<A>) -> bool {
    forall|i: int| 0 <= i < points.len() ==> in_group(#[trigger] points[i])
}

pub open spec fn all_on_curve<A: GroupModel>(points: Seq<A>) -> bool {
    forall|i: int| 0 <= i < points.len() ==> (#[trigger] points[i]).on_curve()
}

pub open spec fn logs<A: GroupModel>(points: Seq<A>) -> Seq<nat> {
    points.map_values(|p: A| log(p))
}

pub open spec fn exps<A: GroupModel>(multiples: Seq<nat>) -> Seq<A> {
    multiples.map_values(|k: nat| A::exp(k))
}

/// `a + b`
pub open spec fn sum<A: GroupModel>(a: A, b: A) -> A {
    if in_group(a) && in_group(b) {
        A::exp((log(a) + log(b)) % A::ScalarField::order())
    } else {
        A::outside_sum(a, b)
    }
}

/// `k` times `a`
pub open spec fn multiple<A: GroupModel>(a: A, k: nat) -> A {
    if in_group(a) {
        A::exp((log(a) * k) % A::ScalarField::order())
    } else {
        A::outside_multiple(a, k)
    }
}

/// Whether a multiple of `total` is the sum of the same multiples of `a` and `b`.
pub open spec fn distributes<A: GroupModel>(total: A, a: A, b: A) -> bool {
    forall|k: nat|
        k < A::ScalarField::order() ==> #[trigger] multiple(total, k) == sum(
            multiple(a, k),
            multiple(b, k),
        )
}

/// Whether a multiple of `product` is `k` times the same multiple of `a`.
pub open spec fn commutes<A: GroupModel>(product: A, a: A, k: nat) -> bool {
    forall|j: nat|
        j < A::ScalarField::order() ==> #[trigger] multiple(product, j) == multiple(
            multiple(a, j),
            k,
        )
}

/// The values, on the evaluation domain of their number, of the polynomial with these
/// coefficients.
pub open spec fn fft<A: GroupModel>(coefficients: Seq<A>) -> Seq<A> {
    if all_in_group(coefficients) {
        exps(
            crate::math::dft(
                logs(coefficients),
                domain_root::<A::ScalarField>(coefficients.len()),
                A::ScalarField::order(),
            ),
        )
    } else {
        A::outside_fft(coefficients)
    }
}

/// The coefficients of the polynomial with these values on the evaluation domain of their number.
pub open spec fn ifft<A: GroupModel>(values: Seq<A>) -> Seq<A> {
    if all_in_group(values) {
        exps(
            crate::math::inverse_dft(
                logs(values),
                domain_root::<A::ScalarField>(values.len()),
                A::ScalarField::order(),
            ),
        )
    } else {
        A::outside_ifft(values)
    }
}

/// Whether there is a radix-2 evaluation domain of exactly `size` elements.
pub open spec fn is_domain_size<F: ScalarModel>(size: nat) -> bool {
    crate::math::power_of_two(size) && crate::math::domain_size(size, F::two_adicity()) == Some(
        size,
    )
}

/// Points of a curve, by their affine coordinates.
pub trait AffineRepr:
    GroupModel + Copy + PartialEq + std::fmt::Debug + Canonical + CanonicalModel<Value = Self>
{
    proof fn lemma_canonical(self)
        ensures
            self.value_of() == self,
            Self::valid(self) == in_group(self),
            forall|compress: bool|
                #[trigger] Self::encoded_length(self, compress) == Self::point_length(compress),
    ;

    fn generator() -> (res: Self)
        ensures
            res == Self::exp(1),
            full_order::<Self>(),
    ;

    fn zero() -> (res: Self)
        ensures
            res == Self::exp(0),
            res.on_curve(),
    ;

    fn plus(self, other: Self) -> (res: Self)
        ensures
            res == sum(self, other),
            self.on_curve() && other.on_curve() ==> res.on_curve() && distributes(res, self, other),
    ;

    fn times(self, scalar: Self::ScalarField) -> (res: Self)
        ensures
            res == multiple(self, scalar.value()),
            self.on_curve() ==> res.on_curve() && commutes(res, self, scalar.value()),
    ;

    fn equals(&self, other: &Self) -> (res: bool)
        ensures
            res == (*self == *other),
    ;

    fn fft(coefficients: &Vec<Self>) -> (res: Vec<Self>)
        requires
            is_domain_size::<Self::ScalarField>(coefficients@.len()),
        ensures
            res@ == fft(coefficients@),
            res@.len() == coefficients@.len(),
    ;

    fn ifft(values: &Vec<Self>) -> (res: Vec<Self>)
        requires
            is_domain_size::<Self::ScalarField>(values@.len()),
        ensures
            res@ == ifft(values@),
            res@.len() == values@.len(),
    ;

    /// Draws a point of the group.
    fn rand(rng: &mut SeededRng) -> (res: Self)
        ensures
            (res, final(rng).position) == Self::sampled_point(old(rng).seed@, old(rng).position),
            final(rng).seed == old(rng).seed,
            in_group(res),
    ;
}

/// Points that can be subtracted.
pub trait Subtract: AffineRepr {
    spec fn outside_difference(a: Self, b: Self) -> Self;

    fn minus(self, other: Self) -> (res: Self)
        ensures
            res == (if in_group(self) && in_group(other) {
                Self::exp(
                    ((log(self) + Self::ScalarField::order() - log(other))
                        % (Self::ScalarField::order() as int)) as nat,
                )
            } else {
                Self::outside_difference(self, other)
            }),
    ;
}

/// `a - b`
pub open spec fn difference<A: Subtract>(a: A, b: A) -> A {
    if in_group(a) && in_group(b) {
        A::exp(
            ((log(a) + A::ScalarField::order() - log(b)) % (A::ScalarField::order() as int)) as nat,
        )
    } else {
        A::outside_difference(a, b)
    }
}

/// The points of the first group of a pairing.
pub type G1<E> = <E as Pairing>::G1Affine;

/// The points of the second group of a pairing.
pub type G2<E> = <E as Pairing>::G2Affine;

/// Two groups with a pairing.
pub trait Pairing: Sized {
    type ScalarField: PrimeField;

    type G1Affine: Subtract + GroupModel<ScalarField = Self::ScalarField>;

    type G2Affine: AffineRepr + GroupModel<ScalarField = Self::ScalarField>;

    /// Whether the pairing of `a` and `b` equals that of `c` and `d`, where a point lies outside its
    /// group. Not all points outside the groups have a pairing.
    spec fn outside_same_pairing(
        a: Self::G1Affine,
        b: Self::G2Affine,
        c: Self::G1Affine,
        d: Self::G2Affine,
    ) -> Option<bool>;

    /// Whether the pairing of `a` and `b` equals that of `c` and `d`, where they have one.
    fn same_pairing(
        a: Self::G1Affine,
        b: Self::G2Affine,
        c: Self::G1Affine,
        d: Self::G2Affine,
    ) -> (res: Option<bool>)
        ensures
            res == (if in_group(a) && in_group(b) && in_group(c) && in_group(d) {
                Some(
                    (log(a) * log(b)) % Self::ScalarField::order() == (log(c) * log(d))
                        % Self::ScalarField::order(),
                )
            } else {
                Self::outside_same_pairing(a, b, c, d)
            }),
    ;
}

/// Whether the pairing of `a` and `b` equals that of `c` and `d`, or `None` where one of the
/// pairings is not defined.
pub open spec fn pairings_equal<E: Pairing>(
    a: E::G1Affine,
    b: E::G2Affine,
    c: E::G1Affine,
    d: E::G2Affine,
) -> Option<bool> {
    if in_group(a) && in_group(b) && in_group(c) && in_group(d) {
        Some(
            (log(a) * log(b)) % E::ScalarField::order() == (log(c) * log(d))
                % E::ScalarField::order(),
        )
    } else {
        E::outside_same_pairing(a, b, c, d)
    }
}

} // verus!
