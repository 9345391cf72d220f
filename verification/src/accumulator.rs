use vstd::arithmetic::div_mod::{lemma_mod_bound, lemma_mul_mod_noop_general, lemma_small_mod};
use vstd::arithmetic::power::{
    lemma0_pow, lemma_pow0, lemma_pow1, lemma_pow_adds, lemma_pow_positive, pow,
};
use vstd::arithmetic::power2::{lemma2_to64, lemma_pow2_pos, lemma_pow2_strictly_increases, pow2};
use vstd::prelude::*;
use vstd::slice::{slice_subrange, slice_to_vec};

use crate::algebra::{have_full_orders, mul_mod};
use crate::canonical::{reads_back, Canonical, CanonicalModel};
use crate::curve::{
    all_in_group, difference, ifft, in_group, is_domain_size, log, multiple, AffineRepr,
    GroupModel, Pairing, PrimeField, ScalarModel, Subtract, G1, G2,
};
use crate::error::{Error, ErrorModel, SynthesisError};
use crate::laws::{law_contribution_keeps_powers, law_empty_is_powers};
use crate::math::{
    ceil_log2, domain_size, is_power_of_two, lemma_domain_size, lemma_power_of_two_fixed,
    power_of_two, power_of_two_at,
};
use crate::rng::SeededRng;
use crate::utils::{
    affine_points, batch_into_affine, batch_into_projective, lemma_points_length,
    lemma_points_value, serialize, Projective,
};

verus! {

/// Powers of a secret `tau` in both groups, and their products with two more secrets.
#[derive(Clone, Debug, PartialEq)]
pub struct Accumulator<E: Pairing> {
    pub tau_powers_g1: Vec<E::G1Affine>,
    pub tau_powers_g2: Vec<E::G2Affine>,
    pub alpha_tau_powers_g1: Vec<E::G1Affine>,
    pub beta_tau_powers_g1: Vec<E::G1Affine>,
    pub beta_g2: E::G2Affine,
}

/// An [`Accumulator`] with its vectors taken as sequences.
pub struct AccumulatorModel<E: Pairing> {
    pub tau_powers_g1: Seq<E::G1Affine>,
    pub tau_powers_g2: Seq<E::G2Affine>,
    pub alpha_tau_powers_g1: Seq<E::G1Affine>,
    pub beta_tau_powers_g1: Seq<E::G1Affine>,
    pub beta_g2: E::G2Affine,
}

impl<E: Pairing> View for Accumulator<E> {
    type V = AccumulatorModel<E>;

    open spec fn view(&self) -> AccumulatorModel<E> {
        AccumulatorModel {
            tau_powers_g1: self.tau_powers_g1@,
            tau_powers_g2: self.tau_powers_g2@,
            alpha_tau_powers_g1: self.alpha_tau_powers_g1@,
            beta_tau_powers_g1: self.beta_tau_powers_g1@,
            beta_g2: self.beta_g2,
        }
    }
}

/// The powers in Lagrange form over an evaluation domain, ready for the generation of keys.
#[derive(Clone, Debug, PartialEq)]
#[must_use]
pub struct PreparedAccumulator<E: Pairing> {
    pub alpha: E::G1Affine,
    pub beta: E::G1Affine,
    pub tau_lagrange_g1: Vec<Projective<E::G1Affine>>,
    pub tau_lagrange_g2: Vec<Projective<E::G2Affine>>,
    pub alpha_lagrange_g1: Vec<Projective<E::G1Affine>>,
    pub beta_lagrange_g1: Vec<Projective<E::G1Affine>>,
    pub beta_g2: E::G2Affine,
    pub h_query: Vec<E::G1Affine>,
}

/// A [`PreparedAccumulator`] with its vectors taken as sequences of points.
pub struct PreparedModel<E: Pairing> {
    pub alpha: E::G1Affine,
    pub beta: E::G1Affine,
    pub tau_lagrange_g1: Seq<E::G1Affine>,
    pub tau_lagrange_g2: Seq<E::G2Affine>,
    pub alpha_lagrange_g1: Seq<E::G1Affine>,
    pub beta_lagrange_g1: Seq<E::G1Affine>,
    pub beta_g2: E::G2Affine,
    pub h_query: Seq<E::G1Affine>,
}

impl<E: Pairing> View for PreparedAccumulator<E> {
    type V = PreparedModel<E>;

    open spec fn view(&self) -> PreparedModel<E> {
        PreparedModel {
            alpha: self.alpha,
            beta: self.beta,
            tau_lagrange_g1: affine_points(self.tau_lagrange_g1@),
            tau_lagrange_g2: affine_points(self.tau_lagrange_g2@),
            alpha_lagrange_g1: affine_points(self.alpha_lagrange_g1@),
            beta_lagrange_g1: affine_points(self.beta_lagrange_g1@),
            beta_g2: self.beta_g2,
            h_query: self.h_query@,
        }
    }
}

/// The value of the `i`-th power of a scalar of value `x`.
pub open spec fn power_value(x: nat, i: nat, order: nat) -> nat {
    (pow(x as int, i) % (order as int)) as nat
}

/// The least of four lengths.
pub open spec fn least(a: nat, b: nat, c: nat, d: nat) -> nat {
    let e = if a < b {
        a
    } else {
        b
    };
    let f = if c < d {
        c
    } else {
        d
    };
    if e < f {
        e
    } else {
        f
    }
}

impl<E: Pairing> AccumulatorModel<E> {
    /// Whether the lengths fit each other.
    pub open spec fn valid_lengths(self) -> bool {
        &&& 2 * self.tau_powers_g1.len() - 1 >= self.tau_powers_g2.len()
        &&& self.tau_powers_g2.len() == self.alpha_tau_powers_g1.len()
        &&& self.tau_powers_g2.len() == self.beta_tau_powers_g1.len()
    }

    /// Whether every point lies in its group.
    pub open spec fn in_groups(self) -> bool {
        &&& all_in_group(self.tau_powers_g1)
        &&& all_in_group(self.tau_powers_g2)
        &&& all_in_group(self.alpha_tau_powers_g1)
        &&& all_in_group(self.beta_tau_powers_g1)
        &&& in_group(self.beta_g2)
    }

    /// Whether there are enough powers for a domain of `size` elements.
    pub open spec fn suffices(self, size: nat) -> bool {
        self.tau_powers_g2.len() >= size && self.tau_powers_g1.len() >= 2 * size - 1
    }

    /// The Lagrange form over the domain of `size` elements.
    pub open spec fn lagrange(self, size: nat) -> PreparedModel<E> {
        PreparedModel {
            alpha: self.alpha_tau_powers_g1[0],
            beta: self.beta_tau_powers_g1[0],
            tau_lagrange_g1: ifft(self.tau_powers_g1.take(size as int)),
            tau_lagrange_g2: ifft(self.tau_powers_g2.take(size as int)),
            alpha_lagrange_g1: ifft(self.alpha_tau_powers_g1.take(size as int)),
            beta_lagrange_g1: ifft(self.beta_tau_powers_g1.take(size as int)),
            beta_g2: self.beta_g2,
            h_query: Seq::new(
                (size - 1) as nat,
                |i: int| difference(self.tau_powers_g1[i + size], self.tau_powers_g1[i]),
            ),
        }
    }

    /// What preparing for the domain of at least `size` elements gives.
    pub open spec fn prepared_with_size(self, size: nat) -> Result<PreparedModel<E>, ErrorModel> {
        match domain_size(size, E::ScalarField::two_adicity()) {
            None => Err(ErrorModel::ConstraintSystem(SynthesisError::PolynomialDegreeTooLarge)),
            Some(actual) => if self.suffices(actual) {
                Ok(self.lagrange(actual))
            } else {
                Err(ErrorModel::NotEnoughPOTDegree(ceil_log2(actual)))
            },
        }
    }

    /// Whether preparing for the domain of at least `size` elements finds every power it reads.
    pub open spec fn preparable(self, size: nat) -> bool {
        domain_size(size, E::ScalarField::two_adicity()) matches Some(actual) ==> self.suffices(
            actual,
        ) ==> self.alpha_tau_powers_g1.len() >= actual && self.beta_tau_powers_g1.len() >= actual
    }

    /// What preparing gives.
    pub open spec fn prepared(self) -> Result<PreparedModel<E>, ErrorModel> {
        if self.valid_lengths() && power_of_two(self.tau_powers_g2.len()) {
            self.prepared_with_size(self.tau_powers_g2.len())
        } else {
            Err(ErrorModel::InvalidPOTSize)
        }
    }

    /// The number of powers that a contribution takes along in all four vectors.
    pub open spec fn common(self) -> nat {
        least(
            self.tau_powers_g1.len(),
            self.tau_powers_g2.len(),
            self.alpha_tau_powers_g1.len(),
            self.beta_tau_powers_g1.len(),
        )
    }

    /// The powers after a contribution of secrets of these values.
    pub open spec fn contributed(self, tau: nat, alpha: nat, beta: nat) -> Self {
        let order = E::ScalarField::order();
        AccumulatorModel {
            tau_powers_g1: Seq::new(
                self.tau_powers_g1.len(),
                |i: int|
                    if i < self.common() || i >= self.tau_powers_g2.len() {
                        multiple(self.tau_powers_g1[i], power_value(tau, i as nat, order))
                    } else {
                        self.tau_powers_g1[i]
                    },
            ),
            tau_powers_g2: Seq::new(
                self.tau_powers_g2.len(),
                |i: int|
                    if i < self.common() {
                        multiple(self.tau_powers_g2[i], power_value(tau, i as nat, order))
                    } else {
                        self.tau_powers_g2[i]
                    },
            ),
            alpha_tau_powers_g1: Seq::new(
                self.alpha_tau_powers_g1.len(),
                |i: int|
                    if i < self.common() {
                        multiple(
                            self.alpha_tau_powers_g1[i],
                            mul_mod(power_value(tau, i as nat, order), alpha, order),
                        )
                    } else {
                        self.alpha_tau_powers_g1[i]
                    },
            ),
            beta_tau_powers_g1: Seq::new(
                self.beta_tau_powers_g1.len(),
                |i: int|
                    if i < self.common() {
                        multiple(
                            self.beta_tau_powers_g1[i],
                            mul_mod(power_value(tau, i as nat, order), beta, order),
                        )
                    } else {
                        self.beta_tau_powers_g1[i]
                    },
            ),
            beta_g2: multiple(self.beta_g2, beta),
        }
    }

    /// Whether the lengths are those of powers that contributions can be made to.
    pub open spec fn contributable(self) -> bool {
        &&& self.tau_powers_g2.len() <= self.tau_powers_g1.len()
        &&& self.alpha_tau_powers_g1.len() == self.tau_powers_g2.len()
        &&& self.beta_tau_powers_g1.len() == self.tau_powers_g2.len()
    }

    /// Whether these are the powers of secrets of the values `tau`, `alpha` and `beta`.
    pub open spec fn powers_of(self, tau: nat, alpha: nat, beta: nat) -> bool {
        let order = E::ScalarField::order();
        &&& self.contributable()
        &&& self.in_groups()
        &&& forall|i: int|
            0 <= i < self.tau_powers_g1.len() ==> log(#[trigger] self.tau_powers_g1[i])
                == power_value(tau, i as nat, order)
        &&& forall|i: int|
            0 <= i < self.tau_powers_g2.len() ==> log(#[trigger] self.tau_powers_g2[i])
                == power_value(tau, i as nat, order)
        &&& forall|i: int|
            0 <= i < self.alpha_tau_powers_g1.len() ==> log(
                #[trigger] self.alpha_tau_powers_g1[i],
            ) == mul_mod(power_value(tau, i as nat, order), alpha, order)
        &&& forall|i: int|
            0 <= i < self.beta_tau_powers_g1.len() ==> log(#[trigger] self.beta_tau_powers_g1[i])
                == mul_mod(power_value(tau, i as nat, order), beta, order)
        &&& log(self.beta_g2) == beta % order
    }

    /// The powers before any contribution: every secret is 1.
    pub open spec fn empty(g1_powers: nat, g2_powers: nat) -> Self {
        AccumulatorModel {
            tau_powers_g1: Seq::new(g1_powers, |i: int| E::G1Affine::exp(1)),
            tau_powers_g2: Seq::new(g2_powers, |i: int| E::G2Affine::exp(1)),
            alpha_tau_powers_g1: Seq::new(g2_powers, |i: int| E::G1Affine::exp(1)),
            beta_tau_powers_g1: Seq::new(g2_powers, |i: int| E::G1Affine::exp(1)),
            beta_g2: E::G2Affine::exp(1),
        }
    }
}

impl<E: Pairing> AccumulatorModel<E> {
    /// The powers before any contribution, for the domain of `2^degree` elements.
    pub open spec fn empty_of_degree(degree: nat) -> Result<Self, ErrorModel> {
        if degree <= 28 {
            Ok(Self::empty((2 * pow2(degree) - 1) as nat, pow2(degree)))
        } else {
            Err(ErrorModel::ConstraintSystem(SynthesisError::PolynomialDegreeTooLarge))
        }
    }

    /// The powers before any contribution, for circuits of at most so many constraints.
    pub open spec fn empty_for_constraints(max_constraints: nat) -> Result<Self, ErrorModel> {
        match domain_size(max_constraints, E::ScalarField::two_adicity()) {
            Some(size) => Ok(Self::empty(2 * size + 1, size + 1)),
            None => Err(ErrorModel::ConstraintSystem(SynthesisError::PolynomialDegreeTooLarge)),
        }
    }
}

/// Whether a result is the one described.
pub open spec fn prepares<E: Pairing>(
    res: Result<PreparedAccumulator<E>, Error>,
    expected: Result<PreparedModel<E>, ErrorModel>,
) -> bool {
    match res {
        Ok(prepared) => expected == Ok::<PreparedModel<E>, ErrorModel>(prepared@),
        Err(error) => expected == Err::<PreparedModel<E>, ErrorModel>(error@),
    }
}

/// Whether a result is the one described.
pub open spec fn accumulates<E: Pairing>(
    res: Result<Accumulator<E>, Error>,
    expected: Result<AccumulatorModel<E>, ErrorModel>,
) -> bool {
    match res {
        Ok(accumulator) => expected == Ok::<AccumulatorModel<E>, ErrorModel>(accumulator@),
        Err(error) => expected == Err::<AccumulatorModel<E>, ErrorModel>(error@),
    }
}

/// `count` times the same point.
fn repeat<A: AffineRepr>(point: A, count: usize) -> (res: Vec<A>)
    ensures
        res@ == Seq::new(count as nat, |i: int| point),
{
    let mut res: Vec<A> = Vec::new();
    let mut i: usize = 0;
    while i < count
        invariant
            i <= count,
            res@.len() == i,
            forall|j: int| 0 <= j < i ==> res@[j] == point,
        decreases count - i,
    {
        res.push(point);
        i = i + 1;
    }
    proof {
        assert(res@ =~= Seq::new(count as nat, |i: int| point));
    }
    res
}

/// The coefficients of the polynomial with the first `size` points for its values.
fn lagrange_form<A: AffineRepr>(points: &Vec<A>, size: usize) -> (res: Vec<Projective<A>>)
    requires
        size <= points@.len(),
        is_domain_size::<A::ScalarField>(size as nat),
    ensures
        affine_points(res@) == ifft(points@.take(size as int)),
        res@.len() == size,
{
    let values = slice_to_vec(slice_subrange(points, 0, size));
    proof {
        assert(values@ =~= points@.take(size as int));
    }
    let coefficients = A::ifft(&values);
    batch_into_projective(&coefficients)
}

/// The first `count` powers of `x`.
fn powers<F: PrimeField>(x: F, count: usize) -> (res: Vec<F>)
    ensures
        res@.len() == count,
        forall|i: int|
            0 <= i < count ==> (#[trigger] res@[i]).value() == power_value(
                x.value(),
                i as nat,
                F::order(),
            ),
{
    let mut res: Vec<F> = Vec::new();
    let mut power = F::one();
    let mut i: usize = 0;
    proof {
        lemma_pow0(x.value() as int);
        x.lemma_value();
        lemma_small_mod(1, F::order());
    }
    while i < count
        invariant
            i <= count,
            res@.len() == i,
            power.value() == power_value(x.value(), i as nat, F::order()),
            forall|j: int|
                0 <= j < i ==> (#[trigger] res@[j]).value() == power_value(
                    x.value(),
                    j as nat,
                    F::order(),
                ),
        decreases count - i,
    {
        res.push(power);
        power = power.product(x);
        proof {
            x.lemma_value();
            lemma_power_value_step(x.value(), i as nat, F::order());
        }
        i = i + 1;
    }
    res
}

pub proof fn lemma_power_value_step(x: nat, i: nat, order: nat)
    requires
        order > 0,
    ensures
        mul_mod(power_value(x, i, order), x, order) == power_value(x, i + 1, order),
        power_value(x, i, order) < order,
{
    let p = pow(x as int, i);
    lemma_pow_adds(x as int, i, 1);
    lemma_pow1(x as int);
    lemma_pow_nonnegative(x, i);
    lemma_mul_mod_noop_general(p, x as int, order as int);
    lemma_mod_bound(p, order as int);
}

pub proof fn lemma_pow_nonnegative(x: nat, i: nat)
    ensures
        pow(x as int, i) >= 0,
{
    if x == 0 {
        if i == 0 {
            lemma_pow0(0);
        } else {
            lemma0_pow(i);
        }
    } else {
        lemma_pow_positive(x as int, i);
    }
}

impl<E: Pairing> Accumulator<E> {
    /// Computes the Lagrange form over the domain of at least `size` elements.
    pub fn prepare_with_size(&self, size: usize) -> (res: Result<PreparedAccumulator<E>, Error>)
        requires
            self@.tau_powers_g1.len() > 0,
            self@.preparable(size as nat),
        ensures
            prepares(res, self@.prepared_with_size(size as nat)),
            res matches Ok(prepared) ==> prepared@.valid_lengths() && domain_size(
                size as nat,
                E::ScalarField::two_adicity(),
            ) == Some(prepared@.tau_lagrange_g1.len()),
    {
        let (_, g1_len, g2_len) = self.check_pow_len();
        let actual: usize = match E::ScalarField::domain_size(size) {
            Some(actual) => actual,
            None => {
                return Err(Error::ConstraintSystem(SynthesisError::PolynomialDegreeTooLarge));
            },
        };
        proof {
            lemma_domain_size(size as nat, E::ScalarField::two_adicity());
        }
        if !(g2_len >= actual && g1_len / 2 + g1_len % 2 >= actual) {
            return Err(Error::NotEnoughPOTDegree(ark_std::log2(actual)));
        }
        let mut h_query: Vec<E::G1Affine> = Vec::new();
        let mut i: usize = 0;
        while i < actual - 1
            invariant
                i <= actual - 1,
                g1_len == self.tau_powers_g1@.len(),
                g1_len >= 2 * actual - 1,
                h_query@.len() == i,
                forall|j: int|
                    0 <= j < i ==> #[trigger] h_query@[j] == difference(
                        self.tau_powers_g1@[j + actual],
                        self.tau_powers_g1@[j],
                    ),
            decreases actual - 1 - i,
        {
            h_query.push(self.tau_powers_g1[i + actual].minus(self.tau_powers_g1[i]));
            i = i + 1;
        }
        let prepared = PreparedAccumulator {
            alpha: self.alpha_tau_powers_g1[0],
            beta: self.beta_tau_powers_g1[0],
            tau_lagrange_g1: lagrange_form(&self.tau_powers_g1, actual),
            tau_lagrange_g2: lagrange_form(&self.tau_powers_g2, actual),
            alpha_lagrange_g1: lagrange_form(&self.alpha_tau_powers_g1, actual),
            beta_lagrange_g1: lagrange_form(&self.beta_tau_powers_g1, actual),
            beta_g2: self.beta_g2,
            h_query,
        };
        proof {
            assert(prepared@.h_query =~= self@.lagrange(actual as nat).h_query);
        }
        Ok(prepared)
    }

    /// Computes the Lagrange form over the domain of as many elements as there are powers in the
    /// second group.
    pub fn prepare(&self) -> (res: Result<PreparedAccumulator<E>, Error>)
        requires
            self@.tau_powers_g1.len() > 0,
        ensures
            prepares(res, self@.prepared()),
            res matches Ok(prepared) ==> prepared@.valid_lengths()
                && prepared@.tau_lagrange_g1.len() == self@.tau_powers_g2.len(),
    {
        let (valid, _, g2_len) = self.check_pow_len();
        if !(valid && is_power_of_two(g2_len)) {
            return Err(Error::InvalidPOTSize);
        }
        proof {
            lemma_power_of_two_fixed(g2_len as nat);
        }
        self.prepare_with_size(g2_len)
    }

    /// Whether the lengths fit each other, and the numbers of powers in the two groups.
    pub fn check_pow_len(&self) -> (res: (bool, usize, usize))
        requires
            self@.tau_powers_g1.len() > 0,
        ensures
            res.0 == self@.valid_lengths(),
            res.1 == self@.tau_powers_g1.len(),
            res.2 == self@.tau_powers_g2.len(),
    {
        let g1_len: usize = self.tau_powers_g1.len();
        let g2_len: usize = self.tau_powers_g2.len();
        (
            g1_len > g2_len / 2 && g2_len == self.alpha_tau_powers_g1.len() && g2_len
                == self.beta_tau_powers_g1.len(),
            g1_len,
            g2_len,
        )
    }

    /// Contributes three secrets drawn from `rng`.
    pub fn contribute(&mut self, rng: &mut SeededRng)
        requires
            old(self)@.tau_powers_g2.len() <= old(self)@.tau_powers_g1.len(),
        ensures
            ({
                let seed = old(rng).seed@;
                let (tau, next) = E::ScalarField::sampled(seed, old(rng).position);
                let (alpha, after) = E::ScalarField::sampled(seed, next);
                let (beta, last) = E::ScalarField::sampled(seed, after);
                &&& final(self)@ == old(self)@.contributed(
                    tau.value(),
                    alpha.value(),
                    beta.value(),
                )
                &&& final(rng).seed == old(rng).seed
                &&& final(rng).position == last
            }),
    {
        let tau = E::ScalarField::rand(rng);
        let alpha = E::ScalarField::rand(rng);
        let beta = E::ScalarField::rand(rng);
        self.contribute_secrets(tau, alpha, beta);
    }

    /// Contributes three secrets: the powers are multiplied by those of `tau`, and the products
    /// with the other secrets by `alpha` and `beta` as well.
    pub fn contribute_secrets(
        &mut self,
        tau: E::ScalarField,
        alpha: E::ScalarField,
        beta: E::ScalarField,
    )
        requires
            old(self)@.tau_powers_g2.len() <= old(self)@.tau_powers_g1.len(),
        ensures
            final(self)@ == old(self)@.contributed(tau.value(), alpha.value(), beta.value()),
            forall|t: nat, a: nat, b: nat| #[trigger]
                old(self)@.powers_of(t, a, b) ==> final(self)@.powers_of(
                    mul_mod(t, tau.value(), E::ScalarField::order()),
                    mul_mod(a, alpha.value(), E::ScalarField::order()),
                    mul_mod(b, beta.value(), E::ScalarField::order()),
                ),
    {
        have_full_orders::<E>();
        let ghost before = self@;
        let ghost order = E::ScalarField::order();
        let ghost expected = before.contributed(tau.value(), alpha.value(), beta.value());
        let g1_powers: usize = self.tau_powers_g1.len();
        let g2_powers: usize = self.tau_powers_g2.len();
        let tau_powers = powers(tau, g1_powers);
        let mut i: usize = 0;
        while i < g2_powers && i < self.alpha_tau_powers_g1.len() && i
            < self.beta_tau_powers_g1.len()
            invariant
                g1_powers == before.tau_powers_g1.len(),
                g2_powers == before.tau_powers_g2.len(),
                g2_powers <= g1_powers,
                i <= before.common(),
                order == E::ScalarField::order(),
                expected == before.contributed(tau.value(), alpha.value(), beta.value()),
                tau_powers@.len() == g1_powers,
                forall|j: int|
                    0 <= j < g1_powers ==> (#[trigger] tau_powers@[j]).value() == power_value(
                        tau.value(),
                        j as nat,
                        order,
                    ),
                self.beta_g2 == before.beta_g2,
                self.tau_powers_g1@.len() == before.tau_powers_g1.len(),
                self.tau_powers_g2@.len() == before.tau_powers_g2.len(),
                self.alpha_tau_powers_g1@.len() == before.alpha_tau_powers_g1.len(),
                self.beta_tau_powers_g1@.len() == before.beta_tau_powers_g1.len(),
                forall|j: int|
                    0 <= j < i ==> #[trigger] self.tau_powers_g1@[j] == expected.tau_powers_g1[j],
                forall|j: int|
                    0 <= j < i ==> #[trigger] self.tau_powers_g2@[j] == expected.tau_powers_g2[j],
                forall|j: int|
                    0 <= j < i ==> #[trigger] self.alpha_tau_powers_g1@[j]
                        == expected.alpha_tau_powers_g1[j],
                forall|j: int|
                    0 <= j < i ==> #[trigger] self.beta_tau_powers_g1@[j]
                        == expected.beta_tau_powers_g1[j],
                forall|j: int|
                    i <= j < before.tau_powers_g1.len() ==> #[trigger] self.tau_powers_g1@[j]
                        == before.tau_powers_g1[j],
                forall|j: int|
                    i <= j < before.tau_powers_g2.len() ==> #[trigger] self.tau_powers_g2@[j]
                        == before.tau_powers_g2[j],
                forall|j: int|
                    i <= j < before.alpha_tau_powers_g1.len()
                        ==> #[trigger] self.alpha_tau_powers_g1@[j]
                        == before.alpha_tau_powers_g1[j],
                forall|j: int|
                    i <= j < before.beta_tau_powers_g1.len()
                        ==> #[trigger] self.beta_tau_powers_g1@[j] == before.beta_tau_powers_g1[j],
            decreases g2_powers - i,
        {
            let power = tau_powers[i];
            let tau_g1 = self.tau_powers_g1[i].times(power);
            let tau_g2 = self.tau_powers_g2[i].times(power);
            let alpha_tau_g1 = self.alpha_tau_powers_g1[i].times(power.product(alpha));
            let beta_tau_g1 = self.beta_tau_powers_g1[i].times(power.product(beta));
            self.tau_powers_g1.set(i, tau_g1);
            self.tau_powers_g2.set(i, tau_g2);
            self.alpha_tau_powers_g1.set(i, alpha_tau_g1);
            self.beta_tau_powers_g1.set(i, beta_tau_g1);
            i = i + 1;
        }
        let mut k: usize = g2_powers;
        while k < g1_powers
            invariant
                i == before.common(),
                g1_powers == before.tau_powers_g1.len(),
                g2_powers == before.tau_powers_g2.len(),
                i <= g2_powers <= k <= g1_powers,
                order == E::ScalarField::order(),
                expected == before.contributed(tau.value(), alpha.value(), beta.value()),
                tau_powers@.len() == g1_powers,
                forall|j: int|
                    0 <= j < g1_powers ==> (#[trigger] tau_powers@[j]).value() == power_value(
                        tau.value(),
                        j as nat,
                        order,
                    ),
                self.tau_powers_g1@.len() == before.tau_powers_g1.len(),
                forall|j: int|
                    0 <= j < k ==> #[trigger] self.tau_powers_g1@[j] == expected.tau_powers_g1[j],
                forall|j: int|
                    k <= j < before.tau_powers_g1.len() ==> #[trigger] self.tau_powers_g1@[j]
                        == before.tau_powers_g1[j],
                self.beta_g2 == before.beta_g2,
                self.tau_powers_g2@ =~= expected.tau_powers_g2,
                self.alpha_tau_powers_g1@ =~= expected.alpha_tau_powers_g1,
                self.beta_tau_powers_g1@ =~= expected.beta_tau_powers_g1,
            decreases g1_powers - k,
        {
            let tau_g1 = self.tau_powers_g1[k].times(tau_powers[k]);
            self.tau_powers_g1.set(k, tau_g1);
            k = k + 1;
        }
        self.beta_g2 = self.beta_g2.times(beta);
        proof {
            assert(self@.tau_powers_g1 =~= expected.tau_powers_g1);
            assert forall|t: nat, a: nat, b: nat| #[trigger] before.powers_of(t, a, b) implies
                expected.powers_of(
                mul_mod(t, tau.value(), order),
                mul_mod(a, alpha.value(), order),
                mul_mod(b, beta.value(), order),
            ) by {
                law_contribution_keeps_powers(
                    before,
                    (t, a, b),
                    (tau.value(), alpha.value(), beta.value()),
                );
            }
        }
    }

    /// The powers before any contribution: every secret is 1.
    pub fn empty(g1_powers: usize, g2_powers: usize) -> (res: Self)
        ensures
            res@ == AccumulatorModel::<E>::empty(g1_powers as nat, g2_powers as nat),
            g2_powers <= g1_powers ==> res@.powers_of(1, 1, 1),
    {
        have_full_orders::<E>();
        proof {
            if g2_powers <= g1_powers {
                law_empty_is_powers::<E>(g1_powers as nat, g2_powers as nat);
            }
        }
        Accumulator {
            tau_powers_g1: repeat(E::G1Affine::generator(), g1_powers),
            tau_powers_g2: repeat(E::G2Affine::generator(), g2_powers),
            alpha_tau_powers_g1: repeat(E::G1Affine::generator(), g2_powers),
            beta_tau_powers_g1: repeat(E::G1Affine::generator(), g2_powers),
            beta_g2: E::G2Affine::generator(),
        }
    }

    /// The powers before any contribution, for the domain of `2^degree` elements.
    pub fn empty_from_degree(degree: usize) -> (res: Result<Self, Error>)
        ensures
            accumulates(res, AccumulatorModel::<E>::empty_of_degree(degree as nat)),
    {
        if degree > 28 {
            return Err(Error::ConstraintSystem(SynthesisError::PolynomialDegreeTooLarge));
        }
        proof {
            lemma2_to64();
            if degree < 28 {
                lemma_pow2_strictly_increases(degree as nat, 28);
            }
            lemma_pow2_pos(degree as nat);
        }
        match power_of_two_at(degree) {
            Some(g2_powers) => Ok(Self::empty(g2_powers * 2 - 1, g2_powers)),
            None => Err(Error::ConstraintSystem(SynthesisError::PolynomialDegreeTooLarge)),
        }
    }

    /// The powers before any contribution, for circuits of at most `max_constraints` constraints.
    pub fn empty_from_max_constraints(max_constraints: usize) -> (res: Result<Self, Error>)
        requires
            max_constraints > 0,
            domain_size(max_constraints as nat, E::ScalarField::two_adicity()) matches Some(size)
                ==> 2 * size + 1 <= usize::MAX,
        ensures
            accumulates(
                res,
                AccumulatorModel::<E>::empty_for_constraints(max_constraints as nat),
            ),
    {
        match E::ScalarField::domain_size(max_constraints) {
            Some(degree) => {
                let g2_powers: usize = degree + 1;
                Ok(Self::empty(g2_powers * 2 - 1, g2_powers))
            },
            None => Err(Error::ConstraintSystem(SynthesisError::PolynomialDegreeTooLarge)),
        }
    }
}

/// The parts of a stored [`PreparedAccumulator`]: `alpha`, `beta`, `beta_g2`, and then the vectors
/// of `tau` in both groups, of `alpha`, of `beta` and of the `h` query.
pub type PreparedParts<E> = (
    G1<E>,
    (G1<E>, (G2<E>, (Vec<G1<E>>, (Vec<G2<E>>, (Vec<G1<E>>, (Vec<G1<E>>, Vec<G1<E>>)))))),
);

impl<E: Pairing> PreparedModel<E> {
    /// Whether the lengths fit each other.
    pub open spec fn valid_lengths(self) -> bool {
        let len = self.tau_lagrange_g1.len();
        &&& len == self.tau_lagrange_g2.len()
        &&& len == self.alpha_lagrange_g1.len()
        &&& len == self.beta_lagrange_g1.len()
        &&& len - 1 == self.h_query.len()
    }

    /// Whether every point lies in its group.
    pub open spec fn in_groups(self) -> bool {
        &&& in_group(self.alpha)
        &&& in_group(self.beta)
        &&& in_group(self.beta_g2)
        &&& all_in_group(self.tau_lagrange_g1)
        &&& all_in_group(self.tau_lagrange_g2)
        &&& all_in_group(self.alpha_lagrange_g1)
        &&& all_in_group(self.beta_lagrange_g1)
        &&& all_in_group(self.h_query)
    }

    /// The parts in the order in which they are stored.
    pub open spec fn parts(self) -> <PreparedParts<E> as CanonicalModel>::Value {
        (
            self.alpha,
            (
                self.beta,
                (
                    self.beta_g2,
                    (
                        self.tau_lagrange_g1,
                        (
                            self.tau_lagrange_g2,
                            (self.alpha_lagrange_g1, (self.beta_lagrange_g1, self.h_query)),
                        ),
                    ),
                ),
            ),
        )
    }

    pub open spec fn from_parts(parts: <PreparedParts<E> as CanonicalModel>::Value) -> Self {
        PreparedModel {
            alpha: parts.0,
            beta: parts.1.0,
            beta_g2: parts.1.1.0,
            tau_lagrange_g1: parts.1.1.1.0,
            tau_lagrange_g2: parts.1.1.1.1.0,
            alpha_lagrange_g1: parts.1.1.1.1.1.0,
            beta_lagrange_g1: parts.1.1.1.1.1.1.0,
            h_query: parts.1.1.1.1.1.1.1,
        }
    }

    /// The bytes that the prepared accumulator is stored as.
    pub open spec fn stored(self) -> Seq<u8> {
        <PreparedParts<E> as CanonicalModel>::encoding(self.parts(), true)
    }

    /// The number of bytes that the prepared accumulator is stored as: the single points, and
    /// five vectors with their lengths.
    pub open spec fn stored_length(self) -> nat {
        let one = E::G1Affine::point_length(true);
        let two = E::G2Affine::point_length(true);
        2 * one + two + 5 * 8 + self.tau_lagrange_g1.len() * one + self.tau_lagrange_g2.len() * two
            + self.alpha_lagrange_g1.len() * one + self.beta_lagrange_g1.len() * one
            + self.h_query.len() * one
    }

    /// What is loaded from `bytes`.
    pub open spec fn loaded(bytes: Seq<u8>) -> Result<Self, ErrorModel> {
        match <PreparedParts<E> as CanonicalModel>::decoding(bytes, true, true) {
            Ok((parts, _)) => Ok(Self::from_parts(parts)),
            Err(message) => Err(ErrorModel::Custom(message)),
        }
    }

    /// Whether there is any element in Lagrange form.
    pub open spec fn nonempty(self) -> bool {
        self.tau_lagrange_g1.len() > 0 || self.tau_lagrange_g2.len() > 0
            || self.alpha_lagrange_g1.len() > 0 || self.beta_lagrange_g1.len() > 0
    }
}

impl<E: Pairing> PreparedAccumulator<E> {
    /// Whether the lengths fit each other, and the size of the domain.
    pub fn check_pow_len(&self) -> (res: (bool, usize))
        requires
            self@.nonempty(),
        ensures
            res.0 == self@.valid_lengths(),
            res.1 == self@.tau_lagrange_g1.len(),
    {
        let len: usize = self.tau_lagrange_g1.len();
        (
            len == self.tau_lagrange_g2.len() && len == self.alpha_lagrange_g1.len() && len
                == self.beta_lagrange_g1.len() && len - 1 == self.h_query.len(),
            len,
        )
    }

    /// The bytes that the prepared accumulator is stored as: its points compressed, the vectors
    /// behind the single points.
    ///
    /// What is stored of points that lie in their groups is loaded again, and cannot be loaded
    /// where its end is missing.
    pub fn save(&self) -> (res: Result<Vec<u8>, Error>)
        ensures
            res matches Ok(bytes) && bytes@ == self@.stored() && bytes@.len()
                == self@.stored_length(),
            self@.in_groups() ==> forall|count: nat|
                count < self@.stored().len() ==> (#[trigger] PreparedModel::<E>::loaded(
                    self@.stored().take(count as int),
                ) matches Err(ErrorModel::Custom(_))),
            self@.in_groups() ==> PreparedModel::<E>::loaded(self@.stored()) == Ok::<
                PreparedModel<E>,
                ErrorModel,
            >(self@),
            self@.in_groups() ==> forall|tail: Seq<u8>|
                #[trigger] PreparedModel::<E>::loaded(self@.stored() + tail) == Ok::<
                    PreparedModel<E>,
                    ErrorModel,
                >(self@),
    {
        let tau_g1_affine = batch_into_affine(&self.tau_lagrange_g1);
        let tau_g2_affine = batch_into_affine(&self.tau_lagrange_g2);
        let alpha_g1_affine = batch_into_affine(&self.alpha_lagrange_g1);
        let beta_g1_affine = batch_into_affine(&self.beta_lagrange_g1);
        let h_query = slice_to_vec(&self.h_query);
        proof {
            self.alpha.lemma_canonical();
            self.beta.lemma_canonical();
            self.beta_g2.lemma_canonical();
            lemma_points_value(tau_g1_affine);
            lemma_points_value(tau_g2_affine);
            lemma_points_value(alpha_g1_affine);
            lemma_points_value(beta_g1_affine);
            lemma_points_value(h_query);
        }
        let parts: PreparedParts<E> = (
            self.alpha,
            (
                self.beta,
                (
                    self.beta_g2,
                    (
                        tau_g1_affine,
                        (tau_g2_affine, (alpha_g1_affine, (beta_g1_affine, h_query))),
                    ),
                ),
            ),
        );
        let res = serialize(&parts);
        proof {
            assert(parts.value_of() == self@.parts());
            let model = self@;
            lemma_points_length(model.tau_lagrange_g1, model.tau_lagrange_g1.len(), true);
            lemma_points_length(model.tau_lagrange_g2, model.tau_lagrange_g2.len(), true);
            lemma_points_length(model.alpha_lagrange_g1, model.alpha_lagrange_g1.len(), true);
            lemma_points_length(model.beta_lagrange_g1, model.beta_lagrange_g1.len(), true);
            lemma_points_length(model.h_query, model.h_query.len(), true);
            if self@.in_groups() {
                let stored = self@.stored();
                assert(<PreparedParts<E> as CanonicalModel>::valid(self@.parts()));
                assert(reads_back::<PreparedParts<E>>(self@.parts(), true));
                assert(stored + Seq::<u8>::empty() =~= stored);
            }
        }
        res
    }

    /// The prepared accumulator that `bytes` start with.
    pub fn load(bytes: &[u8]) -> (res: Result<Self, Error>)
        ensures
            prepares(res, PreparedModel::<E>::loaded(bytes@)),
    {
        match <PreparedParts<E> as Canonical>::deserialize_with_mode(bytes, true, true) {
            Ok((parts, _)) => {
                let (
                    alpha,
                    (
                        beta,
                        (
                            beta_g2,
                            (
                                tau_g1_affine,
                                (tau_g2_affine, (alpha_g1_affine, (beta_g1_affine, h_query))),
                            ),
                        ),
                    ),
                ) = parts;
                proof {
                    alpha.lemma_canonical();
                    beta.lemma_canonical();
                    beta_g2.lemma_canonical();
                    lemma_points_value(tau_g1_affine);
                    lemma_points_value(tau_g2_affine);
                    lemma_points_value(alpha_g1_affine);
                    lemma_points_value(beta_g1_affine);
                    lemma_points_value(h_query);
                }
                Ok(
                    PreparedAccumulator {
                        alpha,
                        beta,
                        tau_lagrange_g1: batch_into_projective(&tau_g1_affine),
                        tau_lagrange_g2: batch_into_projective(&tau_g2_affine),
                        alpha_lagrange_g1: batch_into_projective(&alpha_g1_affine),
                        beta_lagrange_g1: batch_into_projective(&beta_g1_affine),
                        beta_g2,
                        h_query,
                    },
                )
            },
            Err(message) => Err(Error::Custom(message)),
        }
    }
}

} // verus!
