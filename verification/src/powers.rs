use vstd::arithmetic::div_mod::{
    lemma_mod_bound, lemma_mod_multiples_vanish, lemma_mod_twice, lemma_small_mod,
};
use vstd::arithmetic::power::pow;
use vstd::arithmetic::power2::{lemma_pow2_pos, lemma_pow2_unfold, pow2};
use vstd::prelude::*;

use crate::accumulator::{lemma_pow_nonnegative, power_value, AccumulatorModel, PreparedModel};
use crate::algebra::{full_orders, lemma_log_exp, lemma_multiple_in_group, mul_mod};
use crate::circuit::{other_predicate, predicate_count, Circuit, SparseMatrix};
use crate::curve::{
    all_in_group, difference, domain_root, exps, full_order, ifft, in_group, log, logs, multiple,
    GroupModel, Pairing, ScalarModel,
};
use crate::error::{ErrorModel, SynthesisError};
use crate::laws::{lemma_domain_root, lemma_exps, lemma_logs, lemma_order};
use crate::math::{
    dft, evaluate, inverse_dft, lemma_pow2_is_power, lemma_power_at_least, power_of_two,
};
use crate::qap::{fits_domain, lemma_domain_of, weighted};
use crate::text::decimal_text;
use crate::transcript::TranscriptModel;
use crate::transform::{law_dft_inverts, lemma_evaluate, lemma_same_mul, lemma_total_equal, same};

verus! {

/// Powers before any contribution are as many generators as are asked for.
pub proof fn law_empty_holds_generators<E: Pairing>(g1_powers: nat, g2_powers: nat)
    ensures
        ({
            let accum = AccumulatorModel::<E>::empty(g1_powers, g2_powers);
            &&& accum.tau_powers_g1.len() == g1_powers
            &&& accum.tau_powers_g2.len() == g2_powers
            &&& accum.alpha_tau_powers_g1.len() == g2_powers
            &&& accum.beta_tau_powers_g1.len() == g2_powers
            &&& forall|i: int|
                0 <= i < g1_powers ==> #[trigger] accum.tau_powers_g1[i] == E::G1Affine::exp(1)
            &&& forall|i: int|
                0 <= i < g2_powers ==> #[trigger] accum.tau_powers_g2[i] == E::G2Affine::exp(1)
            &&& forall|i: int|
                0 <= i < g2_powers ==> #[trigger] accum.alpha_tau_powers_g1[i]
                    == E::G1Affine::exp(1)
            &&& forall|i: int|
                0 <= i < g2_powers ==> #[trigger] accum.beta_tau_powers_g1[i] == E::G1Affine::exp(
                    1,
                )
            &&& accum.beta_g2 == E::G2Affine::exp(1)
        }),
{
}

proof fn lemma_power_multiple<A: GroupModel>(point: A, x: nat, i: nat, factor: nat)
    requires
        full_order::<A>(),
        in_group(point),
    ensures
        ({
            let order = A::ScalarField::order();
            let scalar = mul_mod(power_value(x, i, order), factor, order);
            &&& in_group(multiple(point, scalar))
            &&& log(multiple(point, scalar)) == (log(point) * (pow(x as int, i) * factor)) % (
            order as int)
        }),
{
    let order = A::ScalarField::order();
    let m = order as int;
    let p = pow(x as int, i);
    lemma_order::<A>();
    lemma_pow_nonnegative(x, i);
    lemma_mod_bound(p, m);
    let scalar = mul_mod(power_value(x, i, order), factor, order);
    lemma_multiple_in_group(point, scalar);
    lemma_mod_twice(p, m);
    lemma_same_mul(p % m, p, factor as int, factor as int, m);
    lemma_mod_twice((p % m) * factor, m);
    lemma_same_mul(log(point) as int, log(point) as int, scalar as int, p * factor, m);
}

/// A contribution multiplies every power in its group by the same power of `tau`, and those of the
/// products with the other secrets by `alpha` or `beta` as well.
pub proof fn law_contribution_multiplies_powers<E: Pairing>(
    accum: AccumulatorModel<E>,
    tau: nat,
    alpha: nat,
    beta: nat,
)
    requires
        full_orders::<E>(),
        all_in_group(accum.tau_powers_g1) && all_in_group(accum.tau_powers_g2),
        all_in_group(accum.alpha_tau_powers_g1) && all_in_group(accum.beta_tau_powers_g1),
        in_group(accum.beta_g2),
        accum.tau_powers_g2.len() <= accum.tau_powers_g1.len(),
        accum.alpha_tau_powers_g1.len() == accum.tau_powers_g2.len(),
        accum.beta_tau_powers_g1.len() == accum.tau_powers_g2.len(),
        tau < E::ScalarField::order(),
        alpha < E::ScalarField::order(),
        beta < E::ScalarField::order(),
    ensures
        ({
            let after = accum.contributed(tau, alpha, beta);
            let m = E::ScalarField::order() as int;
            &&& after.tau_powers_g1.len() == accum.tau_powers_g1.len()
            &&& after.tau_powers_g2.len() == accum.tau_powers_g2.len()
            &&& after.alpha_tau_powers_g1.len() == accum.alpha_tau_powers_g1.len()
            &&& after.beta_tau_powers_g1.len() == accum.beta_tau_powers_g1.len()
            &&& all_in_group(after.tau_powers_g1) && all_in_group(after.tau_powers_g2)
            &&& all_in_group(after.alpha_tau_powers_g1) && all_in_group(after.beta_tau_powers_g1)
            &&& in_group(after.beta_g2)
            &&& forall|i: int|
                0 <= i < accum.tau_powers_g1.len() ==> log(#[trigger] after.tau_powers_g1[i]) == (
                log(accum.tau_powers_g1[i]) * pow(tau as int, i as nat)) % m
            &&& forall|i: int|
                0 <= i < accum.tau_powers_g2.len() ==> log(#[trigger] after.tau_powers_g2[i]) == (
                log(accum.tau_powers_g2[i]) * pow(tau as int, i as nat)) % m
            &&& forall|i: int|
                0 <= i < accum.alpha_tau_powers_g1.len() ==> log(
                    #[trigger] after.alpha_tau_powers_g1[i],
                ) == (log(accum.alpha_tau_powers_g1[i]) * (pow(tau as int, i as nat) * alpha)) % m
            &&& forall|i: int|
                0 <= i < accum.beta_tau_powers_g1.len() ==> log(
                    #[trigger] after.beta_tau_powers_g1[i],
                ) == (log(accum.beta_tau_powers_g1[i]) * (pow(tau as int, i as nat) * beta)) % m
            &&& log(after.beta_g2) == (log(accum.beta_g2) * beta) % (m as nat)
        }),
{
    let after = accum.contributed(tau, alpha, beta);
    let order = E::ScalarField::order();
    let m = order as int;
    lemma_order::<E::G1Affine>();
    assert forall|i: int| 0 <= i < accum.tau_powers_g1.len() implies in_group(
        #[trigger] after.tau_powers_g1[i],
    ) && log(after.tau_powers_g1[i]) == (log(accum.tau_powers_g1[i]) * pow(tau as int, i as nat))
        % m by {
        lemma_power_multiple(accum.tau_powers_g1[i], tau, i as nat, 1);
        lemma_one_factor(tau, i as nat, order);
    }
    assert forall|i: int| 0 <= i < accum.tau_powers_g2.len() implies in_group(
        #[trigger] after.tau_powers_g2[i],
    ) && log(after.tau_powers_g2[i]) == (log(accum.tau_powers_g2[i]) * pow(tau as int, i as nat))
        % m by {
        lemma_power_multiple(accum.tau_powers_g2[i], tau, i as nat, 1);
        lemma_one_factor(tau, i as nat, order);
    }
    assert forall|i: int| 0 <= i < accum.alpha_tau_powers_g1.len() implies in_group(
        #[trigger] after.alpha_tau_powers_g1[i],
    ) && log(after.alpha_tau_powers_g1[i]) == (log(accum.alpha_tau_powers_g1[i]) * (pow(
        tau as int,
        i as nat,
    ) * alpha)) % m by {
        lemma_power_multiple(accum.alpha_tau_powers_g1[i], tau, i as nat, alpha);
    }
    assert forall|i: int| 0 <= i < accum.beta_tau_powers_g1.len() implies in_group(
        #[trigger] after.beta_tau_powers_g1[i],
    ) && log(after.beta_tau_powers_g1[i]) == (log(accum.beta_tau_powers_g1[i]) * (pow(
        tau as int,
        i as nat,
    ) * beta)) % m by {
        lemma_power_multiple(accum.beta_tau_powers_g1[i], tau, i as nat, beta);
    }
    lemma_multiple_in_group(accum.beta_g2, beta);
}

proof fn lemma_one_factor(x: nat, i: nat, order: nat)
    requires
        order > 0,
    ensures
        mul_mod(power_value(x, i, order), 1, order) == power_value(x, i, order),
        pow(x as int, i) * 1 == pow(x as int, i),
{
    lemma_pow_nonnegative(x, i);
    lemma_mod_bound(pow(x as int, i), order as int);
    lemma_small_mod(power_value(x, i, order), order);
}

/// Whether points are the Lagrange form of others: as the coefficients of a polynomial they give
/// the others for its values at the successive elements of the domain.
pub open spec fn is_lagrange_form<A: GroupModel>(lagrange: Seq<A>, values: Seq<A>, n: nat) -> bool {
    let root = domain_root::<A::ScalarField>(n) as int;
    &&& lagrange.len() == n
    &&& all_in_group(lagrange)
    &&& forall|k: nat|
        k < n ==> same(
            weighted(lagrange, |j: nat| pow(pow(root, k), j), n),
            log(#[trigger] values[k as int]) as int,
            A::ScalarField::order() as int,
        )
}

proof fn lemma_lagrange_form<A: GroupModel>(values: Seq<A>, exponent: nat)
    requires
        full_order::<A>(),
        all_in_group(values),
        exponent <= A::ScalarField::two_adicity(),
        values.len() >= pow2(exponent),
        pow2(exponent) <= usize::MAX,
    ensures
        is_lagrange_form(ifft(values.take(pow2(exponent) as int)), values, pow2(exponent)),
{
    let n = pow2(exponent);
    let order = A::ScalarField::order();
    let m = order as int;
    lemma_order::<A>();
    lemma_pow2_pos(exponent);
    lemma_domain_of(n, exponent, A::ScalarField::two_adicity());
    lemma_domain_root::<A::ScalarField>(n);
    let root = domain_root::<A::ScalarField>(n);
    let first = values.take(n as int);
    lemma_logs(first);
    let own = inverse_dft(logs(first), root, order);
    lemma_exps::<A>(own);
    law_dft_inverts(logs(first), root, order);
    let lagrange = ifft(first);
    assert(lagrange == exps::<A>(own));
    assert forall|k: nat| k < n implies same(
        weighted(lagrange, |j: nat| pow(pow(root as int, k), j), n),
        log(#[trigger] values[k as int]) as int,
        m,
    ) by {
        let z = pow(root as int, k);
        lemma_pow_nonnegative(root, k);
        lemma_evaluate(own, z as nat, n);
        let f = |j: nat| own[j as int] * pow(z as nat as int, j);
        let weight = |j: nat| pow(pow(root as int, k), j);
        let g = |j: nat| log(lagrange[j as int]) * weight(j);
        assert forall|j: nat| j < n implies #[trigger] f(j) == g(j) by {
            assert(logs(lagrange)[j as int] == own[j as int]);
        }
        lemma_total_equal(f, g, n);
        let value = evaluate(own, z as nat, n) as int;
        assert(dft(own, root, order)[k as int] == value % m);
        assert(logs(first)[k as int] == log(values[k as int]));
        lemma_mod_twice(value, m);
    }
}

/// Preparing powers of the groups for so many elements gives, for the domain of those, the Lagrange
/// form of the first powers of all four vectors, the differences of powers that are the domain's
/// size apart, and the secrets themselves. It fails where there are too few powers for the domain.
pub proof fn law_prepared_is_the_lagrange_form<E: Pairing>(
    accum: AccumulatorModel<E>,
    size: nat,
    exponent: nat,
)
    requires
        full_orders::<E>(),
        fits_domain::<E::ScalarField>(size, exponent),
        all_in_group(accum.tau_powers_g1) && all_in_group(accum.tau_powers_g2),
        all_in_group(accum.alpha_tau_powers_g1) && all_in_group(accum.beta_tau_powers_g1),
        accum.alpha_tau_powers_g1.len() == accum.tau_powers_g2.len(),
        accum.beta_tau_powers_g1.len() == accum.tau_powers_g2.len(),
    ensures
        accum.prepared_with_size(size) is Ok <==> accum.tau_powers_g2.len() >= pow2(exponent)
            && accum.tau_powers_g1.len() >= 2 * pow2(exponent) - 1,
        accum.prepared_with_size(size) is Err ==> accum.prepared_with_size(size) == Err::<
            PreparedModel<E>,
            ErrorModel,
        >(ErrorModel::NotEnoughPOTDegree(exponent)),
        accum.prepared_with_size(size) matches Ok(prepared) ==> {
            let n = pow2(exponent);
            let m = E::ScalarField::order() as int;
            &&& is_lagrange_form(prepared.tau_lagrange_g1, accum.tau_powers_g1, n)
            &&& is_lagrange_form(prepared.tau_lagrange_g2, accum.tau_powers_g2, n)
            &&& is_lagrange_form(prepared.alpha_lagrange_g1, accum.alpha_tau_powers_g1, n)
            &&& is_lagrange_form(prepared.beta_lagrange_g1, accum.beta_tau_powers_g1, n)
            &&& prepared.alpha == accum.alpha_tau_powers_g1[0]
            &&& prepared.beta == accum.beta_tau_powers_g1[0]
            &&& prepared.beta_g2 == accum.beta_g2
            &&& prepared.h_query.len() == n - 1
            &&& all_in_group(prepared.h_query)
            &&& forall|k: int|
                0 <= k < n - 1 ==> same(
                    log(#[trigger] prepared.h_query[k]) as int,
                    log(accum.tau_powers_g1[k + n]) - log(accum.tau_powers_g1[k]),
                    m,
                )
        },
{
    let n = pow2(exponent);
    let order = E::ScalarField::order();
    let m = order as int;
    lemma_pow2_pos(exponent);
    lemma_order::<E::G1Affine>();
    lemma_domain_of(size, exponent, E::ScalarField::two_adicity());
    if let Ok(prepared) = accum.prepared_with_size(size) {
        lemma_lagrange_form(accum.tau_powers_g1, exponent);
        lemma_lagrange_form(accum.tau_powers_g2, exponent);
        lemma_lagrange_form(accum.alpha_tau_powers_g1, exponent);
        lemma_lagrange_form(accum.beta_tau_powers_g1, exponent);
        assert forall|k: int| 0 <= k < n - 1 implies in_group(#[trigger] prepared.h_query[k])
            && same(
            log(prepared.h_query[k]) as int,
            log(accum.tau_powers_g1[k + n]) - log(accum.tau_powers_g1[k]),
            m,
        ) by {
            let (a, b) = (accum.tau_powers_g1[k + n], accum.tau_powers_g1[k]);
            let d = log(a) + order - log(b);
            lemma_mod_bound(d, m);
            lemma_log_exp::<E::G1Affine>((d % m) as nat);
            assert(prepared.h_query[k] == difference(a, b));
            lemma_mod_twice(d, m);
            lemma_mod_multiples_vanish(1, log(a) - log(b), m);
        }
    }
}

/// Preparing is preparing for as many elements as there are powers in the second group, where that
/// is a power of two and the lengths of the vectors fit each other, and an error else.
pub proof fn law_prepare_takes_the_second_group<E: Pairing>(
    accum: AccumulatorModel<E>,
    exponent: nat,
)
    ensures
        accum.tau_powers_g2.len() == pow2(exponent) && accum.tau_powers_g1.len() >= pow2(exponent)
            && accum.alpha_tau_powers_g1.len() == pow2(exponent) && accum.beta_tau_powers_g1.len()
            == pow2(exponent) ==> accum.prepared() == accum.prepared_with_size(pow2(exponent)),
        pow2(exponent) < accum.tau_powers_g2.len() < 2 * pow2(exponent) ==> accum.prepared()
            == Err::<PreparedModel<E>, ErrorModel>(ErrorModel::InvalidPOTSize),
        accum.tau_powers_g2.len() != accum.alpha_tau_powers_g1.len() || accum.tau_powers_g2.len()
            != accum.beta_tau_powers_g1.len() || accum.tau_powers_g2.len() == 0 || 2
            * accum.tau_powers_g1.len() - 1 < accum.tau_powers_g2.len() ==> accum.prepared()
            == Err::<PreparedModel<E>, ErrorModel>(ErrorModel::InvalidPOTSize),
{
    let n = pow2(exponent);
    lemma_pow2_pos(exponent);
    lemma_pow2_is_power(exponent);
    if n < accum.tau_powers_g2.len() < 2 * n {
        if power_of_two(accum.tau_powers_g2.len()) {
            lemma_no_power_between(n, accum.tau_powers_g2.len());
        }
    }
}

proof fn lemma_no_power_between(n: nat, other: nat)
    requires
        power_of_two(n),
        n < other < 2 * n,
    ensures
        !power_of_two(other),
    decreases n,
{
    if n > 1 && power_of_two(other) {
        lemma_no_power_between(n / 2, other / 2);
    }
}

/// More elements than the field has roots of unity for have no domain.
pub proof fn law_too_many_have_no_domain<E: Pairing>(accum: AccumulatorModel<E>, size: nat)
    requires
        size > pow2(E::ScalarField::two_adicity()) || size > usize::MAX,
    ensures
        accum.prepared_with_size(size) == Err::<PreparedModel<E>, ErrorModel>(
            ErrorModel::ConstraintSystem(SynthesisError::PolynomialDegreeTooLarge),
        ),
{
    lemma_power_at_least(size);
}

/// How many constraints a circuit has: as many as its first R1CS predicate, where every predicate
/// is R1CS. A circuit without one, and then the first predicate that is none, are errors.
pub proof fn law_constraints_are_counted<F>(circuit: Circuit<F>, at: int)
    requires
        0 <= at < circuit.predicates@.len(),
    ensures
        ({
            let predicates = circuit.predicates@;
            let r1cs = "R1CS"@;
            &&& (forall|i: int| 0 <= i < predicates.len() ==> (#[trigger] predicates[i]).0@ != r1cs)
                ==> circuit.constraint_count() == Err::<usize, ErrorModel>(
                ErrorModel::Custom("missing R1CS predicate"@),
            )
            &&& (forall|i: int| 0 <= i < predicates.len() ==> (#[trigger] predicates[i]).0@ == r1cs)
                ==> circuit.constraint_count() == Ok::<usize, ErrorModel>(predicates[0].1)
            &&& (exists|i: int| 0 <= i < predicates.len() && (#[trigger] predicates[i]).0@ == r1cs)
                && predicates[at].0@ != r1cs && (forall|i: int|
                0 <= i < at ==> (#[trigger] predicates[i]).0@ == r1cs)
                ==> circuit.constraint_count() == Err::<usize, ErrorModel>(
                ErrorModel::Custom(
                    "non-R1CS predicate '"@ + predicates[at].0@ + "' ("@ + decimal_text(
                        predicates[at].1 as nat,
                    ) + " constraints) is not supported"@,
                ),
            )
        }),
{
    let predicates = circuit.predicates@;
    let count = predicates.len();
    lemma_counted(predicates, count);
    if exists|i: int| 0 <= i < count && predicates[i].0@ == "R1CS"@ {
        let i = choose|i: int| 0 <= i < count && predicates[i].0@ == "R1CS"@;
        assert(predicates[i].0@ == "R1CS"@);
        lemma_first_counted(predicates, i, count);
    }
    if predicates[at].0@ != "R1CS"@ && (forall|i: int|
        0 <= i < at ==> predicates[i].0@ == "R1CS"@) {
        lemma_first_other(predicates, at, count);
    }
    if forall|i: int| 0 <= i < count ==> predicates[i].0@ == "R1CS"@ {
        lemma_all_counted(predicates, count);
        assert(other_predicate(predicates, count) is None);
    }
}

proof fn lemma_counted(predicates: Seq<(String, usize)>, count: nat)
    requires
        count <= predicates.len(),
    ensures
        (forall|i: int| 0 <= i < count ==> (#[trigger] predicates[i]).0@ != "R1CS"@)
            ==> predicate_count(predicates, "R1CS"@, count) is None,
        (forall|i: int| 0 <= i < count ==> (#[trigger] predicates[i]).0@ == "R1CS"@)
            ==> other_predicate(predicates, count) is None,
    decreases count,
{
    if count > 0 {
        lemma_counted(predicates, (count - 1) as nat);
    }
}

proof fn lemma_first_counted(predicates: Seq<(String, usize)>, i: int, count: nat)
    requires
        0 <= i < count <= predicates.len(),
        predicates[i].0@ == "R1CS"@,
    ensures
        predicate_count(predicates, "R1CS"@, count) is Some,
    decreases count,
{
    if i + 1 < count {
        lemma_first_counted(predicates, i, (count - 1) as nat);
    }
}

proof fn lemma_all_counted(predicates: Seq<(String, usize)>, count: nat)
    requires
        0 < count <= predicates.len(),
        predicates[0].0@ == "R1CS"@,
    ensures
        predicate_count(predicates, "R1CS"@, count) == Some(predicates[0].1),
    decreases count,
{
    reveal_with_fuel(predicate_count, 2);
    if count > 1 {
        lemma_all_counted(predicates, (count - 1) as nat);
    }
}

proof fn lemma_first_other(predicates: Seq<(String, usize)>, at: int, count: nat)
    requires
        0 <= at < count <= predicates.len(),
        predicates[at].0@ != "R1CS"@,
        forall|i: int| 0 <= i < at ==> (#[trigger] predicates[i]).0@ == "R1CS"@,
    ensures
        other_predicate(predicates, count) == Some(at),
    decreases count,
{
    if at + 1 < count {
        lemma_first_other(predicates, at, (count - 1) as nat);
    } else {
        lemma_counted(predicates, at as nat);
    }
}

/// What a transcript for a circuit fails with, from powers: with the circuit's own error, where the
/// vectors do not fit each other, where there is no domain, where there are too few powers for it,
/// and where the circuit does not come with three matrices.
pub proof fn law_specializing_fails<E: Pairing>(
    accum: AccumulatorModel<E>,
    circuit: Circuit<E::ScalarField>,
    exponent: nat,
)
    requires
        accum.tau_powers_g1.len() > 0,
    ensures
        circuit.constraint_count() matches Err(error) ==> TranscriptModel::from_powers(
            accum,
            circuit,
        ) == Err::<TranscriptModel<E>, ErrorModel>(error),
        circuit.constraint_count() matches Ok(constraints) ==> {
            let elements = (constraints + circuit.instance_variables) as nat;
            let res = TranscriptModel::from_powers(accum, circuit);
            let fits = 2 * accum.tau_powers_g1.len() - 1 >= accum.tau_powers_g2.len()
                && accum.tau_powers_g2.len() == accum.alpha_tau_powers_g1.len()
                && accum.tau_powers_g2.len() == accum.beta_tau_powers_g1.len();
            let enough = accum.tau_powers_g2.len() >= pow2(exponent) && accum.tau_powers_g1.len()
                >= 2 * pow2(exponent) - 1;
            &&& !fits ==> res == Err::<TranscriptModel<E>, ErrorModel>(ErrorModel::InvalidPOTSize)
            &&& fits && (elements > pow2(E::ScalarField::two_adicity()) || elements > usize::MAX)
                ==> res == Err::<TranscriptModel<E>, ErrorModel>(
                ErrorModel::ConstraintSystem(SynthesisError::PolynomialDegreeTooLarge),
            )
            &&& fits && fits_domain::<E::ScalarField>(elements, exponent) && !enough ==> res
                == Err::<TranscriptModel<E>, ErrorModel>(ErrorModel::NotEnoughPOTDegree(exponent))
            &&& fits && fits_domain::<E::ScalarField>(elements, exponent) && enough ==> {
                &&& circuit.matrices matches Err(error) ==> res == Err::<
                    TranscriptModel<E>,
                    ErrorModel,
                >(ErrorModel::ConstraintSystem(error))
                &&& circuit.matrices == Ok::<
                    Option<Vec<SparseMatrix<E::ScalarField>>>,
                    SynthesisError,
                >(None) ==> res == Err::<TranscriptModel<E>, ErrorModel>(
                    ErrorModel::MissingCSMatrices,
                )
                &&& (circuit.matrices matches Ok(Some(matrices)) && matrices@.len() != 3) ==> res
                    == Err::<TranscriptModel<E>, ErrorModel>(
                    ErrorModel::InvariantViolated("unexpected R1CS matrix arity"@),
                )
            }
        },
{
    if let Ok(constraints) = circuit.constraint_count() {
        let elements = (constraints + circuit.instance_variables) as nat;
        lemma_power_at_least(elements);
        if fits_domain::<E::ScalarField>(elements, exponent) {
            lemma_domain_of(elements, exponent, E::ScalarField::two_adicity());
        }
    }
}

/// What a transcript for a circuit fails with, from powers in Lagrange form: with the circuit's own
/// error, where the vectors do not fit each other, where the domain is not the circuit's, and where
/// the circuit does not come with three matrices.
pub proof fn law_specializing_prepared_fails<E: Pairing>(
    accum: PreparedModel<E>,
    circuit: Circuit<E::ScalarField>,
    exponent: nat,
)
    ensures
        circuit.constraint_count() matches Err(error) ==> TranscriptModel::from_prepared(
            accum,
            circuit,
        ) == Err::<TranscriptModel<E>, ErrorModel>(error),
        circuit.constraint_count() matches Ok(constraints) ==> {
            let elements = (constraints + circuit.instance_variables) as nat;
            let res = TranscriptModel::from_prepared(accum, circuit);
            let n = accum.tau_lagrange_g1.len();
            let fits = n == accum.tau_lagrange_g2.len() && n == accum.alpha_lagrange_g1.len() && n
                == accum.beta_lagrange_g1.len() && n - 1 == accum.h_query.len();
            &&& !fits ==> res == Err::<TranscriptModel<E>, ErrorModel>(ErrorModel::InvalidPOTSize)
            &&& fits && fits_domain::<E::ScalarField>(elements, exponent) && n == pow2(exponent)
                ==> {
                &&& circuit.matrices matches Err(error) ==> res == Err::<
                    TranscriptModel<E>,
                    ErrorModel,
                >(ErrorModel::ConstraintSystem(error))
                &&& circuit.matrices == Ok::<
                    Option<Vec<SparseMatrix<E::ScalarField>>>,
                    SynthesisError,
                >(None) ==> res == Err::<TranscriptModel<E>, ErrorModel>(
                    ErrorModel::MissingCSMatrices,
                )
                &&& (circuit.matrices matches Ok(Some(matrices)) && matrices@.len() != 3) ==> res
                    == Err::<TranscriptModel<E>, ErrorModel>(
                    ErrorModel::InvariantViolated("unexpected R1CS matrix arity"@),
                )
            }
            &&& fits && fits_domain::<E::ScalarField>(elements, exponent) && n != pow2(exponent)
                && (circuit.matrices matches Ok(Some(matrices)) && matrices@.len() == 3) ==> res
                == Err::<TranscriptModel<E>, ErrorModel>(ErrorModel::InvalidPOTDegree(exponent))
        },
{
    if let Ok(constraints) = circuit.constraint_count() {
        let elements = (constraints + circuit.instance_variables) as nat;
        if fits_domain::<E::ScalarField>(elements, exponent) {
            lemma_domain_of(elements, exponent, E::ScalarField::two_adicity());
        }
    }
}

/// A contribution multiplies point by point, wherever the points lie: as far as all four vectors
/// reach, and behind the powers of the second group those of the first. What lies between is left
/// as it is.
pub proof fn law_contribution_goes_point_by_point<E: Pairing>(
    accum: AccumulatorModel<E>,
    tau: nat,
    alpha: nat,
    beta: nat,
    i: nat,
)
    ensures
        ({
            let after = accum.contributed(tau, alpha, beta);
            let order = E::ScalarField::order();
            let power = (pow(tau as int, i) % (order as int)) as nat;
            let reached = i < accum.tau_powers_g1.len() && i < accum.tau_powers_g2.len() && i
                < accum.alpha_tau_powers_g1.len() && i < accum.beta_tau_powers_g1.len();
            let at = i as int;
            &&& i < accum.tau_powers_g1.len() ==> after.tau_powers_g1[at] == (if reached || i
                >= accum.tau_powers_g2.len() {
                multiple(accum.tau_powers_g1[at], power)
            } else {
                accum.tau_powers_g1[at]
            })
            &&& i < accum.tau_powers_g2.len() ==> after.tau_powers_g2[at] == (if reached {
                multiple(accum.tau_powers_g2[at], power)
            } else {
                accum.tau_powers_g2[at]
            })
            &&& i < accum.alpha_tau_powers_g1.len() ==> after.alpha_tau_powers_g1[at] == (
            if reached {
                multiple(accum.alpha_tau_powers_g1[at], (power * alpha) % order)
            } else {
                accum.alpha_tau_powers_g1[at]
            })
            &&& i < accum.beta_tau_powers_g1.len() ==> after.beta_tau_powers_g1[at] == (
            if reached {
                multiple(accum.beta_tau_powers_g1[at], (power * beta) % order)
            } else {
                accum.beta_tau_powers_g1[at]
            })
            &&& after.beta_g2 == multiple(accum.beta_g2, beta)
            &&& after.tau_powers_g1.len() == accum.tau_powers_g1.len()
            &&& after.tau_powers_g2.len() == accum.tau_powers_g2.len()
            &&& after.alpha_tau_powers_g1.len() == accum.alpha_tau_powers_g1.len()
            &&& after.beta_tau_powers_g1.len() == accum.beta_tau_powers_g1.len()
        }),
{
}

/// Preparing transforms the four vectors and subtracts point by point, wherever the points lie.
pub proof fn law_preparing_transforms_the_vectors<E: Pairing>(
    accum: AccumulatorModel<E>,
    size: nat,
    exponent: nat,
)
    requires
        fits_domain::<E::ScalarField>(size, exponent),
        accum.tau_powers_g2.len() >= pow2(exponent),
        accum.tau_powers_g1.len() >= 2 * pow2(exponent) - 1,
    ensures
        accum.prepared_with_size(size) matches Ok(prepared) && {
            let n = pow2(exponent) as int;
            &&& prepared.tau_lagrange_g1 == ifft(accum.tau_powers_g1.take(n))
            &&& prepared.tau_lagrange_g2 == ifft(accum.tau_powers_g2.take(n))
            &&& prepared.alpha_lagrange_g1 == ifft(accum.alpha_tau_powers_g1.take(n))
            &&& prepared.beta_lagrange_g1 == ifft(accum.beta_tau_powers_g1.take(n))
            &&& prepared.alpha == accum.alpha_tau_powers_g1[0]
            &&& prepared.beta == accum.beta_tau_powers_g1[0]
            &&& prepared.beta_g2 == accum.beta_g2
            &&& prepared.h_query.len() == n - 1
            &&& forall|k: int|
                0 <= k < n - 1 ==> #[trigger] prepared.h_query[k] == difference(
                    accum.tau_powers_g1[k + n],
                    accum.tau_powers_g1[k],
                )
        },
{
    lemma_pow2_pos(exponent);
    lemma_domain_of(size, exponent, E::ScalarField::two_adicity());
}

/// Powers before any contribution are `2^(degree + 1) - 1` and `2^degree` for a degree of up to 28,
/// and for circuits of so many constraints they are twice the domain and one more, and the domain
/// and one more. A larger degree, and more constraints than a domain has, are errors.
pub proof fn law_empty_powers_follow_the_size<E: Pairing>(degree: nat, size: nat, exponent: nat)
    ensures
        degree <= 28 ==> AccumulatorModel::<E>::empty_of_degree(degree) == Ok::<
            AccumulatorModel<E>,
            ErrorModel,
        >(AccumulatorModel::empty((pow2(degree + 1) - 1) as nat, pow2(degree))),
        degree > 28 ==> AccumulatorModel::<E>::empty_of_degree(degree) == Err::<
            AccumulatorModel<E>,
            ErrorModel,
        >(ErrorModel::ConstraintSystem(SynthesisError::PolynomialDegreeTooLarge)),
        fits_domain::<E::ScalarField>(size, exponent) ==> AccumulatorModel::<
            E,
        >::empty_for_constraints(size) == Ok::<AccumulatorModel<E>, ErrorModel>(
            AccumulatorModel::empty(2 * pow2(exponent) + 1, pow2(exponent) + 1),
        ),
        size > pow2(E::ScalarField::two_adicity()) || size > usize::MAX ==> AccumulatorModel::<
            E,
        >::empty_for_constraints(size) == Err::<AccumulatorModel<E>, ErrorModel>(
            ErrorModel::ConstraintSystem(SynthesisError::PolynomialDegreeTooLarge),
        ),
{
    lemma_pow2_unfold(degree + 1);
    lemma_power_at_least(size);
    if fits_domain::<E::ScalarField>(size, exponent) {
        lemma_domain_of(size, exponent, E::ScalarField::two_adicity());
    }
}

} // verus!
