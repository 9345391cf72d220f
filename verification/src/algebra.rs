use vstd::arithmetic::div_mod::{lemma_mod_bound, lemma_mul_mod_noop_general, lemma_small_mod};
use vstd::arithmetic::mul::{lemma_mul_is_associative, lemma_mul_is_commutative};
use vstd::prelude::*;

use crate::curve::{
    full_order, in_group, log, multiple, sum, AffineRepr, GroupModel, Pairing, PrimeField,
    ScalarModel,
};

verus! {

/// `a * b` modulo `order`.
pub open spec fn mul_mod(a: nat, b: nat, order: nat) -> nat {
    (a * b) % order
}

pub proof fn lemma_mul_mod(a: nat, b: nat, c: nat, order: nat)
    requires
        order > 0,
    ensures
        mul_mod(a, b, order) == mul_mod(b, a, order),
        mul_mod(mul_mod(a, b, order), c, order) == mul_mod(a, mul_mod(b, c, order), order),
        mul_mod(mul_mod(a, b, order), c, order) == (a * b * c) % order,
        mul_mod(a, b, order) < order,
{
    let m = order as int;
    lemma_mul_is_commutative(a as int, b as int);
    lemma_mul_mod_noop_general((a * b) as int, c as int, m);
    lemma_mul_mod_noop_general(a as int, (b * c) as int, m);
    lemma_mul_is_associative(a as int, b as int, c as int);
    lemma_mod_bound((a * b) as int, m);
}

/// The inverse of `a` modulo `order`, where it has one.
pub open spec fn inverse_mod(a: nat, order: nat) -> nat {
    choose|b: nat| b < order && #[trigger] mul_mod(b, a, order) == 1
}

pub proof fn lemma_inverse_mod(a: nat, b: nat, order: nat)
    requires
        order > 1,
        b < order,
        mul_mod(b, a, order) == 1,
    ensures
        inverse_mod(a, order) == b,
{
    let c = inverse_mod(a, order);
    assert(c < order && mul_mod(c, a, order) == 1);
    // c == c * (a * b) == (c * a) * b == b
    lemma_mul_mod(c, a, b, order);
    lemma_mul_mod(b, a, 1, order);
    lemma_small_mod(c, order);
    lemma_small_mod(b, order);
    assert(c * 1 == c && 1 * b == b);
}

/// Whether `a` has an inverse modulo `order`.
pub open spec fn invertible(a: nat, order: nat) -> bool {
    exists|b: nat| b < order && #[trigger] mul_mod(b, a, order) == 1
}

/// Whether every scalar but zero has an inverse, as it has where the order is a prime.
pub open spec fn prime_order<F: ScalarModel>() -> bool {
    forall|a: nat| 0 < a < F::order() ==> #[trigger] invertible(a, F::order())
}

/// In a group of prime order every scalar but zero has an inverse.
pub proof fn lemma_invertible<F: ScalarModel>(a: nat)
    requires
        prime_order::<F>(),
        0 < a < F::order(),
    ensures
        inverse_mod(a, F::order()) < F::order(),
        mul_mod(inverse_mod(a, F::order()), a, F::order()) == 1,
{
    assert(invertible(a, F::order()));
}

/// What was multiplied by a scalar that has an inverse was the same before.
pub proof fn lemma_cancel<F: ScalarModel>(a: nat, b: nat, c: nat)
    requires
        prime_order::<F>(),
        a < F::order(),
        b < F::order(),
        0 < c < F::order(),
        mul_mod(a, c, F::order()) == mul_mod(b, c, F::order()),
    ensures
        a == b,
{
    let order = F::order();
    let inverse = inverse_mod(c, order);
    lemma_invertible::<F>(c);
    // a == a * (c * inverse) == (a * c) * inverse
    lemma_mul_mod(a, c, inverse, order);
    lemma_mul_mod(b, c, inverse, order);
    lemma_mul_mod(c, inverse, 1, order);
    lemma_small_mod(a, order);
    lemma_small_mod(b, order);
    assert(a * 1 == a && b * 1 == b);
}

/// Whether the generators of both groups of a pairing have the groups' order, and that is a prime.
pub open spec fn full_orders<E: Pairing>() -> bool {
    full_order::<E::G1Affine>() && full_order::<E::G2Affine>() && prime_order::<E::ScalarField>()
}

/// The generators of both groups have the groups' order, and that is a prime.
pub fn have_full_orders<E: Pairing>()
    ensures
        full_orders::<E>(),
{
    let _ = E::G1Affine::generator();
    let _ = E::G2Affine::generator();
    let _ = E::ScalarField::modulus();
}

/// A point of the group is the multiple of the generator that its logarithm names.
pub proof fn lemma_exp_log<A: GroupModel>(p: A)
    requires
        in_group(p),
    ensures
        log(p) < A::ScalarField::order(),
        A::exp(log(p)) == p,
{
}

/// In a group of full order the logarithm of a multiple of the generator is that multiple.
pub proof fn lemma_log_exp<A: GroupModel>(k: nat)
    requires
        full_order::<A>(),
        k < A::ScalarField::order(),
    ensures
        in_group(A::exp(k)),
        log(A::exp(k)) == k,
{
    assert(in_group(A::exp(k)));
    lemma_exp_log(A::exp(k));
}

pub proof fn lemma_sum_in_group<A: GroupModel>(a: A, b: A)
    requires
        in_group(a),
        in_group(b),
    ensures
        in_group(sum(a, b)),
        full_order::<A>() ==> log(sum(a, b)) == (log(a) + log(b)) % A::ScalarField::order(),
{
    lemma_exp_log(a);
    let k = (log(a) + log(b)) % A::ScalarField::order();
    assert(A::exp(k) == sum(a, b));
    if full_order::<A>() {
        lemma_log_exp::<A>(k);
    }
}

pub proof fn lemma_multiple_in_group<A: GroupModel>(a: A, k: nat)
    requires
        in_group(a),
    ensures
        in_group(multiple(a, k)),
        full_order::<A>() ==> log(multiple(a, k)) == mul_mod(
            log(a),
            k,
            A::ScalarField::order(),
        ),
{
    lemma_exp_log(a);
    let m = (log(a) * k) % A::ScalarField::order();
    lemma_mod_bound((log(a) * k) as int, A::ScalarField::order() as int);
    assert(A::exp(m) == multiple(a, k));
    if full_order::<A>() {
        lemma_log_exp::<A>(m);
    }
}

} // verus!
