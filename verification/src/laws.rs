use vstd::arithmetic::div_mod::{
    lemma_add_mod_noop, lemma_div_multiples_vanish, lemma_mod_bound, lemma_mod_multiples_vanish,
    lemma_mod_twice, lemma_mul_mod_noop_general, lemma_small_mod,
};
use vstd::arithmetic::mul::{lemma_mul_is_commutative, lemma_mul_is_distributive_add_other_way};
use vstd::arithmetic::power::{
    lemma1_pow, lemma_pow_adds, lemma_pow_distributes, lemma_pow_mod_noop, lemma_pow_multiplies, pow,
};
use vstd::arithmetic::power2::{
    lemma2_to64, lemma_pow2_adds, lemma_pow2_pos, lemma_pow2_strictly_increases,
    lemma_pow2_unfold, pow2,
};
use vstd::prelude::*;

use crate::accumulator::{lemma_pow_nonnegative, power_value, AccumulatorModel, PreparedModel};
use crate::algebra::{
    full_orders, inverse_mod, lemma_cancel, lemma_exp_log, lemma_inverse_mod, lemma_invertible,
    lemma_log_exp, lemma_mul_mod, lemma_multiple_in_group, lemma_sum_in_group, mul_mod,
};
use crate::canonical::CanonicalModel;
use crate::circuit::{
    column_entries, lemma_column_entries_index, lemma_combination_in_group, SparseMatrix,
};
use crate::curve::{
    all_in_group, difference, domain_root, exps, fft, full_order, ifft, in_group, is_domain_size,
    log, logs, multiple, sum, AffineRepr, GroupModel, Pairing, PrimeField, ScalarModel, Subtract,
};
use crate::error::ErrorModel;
use crate::key::{PartialKeyModel, ProvingKeyModel};
use crate::keypair::PublicKey;
use crate::math::{
    ceil_log2, dft, domain_size, inverse_dft, lemma_domain_size, lemma_power_of_two_fixed,
};
use crate::radix::unprepared;
use crate::ratio::{draws_in_group, generator_log, law_generated_proof_holds, RatioProof};
use crate::transcript::{
    cross_terms, query, query_holds, specialized, transform_verifiable, transform_verified,
    with_dummies, Transcript, TranscriptModel,
};
use crate::transform::{
    law_dft_inverts, lemma_log_of_power, lemma_same_add, lemma_same_mul, lemma_same_pow, same,
};
use crate::utils::{
    lemma_points_value, merge_ratio, merge_scalar, merge_seed_spec, merged, multiples,
};

verus! {

pub proof fn lemma_order<A: GroupModel>()
    ensures
        A::ScalarField::order() > 2,
        in_group(A::exp(0)),
{
    let any = arbitrary::<A::ScalarField>();
    any.lemma_value();
    assert(in_group(A::exp(0)));
}

pub proof fn lemma_merged_in_group<A: AffineRepr>(points: Seq<A>, seed: Seq<u8>, count: nat)
    requires
        all_in_group(points),
        count <= points.len(),
    ensures
        in_group(merged(points, seed, count)),
    decreases count,
{
    if count == 0 {
        lemma_order::<A>();
    } else {
        let last = (count - 1) as nat;
        let scalar = merge_scalar::<A>(seed, last).0.value();
        lemma_merged_in_group(points, seed, last);
        lemma_multiple_in_group(points[last as int], scalar);
        lemma_sum_in_group(merged(points, seed, last), multiple(points[last as int], scalar));
    }
}

/// Points of the group merge to points of the group.
pub proof fn lemma_merge_in_group<A: AffineRepr>(lhs: Seq<A>, rhs: Seq<A>)
    requires
        all_in_group(lhs),
        all_in_group(rhs),
    ensures
        in_group(merge_ratio(lhs, rhs).0),
        in_group(merge_ratio(lhs, rhs).1),
{
    let seed = merge_seed_spec(lhs, rhs);
    lemma_merged_in_group(lhs, seed, lhs.len());
    lemma_merged_in_group(rhs, seed, rhs.len());
}

/// Vectors whose points have one ratio merge to points that have it, whatever the scalars.
pub proof fn law_merge_keeps_ratio<A: AffineRepr>(
    lhs: Seq<A>,
    rhs: Seq<A>,
    seed: Seq<u8>,
    ratio: nat,
    count: nat,
)
    requires
        full_order::<A>(),
        all_in_group(lhs),
        all_in_group(rhs),
        count <= lhs.len() == rhs.len(),
        forall|i: int|
            0 <= i < lhs.len() ==> log(rhs[i]) == mul_mod(
                log(#[trigger] lhs[i]),
                ratio,
                A::ScalarField::order(),
            ),
    ensures
        log(merged(rhs, seed, count)) == mul_mod(
            log(merged(lhs, seed, count)),
            ratio,
            A::ScalarField::order(),
        ),
    decreases count,
{
    let order = A::ScalarField::order();
    lemma_order::<A>();
    if count == 0 {
        lemma_log_exp::<A>(0);
        lemma_small_mod(0, order);
        assert(0 * ratio == 0);
    } else {
        let last = (count - 1) as nat;
        let scalar = merge_scalar::<A>(seed, last).0.value();
        let l = merged(lhs, seed, last);
        let r = merged(rhs, seed, last);
        let p = lhs[last as int];
        let q = rhs[last as int];
        law_merge_keeps_ratio(lhs, rhs, seed, ratio, last);
        lemma_merged_in_group(lhs, seed, last);
        lemma_merged_in_group(rhs, seed, last);
        lemma_multiple_in_group(p, scalar);
        lemma_multiple_in_group(q, scalar);
        lemma_sum_in_group(l, multiple(p, scalar));
        lemma_sum_in_group(r, multiple(q, scalar));
        // log(q) * scalar == (log(p) * scalar) * ratio
        lemma_mul_mod(log(p), ratio, scalar, order);
        lemma_mul_mod(log(p), scalar, ratio, order);
        lemma_mul_mod(scalar, ratio, 1, order);
        let m = order as int;
        let a = log(l) as int;
        let b = mul_mod(log(p), scalar, order) as int;
        let x = ratio as int;
        // ((a + b) % m) * x == a * x + b * x
        lemma_mul_mod_noop_general(a + b, x, m);
        lemma_mul_is_distributive_add_other_way(x, a, b);
        lemma_add_mod_noop(a * x, b * x, m);
    }
}

/// Two vectors that are the same merge to the same, and two empty ones to zero, whatever their
/// points.
pub proof fn law_same_vectors_merge_to_the_same<A: AffineRepr>(lhs: Seq<A>, rhs: Seq<A>)
    ensures
        lhs == rhs ==> merge_ratio(lhs, rhs).0 == merge_ratio(lhs, rhs).1,
        lhs.len() == 0 && rhs.len() == 0 ==> merge_ratio(lhs, rhs) == (A::exp(0), A::exp(0)),
{
}

/// Queries that were divided by what the delta was multiplied by are accepted.
pub proof fn law_query_is_accepted<E: Pairing>(
    next: Seq<E::G1Affine>,
    prev: Seq<E::G1Affine>,
    prev_delta: E::G2Affine,
    next_delta: E::G2Affine,
    delta: nat,
)
    requires
        full_orders::<E>(),
        all_in_group(next),
        all_in_group(prev),
        in_group(prev_delta),
        in_group(next_delta),
        next.len() == prev.len(),
        forall|i: int|
            0 <= i < next.len() ==> log(prev[i]) == mul_mod(
                log(#[trigger] next[i]),
                delta,
                E::ScalarField::order(),
            ),
        log(next_delta) == mul_mod(log(prev_delta), delta, E::ScalarField::order()),
    ensures
        query_holds::<E>(next, prev, prev_delta, next_delta),
{
    let order = E::ScalarField::order();
    lemma_order::<E::G1Affine>();
    let seed = merge_seed_spec(next, prev);
    law_merge_keeps_ratio(next, prev, seed, delta, next.len());
    lemma_merge_in_group(next, prev);
    let n = log(merge_ratio(next, prev).0);
    // n * (d * delta) == (n * delta) * d
    lemma_mul_mod(log(prev_delta), delta, 1, order);
    lemma_mul_mod(n, delta, log(prev_delta), order);
}

/// A transcript that nothing but contributions made what it is, is accepted.
pub proof fn law_honest_is_accepted<E: Pairing>(transcript: TranscriptModel<E>)
    requires
        full_orders::<E>(),
        transcript.honest(),
    ensures
        transcript.verifiable(),
        transcript.verified() is Ok,
{
    let order = E::ScalarField::order();
    let delta = choose|delta: nat| transcript.honest_by(delta);
    let count = transcript.contributions.len() as int;
    lemma_order::<E::G1Affine>();
    generator_log::<E>();
    assert forall|i: int| 0 <= i < transcript.contributions.len() implies #[trigger]
        transcript.link_holds(i) by {
        assert(transcript.link_is_honest(i));
        let prev = log(transcript.previous_delta(i));
        let own = log(transcript.contributions[i].proof.point);
        let next = transcript.contributions[i].delta_g2;
        lemma_mul_mod(prev, own, 1, order);
        lemma_small_mod(log(next), order);
        assert(1 * log(next) == log(next));
    }
    let initial = transcript.initial_key;
    let key = transcript.key;
    assert forall|i: int| 0 <= i < transcript.contributions.len() implies #[trigger]
        transcript.link_comparable(i) by {
        assert(in_group(transcript.contributions[i].delta_g2));
        if i > 0 {
            assert(in_group(transcript.contributions[i - 1].delta_g2));
        }
    }
    lemma_merge_in_group(key.h_query, initial.h_query);
    lemma_merge_in_group(key.l_query, initial.l_query);
    // d1 * (d2 * delta) == (d1 * delta) * d2
    lemma_mul_mod(log(initial.delta_g2), delta, 1, order);
    lemma_mul_mod(log(initial.delta_g1), delta, log(initial.delta_g2), order);
    law_query_is_accepted::<E>(
        key.h_query,
        initial.h_query,
        initial.delta_g2,
        key.vk.delta_g2,
        delta,
    );
    law_query_is_accepted::<E>(
        key.l_query,
        initial.l_query,
        initial.delta_g2,
        key.vk.delta_g2,
        delta,
    );
}

proof fn lemma_multiples_in_group<A: AffineRepr>(points: Seq<A>, k: nat)
    requires
        all_in_group(points),
        full_order::<A>(),
    ensures
        all_in_group(multiples(points, k)),
        multiples(points, k).len() == points.len(),
        forall|i: int|
            0 <= i < points.len() ==> log(#[trigger] multiples(points, k)[i]) == mul_mod(
                log(points[i]),
                k,
                A::ScalarField::order(),
            ),
{
    assert forall|i: int| 0 <= i < points.len() implies in_group(
        #[trigger] multiples(points, k)[i],
    ) && log(multiples(points, k)[i]) == mul_mod(log(points[i]), k, A::ScalarField::order()) by {
        lemma_multiple_in_group(points[i], k);
    }
}

/// A contribution keeps a partial key's points in their groups.
pub proof fn law_contribution_stays_in_groups<E: Pairing>(key: PartialKeyModel<E>, delta: nat)
    requires
        full_orders::<E>(),
        key.in_groups(),
    ensures
        key.contributed(delta).in_groups(),
{
    let inverse = inverse_mod(delta, E::ScalarField::order());
    lemma_multiple_in_group(key.delta_g1, delta);
    lemma_multiple_in_group(key.delta_g2, delta);
    lemma_multiples_in_group(key.h_query, inverse);
    lemma_multiples_in_group(key.l_query, inverse);
}

/// Points divided by `delta` have to what they were the ratio `delta`, and the ratio that they had
/// to something else changes by the same.
proof fn lemma_divided_query<A: AffineRepr>(
    query: Seq<A>,
    initial: Seq<A>,
    product: nat,
    delta: nat,
)
    requires
        full_order::<A>(),
        all_in_group(query),
        query.len() == initial.len(),
        mul_mod(
            inverse_mod(delta, A::ScalarField::order()),
            delta,
            A::ScalarField::order(),
        ) == 1,
        forall|i: int|
            0 <= i < query.len() ==> log(initial[i]) == mul_mod(
                log(#[trigger] query[i]),
                product,
                A::ScalarField::order(),
            ),
    ensures
        forall|i: int|
            0 <= i < query.len() ==> log(initial[i]) == mul_mod(
                log(
                    #[trigger] multiples(
                        query,
                        inverse_mod(delta, A::ScalarField::order()),
                    )[i],
                ),
                mul_mod(product, delta, A::ScalarField::order()),
                A::ScalarField::order(),
            ),
{
    let order = A::ScalarField::order();
    let inverse = inverse_mod(delta, order);
    lemma_order::<A>();
    lemma_multiples_in_group(query, inverse);
    assert forall|i: int| 0 <= i < query.len() implies log(initial[i]) == mul_mod(
        log(#[trigger] multiples(query, inverse)[i]),
        mul_mod(product, delta, order),
        order,
    ) by {
        let h = log(query[i]);
        // (h * inverse) * (product * delta) == (h * product) * (inverse * delta)
        let u = mul_mod(h, inverse, order);
        lemma_mul_mod(product, delta, 1, order);
        lemma_mul_mod(u, delta, product, order);
        lemma_mul_mod(h, inverse, delta, order);
        lemma_mul_mod(delta, product, 1, order);
        lemma_exp_log(query[i]);
        lemma_small_mod(h, order);
        assert(h * 1 == h);
        assert(mul_mod(u, delta, order) == h);
    }
}

/// A contribution to a transcript that nothing but contributions made what it is, makes another.
pub proof fn law_contribution_stays_honest<E: Pairing>(
    transcript: TranscriptModel<E>,
    delta: nat,
    eth_address: [u8; 20],
    eth_signature: [u8; 65],
)
    requires
        full_orders::<E>(),
        transcript.honest(),
        0 < delta < E::ScalarField::order(),
        draws_in_group::<E>(
            transcript.key.partial().challenge(),
            multiple(E::G1Affine::exp(1), delta),
        ),
    ensures
        transcript.contributed(delta, eth_address, eth_signature).honest(),
{
    let order = E::ScalarField::order();
    lemma_order::<E::G1Affine>();
    lemma_invertible::<E::ScalarField>(delta);
    let product = choose|product: nat| transcript.honest_by(product);
    let after = transcript.contributed(delta, eth_address, eth_signature);
    let partial = transcript.key.partial();
    let next = partial.contributed(delta);
    let total = mul_mod(product, delta, order);
    let count = transcript.contributions.len() as int;
    law_generated_proof_holds::<E>(delta, partial.challenge());
    law_contribution_stays_in_groups(partial, delta);
    lemma_multiple_in_group(partial.delta_g1, delta);
    lemma_multiple_in_group(partial.delta_g2, delta);
    lemma_mul_mod(log(transcript.initial_key.delta_g1), product, delta, order);
    lemma_mul_mod(log(transcript.initial_key.delta_g2), product, delta, order);
    lemma_divided_query(
        transcript.key.h_query,
        transcript.initial_key.h_query,
        product,
        delta,
    );
    lemma_divided_query(
        transcript.key.l_query,
        transcript.initial_key.l_query,
        product,
        delta,
    );
    assert(after.key.partial() == next);
    assert forall|i: int| 0 <= i < after.contributions.len() implies in_group(
        (#[trigger] after.contributions[i]).delta_g2,
    ) && after.contributions[i].proof.in_groups() by {
        if i < count {
            assert(after.contributions[i] == transcript.contributions[i]);
        }
    }
    assert forall|i: int| 0 <= i < after.contributions.len() implies #[trigger]
        after.link_is_honest(i) by {
        if i < count {
            assert(transcript.link_is_honest(i));
            assert(after.previous_delta(i) == transcript.previous_delta(i));
            assert(after.previous_challenge(i) == transcript.previous_challenge(i));
        } else {
            assert(after.previous_delta(count) == transcript.previous_delta(count));
            assert(after.previous_challenge(count) == transcript.previous_challenge(count));
            // The proof's point is the generator times delta.
            generator_log::<E>();
            lemma_multiple_in_group(E::G1Affine::exp(1), delta);
            lemma_small_mod(delta, order);
            assert(1 * delta == delta);
        }
    }
    assert(after.honest_by(total));
}

/// A contribution keeps all points of a transcript in their groups.
pub proof fn law_transcript_stays_in_groups<E: Pairing>(
    transcript: TranscriptModel<E>,
    delta: nat,
    eth_address: [u8; 20],
    eth_signature: [u8; 65],
)
    requires
        full_orders::<E>(),
        transcript.all_in_groups(),
        RatioProof::<E>::generated(delta, transcript.key.partial().challenge()).in_groups(),
    ensures
        transcript.contributed(delta, eth_address, eth_signature).all_in_groups(),
{
    let partial = transcript.key.partial();
    let after = transcript.contributed(delta, eth_address, eth_signature);
    law_contribution_stays_in_groups(partial, delta);
    assert(after.key.partial() == partial.contributed(delta));
    assert forall|i: int| 0 <= i < after.contributions.len() implies (
    #[trigger] after.contributions[i]).in_groups() by {
        if i < transcript.contributions.len() {
            assert(after.contributions[i] == transcript.contributions[i]);
        }
    }
}

/// What is written of a transcript can be read back where its points lie in their groups.
pub proof fn law_transcript_is_valid<E: Pairing>(transcript: Transcript<E>)
    ensures
        <Transcript<E> as CanonicalModel>::valid(transcript.value_of())
            == transcript@.all_in_groups(),
{
    let key = transcript.key.key;
    key.vk.alpha_g1.lemma_canonical();
    key.vk.beta_g2.lemma_canonical();
    key.vk.gamma_g2.lemma_canonical();
    key.vk.delta_g2.lemma_canonical();
    key.beta_g1.lemma_canonical();
    key.delta_g1.lemma_canonical();
    lemma_points_value(key.vk.gamma_abc_g1);
    lemma_points_value(key.a_query);
    lemma_points_value(key.b_g1_query);
    lemma_points_value(key.b_g2_query);
    lemma_points_value(key.h_query);
    lemma_points_value(key.l_query);
    transcript.initial_key.delta_g1.lemma_canonical();
    transcript.initial_key.delta_g2.lemma_canonical();
    lemma_points_value(transcript.initial_key.h_query);
    lemma_points_value(transcript.initial_key.l_query);
    let contributions = transcript.contributions;
    assert forall|i: int| 0 <= i < contributions@.len() implies
        <PublicKey<E> as CanonicalModel>::valid(#[trigger] contributions.value_of()[i])
        == contributions@[i].in_groups() by {
        let own = contributions@[i];
        own.delta_g1.lemma_canonical();
        own.delta_g2.lemma_canonical();
        own.proof.point.lemma_canonical();
        own.proof.matching_point.lemma_canonical();
    }
    if transcript@.all_in_groups() {
        assert forall|i: int| 0 <= i < contributions@.len() implies
            <PublicKey<E> as CanonicalModel>::valid(#[trigger] contributions.value_of()[i]) by {
            assert(transcript@.contributions[i].in_groups());
        }
    }
    if <Transcript<E> as CanonicalModel>::valid(transcript.value_of()) {
        assert forall|i: int| 0 <= i < contributions@.len() implies (
        #[trigger] transcript@.contributions[i]).in_groups() by {
            assert(<PublicKey<E> as CanonicalModel>::valid(contributions.value_of()[i]));
        }
    }
}

/// What a contribution makes of a partial key is accepted with the contribution's proof.
pub proof fn law_contribution_transforms<E: Pairing>(key: PartialKeyModel<E>, delta: nat)
    requires
        full_orders::<E>(),
        key.in_groups(),
        0 < delta < E::ScalarField::order(),
        draws_in_group::<E>(key.challenge(), multiple(E::G1Affine::exp(1), delta)),
    ensures
        transform_verifiable(
            key,
            key.contributed(delta),
            RatioProof::<E>::generated(delta, key.challenge()),
        ),
        transform_verified(
            key,
            key.contributed(delta),
            RatioProof::<E>::generated(delta, key.challenge()),
        ) is Ok,
{
    let order = E::ScalarField::order();
    lemma_order::<E::G1Affine>();
    lemma_invertible::<E::ScalarField>(delta);
    let next = key.contributed(delta);
    let made = RatioProof::<E>::generated(delta, key.challenge());
    generator_log::<E>();
    law_generated_proof_holds::<E>(delta, key.challenge());
    law_contribution_stays_in_groups(key, delta);
    lemma_multiple_in_group(E::G1Affine::exp(1), delta);
    lemma_multiple_in_group(key.delta_g1, delta);
    lemma_multiple_in_group(key.delta_g2, delta);
    lemma_small_mod(delta, order);
    assert(1 * delta == delta);
    let (d1, d2) = (log(key.delta_g1), log(key.delta_g2));
    lemma_mul_mod(d2, delta, 1, order);
    lemma_small_mod(log(next.delta_g2), order);
    assert(1 * log(next.delta_g2) == log(next.delta_g2));
    lemma_mul_mod(d1, delta, d2, order);
    lemma_divided_alone(key.h_query, delta);
    lemma_divided_alone(key.l_query, delta);
    lemma_merge_in_group(next.h_query, key.h_query);
    lemma_merge_in_group(next.l_query, key.l_query);
    law_query_is_accepted::<E>(next.h_query, key.h_query, key.delta_g2, next.delta_g2, delta);
    law_query_is_accepted::<E>(next.l_query, key.l_query, key.delta_g2, next.delta_g2, delta);
}

/// What a contribution makes of a partial key is refused with the contribution's proof the other
/// way round, and so is the key that it was, unless the scalar is its own inverse.
pub proof fn law_other_deltas_are_refused<E: Pairing>(key: PartialKeyModel<E>, delta: nat)
    requires
        full_orders::<E>(),
        key.in_groups(),
        key.delta_g2 != E::G2Affine::exp(0),
        0 < delta < E::ScalarField::order(),
        mul_mod(delta, delta, E::ScalarField::order()) != 1,
        RatioProof::<E>::generated(delta, key.challenge()).in_groups(),
    ensures
        ({
            let next = key.contributed(delta);
            let made = RatioProof::<E>::generated(delta, key.challenge());
            &&& transform_verifiable(next, key, made)
            &&& transform_verified(next, key, made) == Err::<(), ErrorModel>(
                ErrorModel::InvalidRatioProof,
            )
            &&& transform_verifiable(key, key, made)
            &&& transform_verified(key, key, made) == Err::<(), ErrorModel>(
                ErrorModel::InvalidRatioProof,
            )
        }),
{
    let order = E::ScalarField::order();
    lemma_order::<E::G1Affine>();
    let next = key.contributed(delta);
    let d = log(key.delta_g2);
    lemma_exp_log(key.delta_g2);
    law_contribution_stays_in_groups(key, delta);
    generator_log::<E>();
    lemma_multiple_in_group(E::G1Affine::exp(1), delta);
    lemma_multiple_in_group(key.delta_g2, delta);
    lemma_small_mod(delta, order);
    lemma_small_mod(d, order);
    assert(1 * delta == delta && 1 * d == d);
    lemma_small_mod(1, order);
    assert(1 * 1 == 1);
    // Both refuse d == delta^2 d and d == delta d.
    if d == mul_mod(delta, mul_mod(d, delta, order), order) {
        lemma_mul_mod(delta, delta, d, order);
        lemma_mul_mod(d, delta, 1, order);
        lemma_cancel::<E::ScalarField>(1, mul_mod(delta, delta, order), d);
    }
    if d == mul_mod(delta, d, order) {
        lemma_cancel::<E::ScalarField>(1, delta, d);
    }
}

/// What a contribution makes of a partial key is refused where one of the queries stays what it
/// was, and does not merge to zero with itself.
pub proof fn law_unchanged_queries_are_refused<E: Pairing>(key: PartialKeyModel<E>, delta: nat)
    requires
        full_orders::<E>(),
        key.in_groups(),
        key.delta_g2 != E::G2Affine::exp(0),
        1 < delta < E::ScalarField::order(),
        draws_in_group::<E>(key.challenge(), multiple(E::G1Affine::exp(1), delta)),
    ensures
        ({
            let next = key.contributed(delta);
            let made = RatioProof::<E>::generated(delta, key.challenge());
            let h = PartialKeyModel { h_query: key.h_query, ..next };
            let l = PartialKeyModel { l_query: key.l_query, ..next };
            &&& transform_verifiable(key, h, made)
            &&& merge_ratio(key.h_query, key.h_query).0 != E::G1Affine::exp(0)
                ==> transform_verified(key, h, made) == Err::<(), ErrorModel>(
                ErrorModel::InconsistentHChange,
            )
            &&& transform_verifiable(key, l, made)
            &&& merge_ratio(key.l_query, key.l_query).0 != E::G1Affine::exp(0)
                ==> transform_verified(key, l, made) == Err::<(), ErrorModel>(
                ErrorModel::InconsistentLChange,
            )
        }),
{
    let next = key.contributed(delta);
    lemma_order::<E::G1Affine>();
    law_contribution_transforms(key, delta);
    law_contribution_stays_in_groups(key, delta);
    lemma_merge_in_group(key.h_query, key.h_query);
    lemma_merge_in_group(key.l_query, key.l_query);
    lemma_merge_in_group(next.l_query, key.l_query);
    lemma_merge_in_group(next.h_query, key.h_query);
    lemma_unchanged_query::<E>(key.h_query, key.delta_g2, delta);
    lemma_unchanged_query::<E>(key.l_query, key.delta_g2, delta);
}

proof fn lemma_unchanged_query<E: Pairing>(
    query: Seq<E::G1Affine>,
    prev_delta: E::G2Affine,
    delta: nat,
)
    requires
        full_orders::<E>(),
        all_in_group(query),
        in_group(prev_delta),
        prev_delta != E::G2Affine::exp(0),
        1 < delta < E::ScalarField::order(),
    ensures
        merge_ratio(query, query).0 != E::G1Affine::exp(0) ==> !query_holds::<E>(
            query,
            query,
            prev_delta,
            multiple(prev_delta, delta),
        ),
{
    let order = E::ScalarField::order();
    let m = merge_ratio(query, query).0;
    let d = log(prev_delta);
    lemma_merge_in_group(query, query);
    lemma_multiple_in_group(prev_delta, delta);
    lemma_exp_log(m);
    lemma_exp_log(prev_delta);
    let changed = mul_mod(d, delta, order);
    lemma_mul_mod(d, delta, 1, order);
    if m != E::G1Affine::exp(0) && mul_mod(log(m), changed, order) == mul_mod(
        log(m),
        d,
        order,
    ) {
        // m (d delta) == m d, so d delta == d, so delta == 1.
        lemma_mul_mod(log(m), changed, 1, order);
        lemma_mul_mod(log(m), d, 1, order);
        lemma_cancel::<E::ScalarField>(changed, d, log(m));
        lemma_small_mod(d, order);
        assert(1 * d == d);
        lemma_mul_mod(d, delta, 1, order);
        lemma_cancel::<E::ScalarField>(delta, 1, d);
    }
}

proof fn lemma_divided_alone<A: AffineRepr>(query: Seq<A>, delta: nat)
    requires
        full_order::<A>(),
        all_in_group(query),
        mul_mod(
            inverse_mod(delta, A::ScalarField::order()),
            delta,
            A::ScalarField::order(),
        ) == 1,
    ensures
        ({
            let divided = multiples(query, inverse_mod(delta, A::ScalarField::order()));
            forall|i: int|
                0 <= i < divided.len() ==> log(query[i]) == mul_mod(
                    log(#[trigger] divided[i]),
                    delta,
                    A::ScalarField::order(),
                )
        }),
{
    let order = A::ScalarField::order();
    let inverse = inverse_mod(delta, order);
    lemma_order::<A>();
    lemma_multiples_in_group(query, inverse);
    assert forall|i: int| 0 <= i < query.len() implies log(query[i]) == mul_mod(
        log(#[trigger] multiples(query, inverse)[i]),
        delta,
        order,
    ) by {
        let h = log(query[i]);
        lemma_exp_log(query[i]);
        lemma_mul_mod(h, inverse, delta, order);
        lemma_small_mod(h, order);
        assert(h * 1 == h);
    }
}

/// The transcript of a key before any contribution is one that nothing but contributions made
/// what it is.
pub proof fn law_fresh_is_honest<E: Pairing>(key: ProvingKeyModel<E>)
    requires
        key.partial().in_groups(),
    ensures
        TranscriptModel::fresh(key).honest(),
{
    let order = E::ScalarField::order();
    lemma_order::<E::G1Affine>();
    let fresh = TranscriptModel::fresh(key);
    assert forall|a: nat| a < order implies #[trigger] mul_mod(a, 1, order) == a by {
        lemma_small_mod(a, order);
        assert(a * 1 == a);
    }
    lemma_exp_log(key.delta_g1);
    lemma_exp_log(key.vk.delta_g2);
    assert forall|i: int| 0 <= i < key.h_query.len() implies log(fresh.initial_key.h_query[i])
        == mul_mod(log(#[trigger] key.h_query[i]), 1, order) by {
        lemma_exp_log(key.h_query[i]);
    }
    assert forall|i: int| 0 <= i < key.l_query.len() implies log(fresh.initial_key.l_query[i])
        == mul_mod(log(#[trigger] key.l_query[i]), 1, order) by {
        lemma_exp_log(key.l_query[i]);
    }
    assert(fresh.honest_by(1));
}

pub proof fn lemma_exps_in_group<A: GroupModel>(multiples: Seq<nat>)
    requires
        forall|i: int|
            0 <= i < multiples.len() ==> #[trigger] multiples[i] < A::ScalarField::order(),
    ensures
        all_in_group(exps::<A>(multiples)),
{
    assert forall|i: int| 0 <= i < multiples.len() implies in_group(
        #[trigger] exps::<A>(multiples)[i],
    ) by {
        assert(exps::<A>(multiples)[i] == A::exp(multiples[i]));
    }
}

/// The Lagrange form of points of the group lies in the group.
pub proof fn lemma_ifft_in_group<A: GroupModel>(values: Seq<A>)
    requires
        all_in_group(values),
    ensures
        all_in_group(ifft(values)),
        ifft(values).len() == values.len(),
{
    let order = A::ScalarField::order();
    lemma_order::<A>();
    let root = domain_root::<A::ScalarField>(values.len());
    let coefficients = inverse_dft(logs(values), root, order);
    lemma_exps_in_group::<A>(coefficients);
}

/// Preparing powers that lie in their groups gives points that lie in their groups.
pub proof fn law_prepare_stays_in_groups<E: Pairing>(accum: AccumulatorModel<E>, size: nat)
    requires
        accum.in_groups(),
        accum.preparable(size),
    ensures
        accum.prepared_with_size(size) matches Ok(prepared) ==> prepared.in_groups(),
{
    if let Some(actual) = domain_size(size, E::ScalarField::two_adicity()) {
        if accum.suffices(actual) {
            lemma_domain_size(size, E::ScalarField::two_adicity());
            lemma_ifft_in_group(accum.tau_powers_g1.take(actual as int));
            lemma_ifft_in_group(accum.tau_powers_g2.take(actual as int));
            lemma_ifft_in_group(accum.alpha_tau_powers_g1.take(actual as int));
            lemma_ifft_in_group(accum.beta_tau_powers_g1.take(actual as int));
            let prepared = accum.lagrange(actual);
            lemma_order::<E::G1Affine>();
            assert forall|i: int| 0 <= i < prepared.h_query.len() implies in_group(
                #[trigger] prepared.h_query[i],
            ) by {
                let a = accum.tau_powers_g1[i + actual];
                let b = accum.tau_powers_g1[i];
                let order = E::ScalarField::order();
                lemma_mod_bound(log(a) + order - log(b), order as int);
                assert(in_group(
                    E::G1Affine::exp(((log(a) + order - log(b)) % (order as int)) as nat),
                ));
            }
        }
    }
}

pub proof fn lemma_query_in_group<A: GroupModel>(
    matrix: Seq<Vec<(A::ScalarField, usize)>>,
    bases: Seq<A>,
    variables: nat,
)
    requires
        all_in_group(bases),
        matrix.len() <= bases.len() <= usize::MAX,
    ensures
        all_in_group(query(matrix, bases, variables)),
{
    assert forall|i: int| 0 <= i < variables implies in_group(
        #[trigger] query(matrix, bases, variables)[i],
    ) by {
        lemma_column_entries_index(matrix, i as usize, matrix.len());
        let entries = column_entries(matrix, i as usize, matrix.len());
        lemma_combination_in_group(bases, entries, entries.len());
    }
}

/// The key for a circuit has its points in their groups if the powers lie in theirs.
pub proof fn lemma_specialized_in_groups<E: Pairing>(
    accum: PreparedModel<E>,
    matrices: Seq<SparseMatrix<E::ScalarField>>,
    constraints: nat,
    instance_variables: nat,
    variables: nat,
)
    requires
        accum.in_groups(),
        accum.valid_lengths(),
        matrices.len() == 3,
        forall|m: int| 0 <= m < 3 ==> (#[trigger] matrices[m])@.len() == constraints,
        constraints + instance_variables <= accum.tau_lagrange_g1.len() <= usize::MAX,
        instance_variables <= variables,
    ensures
        specialized(
            accum,
            matrices,
            constraints,
            instance_variables,
            variables,
        ).in_groups(),
{
    lemma_order::<E::G1Affine>();
    lemma_order::<E::G2Affine>();
    assert(in_group(E::G1Affine::exp(1)));
    assert(in_group(E::G2Affine::exp(1)));
    let a = query(matrices[0]@, accum.beta_lagrange_g1, variables);
    let b = query(matrices[1]@, accum.alpha_lagrange_g1, variables);
    let c = query(matrices[2]@, accum.tau_lagrange_g1, variables);
    lemma_query_in_group(matrices[0]@, accum.beta_lagrange_g1, variables);
    lemma_query_in_group(matrices[1]@, accum.alpha_lagrange_g1, variables);
    lemma_query_in_group(matrices[2]@, accum.tau_lagrange_g1, variables);
    let a_query = query(matrices[0]@, accum.tau_lagrange_g1, variables);
    lemma_query_in_group(matrices[0]@, accum.tau_lagrange_g1, variables);
    lemma_query_in_group(matrices[1]@, accum.tau_lagrange_g1, variables);
    lemma_query_in_group(matrices[1]@, accum.tau_lagrange_g2, variables);
    assert forall|i: int| 0 <= i < a_query.len() implies in_group(
        #[trigger] with_dummies(
            a_query,
            accum.tau_lagrange_g1,
            constraints,
            instance_variables,
        )[i],
    ) by {
        if i < instance_variables {
            lemma_sum_in_group(a_query[i], accum.tau_lagrange_g1[constraints + i]);
        }
    }
    let ext = cross_terms(accum, matrices, constraints, instance_variables, variables);
    assert forall|i: int| 0 <= i < ext.len() implies in_group(#[trigger] ext[i]) by {
        lemma_sum_in_group(a[i], b[i]);
        lemma_sum_in_group(sum(a[i], b[i]), c[i]);
        if i < instance_variables {
            lemma_sum_in_group(
                sum(sum(a[i], b[i]), c[i]),
                accum.beta_lagrange_g1[constraints + i],
            );
        }
    }
}

/// The generator of a domain, to the power of half the domain's size, is -1.
pub proof fn lemma_domain_root<F: PrimeField>(size: nat)
    requires
        is_domain_size::<F>(size),
    ensures
        F::order() > 2,
        F::order() % 2 == 1,
        size > 1 ==> same(pow(domain_root::<F>(size) as int, size / 2), -1, F::order() as int),
        size == 1 ==> same(domain_root::<F>(size) as int, 1, F::order() as int),
{
    let any = arbitrary::<F>();
    any.lemma_value();
    F::lemma_root_of_unity();
    let m = F::order() as int;
    let root = F::root_of_unity();
    let adicity = F::two_adicity();
    let c = ceil_log2(size);
    lemma_log_of_power(size);
    lemma_power_of_two_fixed(size);
    assert(pow2(c) <= pow2(adicity));
    if c > adicity {
        lemma_pow2_strictly_increases(adicity, c);
    }
    let rest = (adicity - c) as nat;
    lemma_pow2_adds(rest, c);
    lemma_pow2_pos(c);
    lemma_div_multiples_vanish(pow2(rest) as int, pow2(c) as int);
    lemma_mul_is_commutative(pow2(rest) as int, pow2(c) as int);
    assert(pow2(adicity) / size == pow2(rest));
    let power = pow(root as int, pow2(rest));
    lemma_pow_nonnegative(root, pow2(rest));
    let own = domain_root::<F>(size) as int;
    assert(own == power % m);
    lemma_mod_twice(power, m);
    let half = pow(root as int, pow2((adicity - 1) as nat));
    lemma_mod_multiples_vanish(1, -1, m);
    lemma_small_mod((m - 1) as nat, m as nat);
    assert(same(half, -1, m));
    lemma2_to64();
    if size > 1 {
        lemma_same_pow(own, power, size / 2, m);
        lemma_pow_multiplies(root as int, pow2(rest), size / 2);
        lemma_pow2_unfold(c);
        lemma_pow2_adds(rest, (c - 1) as nat);
        assert(size / 2 == pow2((c - 1) as nat));
    } else {
        assert(c == 0);
        lemma_pow2_unfold(adicity);
        lemma_pow_adds(
            root as int,
            pow2((adicity - 1) as nat),
            pow2((adicity - 1) as nat),
        );
        lemma_same_mul(half, -1, half, -1, m);
    }
}

pub proof fn lemma_logs<A: GroupModel>(points: Seq<A>)
    requires
        all_in_group(points),
    ensures
        exps::<A>(logs(points)) == points,
        forall|i: int|
            0 <= i < points.len() ==> #[trigger] logs(points)[i] < A::ScalarField::order(),
{
    assert forall|i: int| 0 <= i < points.len() implies #[trigger] logs(points)[i]
        < A::ScalarField::order() && exps::<A>(logs(points))[i] == points[i] by {
        lemma_exp_log(points[i]);
    }
    assert(exps::<A>(logs(points)) =~= points);
}

pub proof fn lemma_exps<A: GroupModel>(multiples: Seq<nat>)
    requires
        full_order::<A>(),
        forall|i: int|
            0 <= i < multiples.len() ==> #[trigger] multiples[i] < A::ScalarField::order(),
    ensures
        all_in_group(exps::<A>(multiples)),
        logs(exps::<A>(multiples)) == multiples,
{
    lemma_exps_in_group::<A>(multiples);
    assert forall|i: int| 0 <= i < multiples.len() implies #[trigger] logs(
        exps::<A>(multiples),
    )[i] == multiples[i] by {
        lemma_log_exp::<A>(multiples[i]);
    }
    assert(logs(exps::<A>(multiples)) =~= multiples);
}

/// Taking points of the group into Lagrange form and out of it undo each other.
pub proof fn law_fft_inverts<A: GroupModel>(points: Seq<A>)
    requires
        full_order::<A>(),
        all_in_group(points),
        is_domain_size::<A::ScalarField>(points.len()),
    ensures
        fft(ifft(points)) == points,
        ifft(fft(points)) == points,
{
    let order = A::ScalarField::order();
    let root = domain_root::<A::ScalarField>(points.len());
    lemma_order::<A>();
    lemma_domain_root::<A::ScalarField>(points.len());
    lemma_logs(points);
    let values = logs(points);
    law_dft_inverts(values, root, order);
    let coefficients = inverse_dft(values, root, order);
    let evaluations = dft(values, root, order);
    lemma_exps::<A>(coefficients);
    lemma_exps::<A>(evaluations);
}

/// What is taken away from a point of the group and added again.
proof fn lemma_difference<A: Subtract>(a: A, b: A)
    requires
        full_order::<A>(),
        in_group(a),
        in_group(b),
    ensures
        in_group(difference(a, b)),
        sum(difference(a, b), b) == a,
        difference(sum(a, b), b) == a,
{
    let order = A::ScalarField::order() as int;
    lemma_order::<A>();
    lemma_exp_log(a);
    lemma_exp_log(b);
    let (x, y) = (log(a) as int, log(b) as int);
    let d = (x + order - y) % order;
    lemma_mod_bound(x + order - y, order);
    lemma_log_exp::<A>(d as nat);
    lemma_add_mod_noop(x + order - y, y, order);
    lemma_small_mod(log(b), order as nat);
    lemma_mod_multiples_vanish(1, x, order);
    lemma_small_mod(log(a), order as nat);
    lemma_sum_in_group(a, b);
    lemma_add_mod_noop(x + y, order - y, order);
    lemma_mod_twice(x + y, order);
    lemma_add_mod_noop((x + y) % order, order - y, order);
}

/// Powers that were taken into Lagrange form are the powers that come out of it, where there are
/// as many as the domain asks for.
pub proof fn law_unprepare_inverts_prepare<E: Pairing>(accum: AccumulatorModel<E>)
    requires
        full_orders::<E>(),
        accum.in_groups(),
        is_domain_size::<E::ScalarField>(accum.tau_powers_g2.len()),
        accum.tau_powers_g1.len() == 2 * accum.tau_powers_g2.len() - 1,
        accum.alpha_tau_powers_g1.len() == accum.tau_powers_g2.len(),
        accum.beta_tau_powers_g1.len() == accum.tau_powers_g2.len(),
    ensures
        unprepared(accum.lagrange(accum.tau_powers_g2.len())) == accum,
{
    let size = accum.tau_powers_g2.len();
    let n = size as int;
    let tau_g1 = accum.tau_powers_g1.take(n);
    assert(accum.tau_powers_g2.take(n) =~= accum.tau_powers_g2);
    assert(accum.alpha_tau_powers_g1.take(n) =~= accum.alpha_tau_powers_g1);
    assert(accum.beta_tau_powers_g1.take(n) =~= accum.beta_tau_powers_g1);
    law_fft_inverts(tau_g1);
    law_fft_inverts(accum.tau_powers_g2);
    law_fft_inverts(accum.alpha_tau_powers_g1);
    law_fft_inverts(accum.beta_tau_powers_g1);
    let back = unprepared(accum.lagrange(size));
    assert forall|i: int| 0 <= i < accum.tau_powers_g1.len() implies #[trigger]
        back.tau_powers_g1[i] == accum.tau_powers_g1[i] by {
        if i >= n {
            lemma_difference(accum.tau_powers_g1[i], accum.tau_powers_g1[i - n]);
        }
    }
    assert(back.tau_powers_g1 =~= accum.tau_powers_g1);
}

/// The Lagrange form that a radix file holds comes back when its powers are prepared.
pub proof fn law_prepare_inverts_unprepare<E: Pairing>(prepared: PreparedModel<E>)
    requires
        full_orders::<E>(),
        prepared.in_groups(),
        prepared.valid_lengths(),
        is_domain_size::<E::ScalarField>(prepared.tau_lagrange_g1.len()),
    ensures
        ({
            let back = unprepared(prepared).lagrange(prepared.tau_lagrange_g1.len());
            &&& back.tau_lagrange_g1 == prepared.tau_lagrange_g1
            &&& back.tau_lagrange_g2 == prepared.tau_lagrange_g2
            &&& back.alpha_lagrange_g1 == prepared.alpha_lagrange_g1
            &&& back.beta_lagrange_g1 == prepared.beta_lagrange_g1
            &&& back.beta_g2 == prepared.beta_g2
            &&& back.h_query == prepared.h_query
        }),
{
    let size = prepared.tau_lagrange_g1.len();
    let n = size as int;
    let powers = unprepared(prepared);
    let back = powers.lagrange(size);
    lemma_order::<E::G1Affine>();
    law_fft_inverts(prepared.tau_lagrange_g1);
    law_fft_inverts(prepared.tau_lagrange_g2);
    law_fft_inverts(prepared.alpha_lagrange_g1);
    law_fft_inverts(prepared.beta_lagrange_g1);
    let tau_g1 = fft(prepared.tau_lagrange_g1);
    assert(powers.tau_powers_g1.take(n) =~= tau_g1);
    assert(powers.tau_powers_g2.take(n) =~= powers.tau_powers_g2);
    assert(powers.alpha_tau_powers_g1.take(n) =~= powers.alpha_tau_powers_g1);
    assert(powers.beta_tau_powers_g1.take(n) =~= powers.beta_tau_powers_g1);
    let root = domain_root::<E::ScalarField>(size);
    lemma_exps_in_group::<E::G1Affine>(
        dft(logs(prepared.tau_lagrange_g1), root, E::ScalarField::order()),
    );
    assert forall|i: int| 0 <= i < prepared.h_query.len() implies #[trigger] back.h_query[i]
        == prepared.h_query[i] by {
        assert(in_group(tau_g1[i]));
        lemma_difference(prepared.h_query[i], tau_g1[i]);
    }
    assert(back.h_query =~= prepared.h_query);
}

/// The power of a product is the product of the powers.
proof fn lemma_power_of_product(x: nat, y: nat, i: nat, order: nat)
    requires
        order > 0,
    ensures
        power_value(mul_mod(x, y, order), i, order) == mul_mod(
            power_value(x, i, order),
            power_value(y, i, order),
            order,
        ),
{
    let m = order as int;
    let (p, q) = (pow(x as int, i), pow(y as int, i));
    lemma_pow_nonnegative(x, i);
    lemma_pow_nonnegative(y, i);
    lemma_pow_nonnegative(mul_mod(x, y, order), i);
    lemma_pow_mod_noop((x * y) as int, i, m);
    lemma_pow_distributes(x as int, y as int, i);
    lemma_mul_mod_noop_general(p, q, m);
    lemma_mod_bound(p, m);
    lemma_mod_bound(q, m);
    lemma_mod_bound(pow(mul_mod(x, y, order) as int, i), m);
}

/// Products of products, the factors paired otherwise.
proof fn lemma_pairs(a: nat, b: nat, c: nat, d: nat, order: nat)
    requires
        order > 0,
    ensures
        mul_mod(mul_mod(a, b, order), mul_mod(c, d, order), order) == mul_mod(
            mul_mod(a, c, order),
            mul_mod(b, d, order),
            order,
        ),
{
    let m = order as int;
    lemma_mul_mod_noop_general((a * b) as int, (c * d) as int, m);
    lemma_mul_mod_noop_general((a * c) as int, (b * d) as int, m);
    assert((a * b) * (c * d) == (a * c) * (b * d)) by (nonlinear_arith);
}

/// The powers before any contribution are those of 1.
pub proof fn law_empty_is_powers<E: Pairing>(g1_powers: nat, g2_powers: nat)
    requires
        full_orders::<E>(),
        g2_powers <= g1_powers,
    ensures
        AccumulatorModel::<E>::empty(g1_powers, g2_powers).powers_of(1, 1, 1),
{
    let order = E::ScalarField::order();
    lemma_order::<E::G1Affine>();
    lemma_log_exp::<E::G1Affine>(1);
    lemma_log_exp::<E::G2Affine>(1);
    lemma_small_mod(1, order);
    assert forall|i: nat| #[trigger] power_value(1, i, order) == 1 by {
        lemma1_pow(i);
    }
    assert(mul_mod(1, 1, order) == 1);
}

/// A contribution multiplies the secrets that the powers are of.
pub proof fn law_contribution_keeps_powers<E: Pairing>(
    accum: AccumulatorModel<E>,
    secrets: (nat, nat, nat),
    more: (nat, nat, nat),
)
    requires
        full_orders::<E>(),
        accum.powers_of(secrets.0, secrets.1, secrets.2),
    ensures
        accum.contributed(more.0, more.1, more.2).powers_of(
            mul_mod(secrets.0, more.0, E::ScalarField::order()),
            mul_mod(secrets.1, more.1, E::ScalarField::order()),
            mul_mod(secrets.2, more.2, E::ScalarField::order()),
        ),
{
    let order = E::ScalarField::order();
    let (tau, alpha, beta) = secrets;
    let after = accum.contributed(more.0, more.1, more.2);
    let product = mul_mod(tau, more.0, order);
    lemma_order::<E::G1Affine>();
    assert forall|i: int| 0 <= i < after.tau_powers_g1.len() implies in_group(
        #[trigger] after.tau_powers_g1[i],
    ) && log(after.tau_powers_g1[i]) == power_value(product, i as nat, order) by {
        lemma_multiple_in_group(accum.tau_powers_g1[i], power_value(more.0, i as nat, order));
        lemma_power_of_product(tau, more.0, i as nat, order);
    }
    assert forall|i: int| 0 <= i < after.tau_powers_g2.len() implies in_group(
        #[trigger] after.tau_powers_g2[i],
    ) && log(after.tau_powers_g2[i]) == power_value(product, i as nat, order) by {
        lemma_multiple_in_group(accum.tau_powers_g2[i], power_value(more.0, i as nat, order));
        lemma_power_of_product(tau, more.0, i as nat, order);
    }
    assert forall|i: int| 0 <= i < after.alpha_tau_powers_g1.len() implies in_group(
        #[trigger] after.alpha_tau_powers_g1[i],
    ) && log(after.alpha_tau_powers_g1[i]) == mul_mod(
        power_value(product, i as nat, order),
        mul_mod(alpha, more.1, order),
        order,
    ) by {
        let p = power_value(more.0, i as nat, order);
        lemma_multiple_in_group(accum.alpha_tau_powers_g1[i], mul_mod(p, more.1, order));
        lemma_power_of_product(tau, more.0, i as nat, order);
        lemma_pairs(power_value(tau, i as nat, order), alpha, p, more.1, order);
    }
    assert forall|i: int| 0 <= i < after.beta_tau_powers_g1.len() implies in_group(
        #[trigger] after.beta_tau_powers_g1[i],
    ) && log(after.beta_tau_powers_g1[i]) == mul_mod(
        power_value(product, i as nat, order),
        mul_mod(beta, more.2, order),
        order,
    ) by {
        let p = power_value(more.0, i as nat, order);
        lemma_multiple_in_group(accum.beta_tau_powers_g1[i], mul_mod(p, more.2, order));
        lemma_power_of_product(tau, more.0, i as nat, order);
        lemma_pairs(power_value(tau, i as nat, order), beta, p, more.2, order);
    }
    lemma_multiple_in_group(accum.beta_g2, more.2);
    lemma_mul_mod_noop_general(beta as int, more.2 as int, order as int);
    lemma_mod_twice((beta * more.2) as int, order as int);
}

/// In powers of `tau` over the domain of `size` elements, the `h` query holds the powers times
/// `tau^size - 1`, which is what the domain's vanishing polynomial is at `tau`.
pub proof fn law_h_query_vanishes<E: Pairing>(
    accum: AccumulatorModel<E>,
    secrets: (nat, nat, nat),
    size: nat,
    i: nat,
)
    requires
        full_orders::<E>(),
        accum.powers_of(secrets.0, secrets.1, secrets.2),
        accum.suffices(size),
        i + 1 < size,
    ensures
        in_group(accum.lagrange(size).h_query[i as int]),
        log(accum.lagrange(size).h_query[i as int]) == (power_value(
            secrets.0,
            i,
            E::ScalarField::order(),
        ) * (pow(secrets.0 as int, size) - 1)) % (E::ScalarField::order() as int),
{
    let tau = secrets.0 as int;
    let order = E::ScalarField::order();
    let m = order as int;
    lemma_order::<E::G1Affine>();
    let (a, b) = (accum.tau_powers_g1[(i + size) as int], accum.tau_powers_g1[i as int]);
    let (p, q) = (pow(tau, i), pow(tau, size));
    lemma_pow_nonnegative(secrets.0, i);
    lemma_pow_nonnegative(secrets.0, i + size);
    lemma_mod_bound(p, m);
    lemma_mod_bound(pow(tau, i + size), m);
    let d = log(a) + m - log(b);
    lemma_mod_bound(d, m);
    lemma_log_exp::<E::G1Affine>((d % m) as nat);
    assert(accum.lagrange(size).h_query[i as int] == difference(a, b));
    // log(a) + m - log(b) is p q - p, which is p (q - 1).
    lemma_pow_adds(tau, i, size);
    lemma_mod_twice(pow(tau, i + size), m);
    lemma_mod_twice(p, m);
    lemma_same_mul(-1, -1, p % m, p, m);
    lemma_same_add(log(a) as int, p * q, -1 * (p % m), -1 * p, m);
    lemma_mod_multiples_vanish(1, log(a) - log(b), m);
    lemma_same_mul(p % m, p, q - 1, q - 1, m);
    assert(p * (q - 1) == p * q - p) by (nonlinear_arith);
}

/// A contribution keeps the lengths.
pub proof fn law_contribution_keeps_lengths<E: Pairing>(
    accum: AccumulatorModel<E>,
    tau: nat,
    alpha: nat,
    beta: nat,
)
    ensures
        ({
            let after = accum.contributed(tau, alpha, beta);
            &&& after.tau_powers_g1.len() == accum.tau_powers_g1.len()
            &&& after.tau_powers_g2.len() == accum.tau_powers_g2.len()
            &&& after.valid_lengths() == accum.valid_lengths()
            &&& after.contributable() == accum.contributable()
        }),
{
}

/// Two multiples of a multiple are the multiple by the product.
proof fn lemma_multiple_twice<A: GroupModel>(point: A, a: nat, b: nat)
    requires
        full_order::<A>(),
        in_group(point),
    ensures
        multiple(multiple(point, a), b) == multiple(point, mul_mod(a, b, A::ScalarField::order())),
{
    let order = A::ScalarField::order();
    lemma_order::<A>();
    lemma_multiple_in_group(point, a);
    lemma_mul_mod(log(point), a, b, order);
}

/// Two contributions are one contribution of the products of the secrets.
pub proof fn law_contributions_compose<E: Pairing>(
    accum: AccumulatorModel<E>,
    first: (nat, nat, nat),
    second: (nat, nat, nat),
)
    requires
        full_orders::<E>(),
        accum.in_groups(),
        accum.contributable(),
    ensures
        accum.contributed(first.0, first.1, first.2).contributed(second.0, second.1, second.2)
            == accum.contributed(
            mul_mod(first.0, second.0, E::ScalarField::order()),
            mul_mod(first.1, second.1, E::ScalarField::order()),
            mul_mod(first.2, second.2, E::ScalarField::order()),
        ),
{
    let order = E::ScalarField::order();
    lemma_order::<E::G1Affine>();
    let once = accum.contributed(first.0, first.1, first.2);
    let twice = once.contributed(second.0, second.1, second.2);
    let both = accum.contributed(
        mul_mod(first.0, second.0, order),
        mul_mod(first.1, second.1, order),
        mul_mod(first.2, second.2, order),
    );
    assert forall|i: int| 0 <= i < accum.tau_powers_g1.len() implies #[trigger]
        twice.tau_powers_g1[i] == both.tau_powers_g1[i] by {
        let (p, q) = (
            power_value(first.0, i as nat, order),
            power_value(second.0, i as nat, order),
        );
        lemma_power_of_product(first.0, second.0, i as nat, order);
        lemma_multiple_twice(accum.tau_powers_g1[i], p, q);
    }
    assert forall|i: int| 0 <= i < accum.tau_powers_g2.len() implies #[trigger]
        twice.tau_powers_g2[i] == both.tau_powers_g2[i] by {
        let (p, q) = (
            power_value(first.0, i as nat, order),
            power_value(second.0, i as nat, order),
        );
        lemma_power_of_product(first.0, second.0, i as nat, order);
        lemma_multiple_twice(accum.tau_powers_g2[i], p, q);
    }
    assert forall|i: int| 0 <= i < accum.alpha_tau_powers_g1.len() implies #[trigger]
        twice.alpha_tau_powers_g1[i] == both.alpha_tau_powers_g1[i] by {
        let (p, q) = (
            power_value(first.0, i as nat, order),
            power_value(second.0, i as nat, order),
        );
        lemma_power_of_product(first.0, second.0, i as nat, order);
        lemma_pairs(p, first.1, q, second.1, order);
        lemma_multiple_twice(
            accum.alpha_tau_powers_g1[i],
            mul_mod(p, first.1, order),
            mul_mod(q, second.1, order),
        );
    }
    assert forall|i: int| 0 <= i < accum.beta_tau_powers_g1.len() implies #[trigger]
        twice.beta_tau_powers_g1[i] == both.beta_tau_powers_g1[i] by {
        let (p, q) = (
            power_value(first.0, i as nat, order),
            power_value(second.0, i as nat, order),
        );
        lemma_power_of_product(first.0, second.0, i as nat, order);
        lemma_pairs(p, first.2, q, second.2, order);
        lemma_multiple_twice(
            accum.beta_tau_powers_g1[i],
            mul_mod(p, first.2, order),
            mul_mod(q, second.2, order),
        );
    }
    lemma_multiple_twice(accum.beta_g2, first.2, second.2);
    assert(twice.tau_powers_g1 =~= both.tau_powers_g1);
    assert(twice.tau_powers_g2 =~= both.tau_powers_g2);
    assert(twice.alpha_tau_powers_g1 =~= both.alpha_tau_powers_g1);
    assert(twice.beta_tau_powers_g1 =~= both.beta_tau_powers_g1);
}

proof fn lemma_multiples_twice<A: AffineRepr>(points: Seq<A>, a: nat, b: nat)
    requires
        full_order::<A>(),
        all_in_group(points),
    ensures
        multiples(multiples(points, a), b) == multiples(
            points,
            mul_mod(a, b, A::ScalarField::order()),
        ),
{
    let twice = multiples(multiples(points, a), b);
    let once = multiples(points, mul_mod(a, b, A::ScalarField::order()));
    assert forall|i: int| 0 <= i < points.len() implies #[trigger] twice[i] == once[i] by {
        lemma_multiple_twice(points[i], a, b);
    }
    assert(twice =~= once);
}

/// Two contributions to a partial key are one contribution of the product.
pub proof fn law_key_contributions_compose<E: Pairing>(key: PartialKeyModel<E>, a: nat, b: nat)
    requires
        full_orders::<E>(),
        key.in_groups(),
        0 < a < E::ScalarField::order(),
        0 < b < E::ScalarField::order(),
    ensures
        key.contributed(a).contributed(b) == key.contributed(
            mul_mod(a, b, E::ScalarField::order()),
        ),
{
    let order = E::ScalarField::order();
    lemma_order::<E::G1Affine>();
    let (p, q) = (inverse_mod(a, order), inverse_mod(b, order));
    lemma_invertible::<E::ScalarField>(a);
    lemma_invertible::<E::ScalarField>(b);
    // (p * q) * (a * b) == (p * a) * (q * b)
    lemma_pairs(p, q, a, b, order);
    lemma_small_mod(1, order);
    assert(mul_mod(1, 1, order) == 1);
    lemma_mul_mod(p, q, 1, order);
    lemma_inverse_mod(mul_mod(a, b, order), mul_mod(p, q, order), order);
    lemma_multiple_twice(key.delta_g1, a, b);
    lemma_multiple_twice(key.delta_g2, a, b);
    lemma_multiples_twice(key.h_query, p, q);
    lemma_multiples_twice(key.l_query, p, q);
}

/// The product of the scalars that the first `count` contributions prove knowledge of.
pub open spec fn contributed_product<E: Pairing>(
    contributions: Seq<PublicKey<E>>,
    count: nat,
) -> nat
    decreases count,
{
    if count == 0 {
        1
    } else {
        mul_mod(
            contributed_product(contributions, (count - 1) as nat),
            log(contributions[count - 1].proof.point),
            E::ScalarField::order(),
        )
    }
}

/// In an accepted transcript every proof of knowledge holds for its challenge: the deltas before the
/// contribution that it comes with. A transcript with one that does not hold is refused for it.
pub proof fn law_accepted_proofs_hold<E: Pairing>(transcript: TranscriptModel<E>, i: int)
    requires
        0 <= i < transcript.contributions.len(),
    ensures
        transcript.verified() is Ok ==> transcript.contributions[i].proof.holds(
            transcript.previous_challenge(i),
        ),
        !transcript.contributions[i].proof.holds(transcript.previous_challenge(i))
            ==> transcript.verified() == Err::<(), ErrorModel>(ErrorModel::InvalidRatioProof),
{
    if transcript.ratios_hold() {
        assert(transcript.link_holds(i));
    }
}

/// A transform of a key is accepted with a proof only where the proof holds for the challenge of the
/// key before, and is refused for the proof where it does not.
pub proof fn law_accepted_transform_has_proof<E: Pairing>(
    prev: PartialKeyModel<E>,
    next: PartialKeyModel<E>,
    proof_made: RatioProof<E>,
)
    ensures
        transform_verified(prev, next, proof_made) is Ok ==> proof_made.holds(prev.challenge()),
        !proof_made.holds(prev.challenge()) ==> transform_verified(prev, next, proof_made)
            == Err::<(), ErrorModel>(ErrorModel::InvalidRatioProof),
{
}

/// In a transcript of a fresh key whose ratios hold, every contribution's delta is the product of
/// the scalars up to it, and the key's delta is the product of all of them.
pub proof fn law_accepted_delta_is_product<E: Pairing>(transcript: TranscriptModel<E>, count: nat)
    requires
        full_orders::<E>(),
        transcript.in_groups(),
        transcript.ratios_hold(),
        transcript.initial_key.delta_g1 == E::G1Affine::exp(1),
        transcript.initial_key.delta_g2 == E::G2Affine::exp(1),
        count <= transcript.contributions.len(),
    ensures
        log(transcript.previous_delta(count as int)) == contributed_product(
            transcript.contributions,
            count,
        ),
        log(transcript.key.delta_g1) == contributed_product(
            transcript.contributions,
            transcript.contributions.len(),
        ),
{
    lemma_links_multiply(transcript, count);
    lemma_links_multiply(transcript, transcript.contributions.len());
    let order = E::ScalarField::order();
    lemma_order::<E::G1Affine>();
    lemma_log_exp::<E::G1Affine>(1);
    lemma_log_exp::<E::G2Affine>(1);
    let last = transcript.previous_delta(transcript.contributions.len() as int);
    if transcript.contributions.len() > 0 {
        assert(in_group(
            transcript.contributions[transcript.contributions.len() - 1].delta_g2,
        ));
    }
    lemma_exp_log(last);
    lemma_exp_log(transcript.key.delta_g1);
    lemma_small_mod(log(last), order);
    lemma_small_mod(log(transcript.key.delta_g1), order);
    assert(1 * log(last) == log(last));
    assert(log(transcript.key.delta_g1) * 1 == log(transcript.key.delta_g1));
}

proof fn lemma_links_multiply<E: Pairing>(transcript: TranscriptModel<E>, count: nat)
    requires
        full_orders::<E>(),
        transcript.in_groups(),
        transcript.ratios_hold(),
        transcript.initial_key.delta_g2 == E::G2Affine::exp(1),
        count <= transcript.contributions.len(),
    ensures
        log(transcript.previous_delta(count as int)) == contributed_product(
            transcript.contributions,
            count,
        ),
    decreases count,
{
    let order = E::ScalarField::order();
    lemma_order::<E::G2Affine>();
    lemma_log_exp::<E::G2Affine>(1);
    if count > 0 {
        let i = count - 1;
        lemma_links_multiply(transcript, i as nat);
        assert(transcript.link_holds(i));
        generator_log::<E>();
        let own = transcript.contributions[i];
        lemma_exp_log(own.delta_g2);
        lemma_small_mod(log(own.delta_g2), order);
        assert(1 * log(own.delta_g2) == log(own.delta_g2));
        lemma_mul_is_commutative(
            log(own.proof.point) as int,
            log(transcript.previous_delta(i)) as int,
        );
    }
}

/// A contribution does not change what a transcript is compared by with an initial one.
pub proof fn law_contribution_keeps_start<E: Pairing>(
    transcript: TranscriptModel<E>,
    initial: TranscriptModel<E>,
    delta: nat,
    eth_address: [u8; 20],
    eth_signature: [u8; 65],
)
    ensures
        transcript.contributed(delta, eth_address, eth_signature).mismatch(initial)
            == transcript.mismatch(initial),
{
}

/// A fresh transcript whose points lie in their groups is accepted against itself, and any
/// transcript that honest contributions made of it is.
pub proof fn law_start_is_accepted<E: Pairing>(
    key: ProvingKeyModel<E>,
    transcript: TranscriptModel<E>,
)
    requires
        full_orders::<E>(),
        key.partial().in_groups(),
        transcript == TranscriptModel::fresh(key) || (transcript.honest() && transcript.mismatch(
            TranscriptModel::fresh(key),
        ) is None),
    ensures
        transcript.verifiable_from(TranscriptModel::fresh(key)),
        transcript.verified_from(TranscriptModel::fresh(key)) is Ok,
{
    law_fresh_is_honest(key);
    law_honest_is_accepted(transcript);
}

} // verus!
