use vstd::arithmetic::div_mod::{lemma_mod_twice, lemma_small_mod};
use vstd::arithmetic::mul::lemma_mul_is_commutative;
use vstd::bytes::spec_u64_to_le_bytes;
use vstd::prelude::*;

use crate::algebra::{
    full_orders, inverse_mod, lemma_cancel, lemma_exp_log, lemma_inverse_mod, lemma_invertible, lemma_log_exp,
    lemma_mul_mod, lemma_multiple_in_group, lemma_sum_in_group, mul_mod, prime_order,
};
use crate::canonical::CanonicalModel;
use crate::curve::{
    all_in_group, full_order, in_group, log, multiple, pairings_equal, sum, AffineRepr, GroupModel,
    Pairing, PrimeField, ScalarModel,
};
use crate::error::ErrorModel;
use crate::key::PartialKeyModel;
use crate::laws::{contributed_product, law_contribution_stays_in_groups, lemma_order};
use crate::qap::weighted;
use crate::ratio::{
    challenge_point, generator_log, law_proof_holds_for_one_scalar, RatioProof,
};
use crate::rng::blake3_hash;
use crate::transcript::{
    query_comparable, query_holds, transform_verifiable, transform_verified, TranscriptModel,
};
use crate::transform::{
    lemma_same_add, lemma_same_mul, lemma_total_add, lemma_total_equal, lemma_total_same,
    lemma_total_scale, lemma_total_single, same, total,
};
use crate::utils::{
    merge_ratio, merge_scalar, merge_seed_spec, merged, same_ratio_swap_defined,
    same_ratio_swap_spec, sample_bytes, sample_count, sample_index,
};
use crate::writing::{concatenated, lemma_concatenated_equal};

verus! {

/// Where the `i`-th scalar is drawn from a key stream.
pub open spec fn draw_position<F: ScalarModel>(seed: Seq<u8>, i: nat) -> u128
    decreases i,
{
    if i == 0 {
        0
    } else {
        F::sampled(seed, draw_position::<F>(seed, (i - 1) as nat)).1
    }
}

/// The value of the `i`-th scalar that is drawn from a key stream.
pub open spec fn draw<F: ScalarModel>(seed: Seq<u8>, i: nat) -> int {
    F::sampled(seed, draw_position::<F>(seed, i)).0.value() as int
}

/// What two vectors are merged by: the encodings of their elements, of both at the same positions
/// in turns, and their length. Of more than 16 elements there are 16, spread over the length.
pub open spec fn merge_input<A: AffineRepr>(lhs: Seq<A>, rhs: Seq<A>) -> Seq<u8> {
    let length = lhs.len();
    let both = |at: int| A::encoding(lhs[at], true) + A::encoding(rhs[at], true);
    (if length <= 16 {
        concatenated(|k: nat| both(k as int), length)
    } else {
        concatenated(|k: nat| both((k * length / 16) as int), 16)
    }) + spec_u64_to_le_bytes(length as u64)
}

/// The sum of the logarithms of all points of a vector, each times the scalar that is drawn for it
/// in the merge of `lhs` and `rhs`.
pub open spec fn merged_log<A: AffineRepr>(points: Seq<A>, lhs: Seq<A>, rhs: Seq<A>) -> int {
    let seed = blake3_hash(merge_input(lhs, rhs));
    weighted(points, |i: nat| draw::<A::ScalarField>(seed, i), points.len())
}

/// The sum of the first `count` points, each times the scalar that is drawn for it.
pub open spec fn drawn_sum<A: AffineRepr>(points: Seq<A>, seed: Seq<u8>, count: nat) -> A
    decreases count,
{
    if count == 0 {
        A::exp(0)
    } else {
        let last = (count - 1) as nat;
        sum(
            drawn_sum(points, seed, last),
            multiple(points[last as int], draw::<A::ScalarField>(seed, last) as nat),
        )
    }
}

proof fn lemma_sample_bytes<A: AffineRepr>(lhs: Seq<A>, rhs: Seq<A>, count: nat)
    ensures
        sample_bytes(lhs, rhs, count) == concatenated(
            |k: nat|
                A::encoding(lhs[sample_index(lhs.len(), k) as int], true) + A::encoding(
                    rhs[sample_index(lhs.len(), k) as int],
                    true,
                ),
            count,
        ),
    decreases count,
{
    if count > 0 {
        lemma_sample_bytes(lhs, rhs, (count - 1) as nat);
        let i = sample_index(lhs.len(), (count - 1) as nat) as int;
        let before = sample_bytes(lhs, rhs, (count - 1) as nat);
        assert(before + A::encoding(lhs[i], true) + A::encoding(rhs[i], true) =~= before + (
        A::encoding(lhs[i], true) + A::encoding(rhs[i], true)));
    }
}

proof fn lemma_merge_seed<A: AffineRepr>(lhs: Seq<A>, rhs: Seq<A>)
    ensures
        merge_seed_spec(lhs, rhs) == blake3_hash(merge_input(lhs, rhs)),
{
    let length = lhs.len();
    let count = sample_count(length);
    lemma_sample_bytes(lhs, rhs, count);
    let f = |k: nat|
        A::encoding(lhs[sample_index(lhs.len(), k) as int], true) + A::encoding(
            rhs[sample_index(lhs.len(), k) as int],
            true,
        );
    let both = |at: int| A::encoding(lhs[at], true) + A::encoding(rhs[at], true);
    if length <= 16 {
        lemma_concatenated_equal(f, |k: nat| both(k as int), length);
    } else {
        lemma_concatenated_equal(f, |k: nat| both((k * length / 16) as int), 16);
    }
}

proof fn lemma_merge_scalar<A: AffineRepr>(seed: Seq<u8>, i: nat)
    ensures
        merge_scalar::<A>(seed, i) == A::ScalarField::sampled(
            seed,
            draw_position::<A::ScalarField>(seed, i),
        ),
    decreases i,
{
    if i > 0 {
        lemma_merge_scalar::<A>(seed, (i - 1) as nat);
    }
}

proof fn lemma_merged_sum<A: AffineRepr>(points: Seq<A>, seed: Seq<u8>, count: nat)
    ensures
        merged(points, seed, count) == drawn_sum(points, seed, count),
    decreases count,
{
    if count > 0 {
        lemma_merged_sum(points, seed, (count - 1) as nat);
        lemma_merge_scalar::<A>(seed, (count - 1) as nat);
    }
}

/// Two vectors merge to the sums of all their points, each times the scalar that is drawn for its
/// position, from the key stream of the hash of what the vectors are merged by.
pub proof fn law_merge_adds_all_points<A: AffineRepr>(lhs: Seq<A>, rhs: Seq<A>)
    ensures
        ({
            let seed = blake3_hash(merge_input(lhs, rhs));
            merge_ratio(lhs, rhs) == (
                drawn_sum(lhs, seed, lhs.len()),
                drawn_sum(rhs, seed, rhs.len()),
            )
        }),
{
    lemma_merge_seed(lhs, rhs);
    let seed = merge_seed_spec(lhs, rhs);
    lemma_merged_sum(lhs, seed, lhs.len());
    lemma_merged_sum(rhs, seed, rhs.len());
}

proof fn lemma_drawn_log<A: AffineRepr>(points: Seq<A>, seed: Seq<u8>, count: nat)
    requires
        full_order::<A>(),
        all_in_group(points),
        count <= points.len(),
    ensures
        in_group(drawn_sum(points, seed, count)),
        same(
            log(drawn_sum(points, seed, count)) as int,
            weighted(points, |i: nat| draw::<A::ScalarField>(seed, i), count),
            A::ScalarField::order() as int,
        ),
    decreases count,
{
    let m = A::ScalarField::order() as int;
    lemma_order::<A>();
    if count == 0 {
        lemma_log_exp::<A>(0);
    } else {
        let last = (count - 1) as nat;
        let scalar = draw::<A::ScalarField>(seed, last) as nat;
        let (before, own) = (drawn_sum(points, seed, last), points[last as int]);
        lemma_drawn_log(points, seed, last);
        lemma_multiple_in_group(own, scalar);
        lemma_sum_in_group(before, multiple(own, scalar));
        let product = (log(own) * scalar) as int;
        lemma_mod_twice(product, m);
        lemma_same_add(
            log(before) as int,
            weighted(points, |i: nat| draw::<A::ScalarField>(seed, i), last),
            log(multiple(own, scalar)) as int,
            product,
            m,
        );
        lemma_mod_twice((log(before) + log(multiple(own, scalar))) as int, m);
    }
}

/// The logarithm of what a vector of points of the group merges to is the sum over all its points
/// of their logarithms times the scalars drawn for them.
pub proof fn law_merge_weighs_all_points<A: AffineRepr>(lhs: Seq<A>, rhs: Seq<A>)
    requires
        full_order::<A>(),
        all_in_group(lhs),
        all_in_group(rhs),
    ensures
        in_group(merge_ratio(lhs, rhs).0),
        in_group(merge_ratio(lhs, rhs).1),
        same(
            log(merge_ratio(lhs, rhs).0) as int,
            merged_log(lhs, lhs, rhs),
            A::ScalarField::order() as int,
        ),
        same(
            log(merge_ratio(lhs, rhs).1) as int,
            merged_log(rhs, lhs, rhs),
            A::ScalarField::order() as int,
        ),
{
    law_merge_adds_all_points(lhs, rhs);
    let seed = blake3_hash(merge_input(lhs, rhs));
    lemma_drawn_log(lhs, seed, lhs.len());
    lemma_drawn_log(rhs, seed, rhs.len());
}

/// The point that a proof for the key with these deltas has to match.
pub open spec fn point_to_match<E: Pairing>(
    delta_g1: E::G1Affine,
    delta_g2: E::G2Affine,
    point: E::G1Affine,
) -> E::G2Affine {
    E::G2Affine::sampled_point(
        blake3_hash(
            E::G1Affine::encoding(delta_g1, true) + E::G2Affine::encoding(delta_g2, true)
                + E::G1Affine::encoding(E::G1Affine::exp(1), true) + E::G1Affine::encoding(
                point,
                true,
            ),
        ),
        0,
    ).0
}

/// The point to match is drawn from the encodings of both deltas, of the generator and of the
/// proof's point, one behind the other.
pub proof fn law_challenge_is_the_deltas<E: Pairing>(
    delta_g1: E::G1Affine,
    delta_g2: E::G2Affine,
    h_query: Seq<E::G1Affine>,
    l_query: Seq<E::G1Affine>,
    point: E::G1Affine,
)
    ensures
        ({
            let key = PartialKeyModel::<E> { delta_g1, delta_g2, h_query, l_query };
            &&& key.challenge() == E::G1Affine::encoding(delta_g1, true) + E::G2Affine::encoding(
                delta_g2,
                true,
            )
            &&& challenge_point::<E>(key.challenge(), point) == point_to_match::<E>(
                delta_g1,
                delta_g2,
                point,
            )
        }),
{
}

/// Whether a proof is one of knowledge of the scalar that takes the generator to its point: the
/// same scalar takes the point to match to the matching point.
pub open spec fn proves_knowledge<E: Pairing>(
    proof_made: RatioProof<E>,
    delta_g1: E::G1Affine,
    delta_g2: E::G2Affine,
) -> bool {
    proof_made.matching_point == multiple(
        point_to_match::<E>(delta_g1, delta_g2, proof_made.point),
        log(proof_made.point),
    )
}

proof fn lemma_link<E: Pairing>(point: E::G1Affine, prev: E::G2Affine, next: E::G2Affine)
    requires
        full_orders::<E>(),
        in_group(point),
        in_group(prev),
        in_group(next),
    ensures
        same_ratio_swap_defined::<E>((E::G1Affine::exp(1), point), (prev, next)),
        same_ratio_swap_spec::<E>((E::G1Affine::exp(1), point), (prev, next))
            <==> log(next) == mul_mod(log(prev), log(point), E::ScalarField::order()),
{
    let order = E::ScalarField::order();
    generator_log::<E>();
    lemma_order::<E::G2Affine>();
    lemma_exp_log(next);
    lemma_small_mod(log(next), order);
    assert(1 * log(next) == log(next));
    lemma_mul_mod(log(prev), log(point), 1, order);
}

/// With `next == prev * scalar` and `prev` not zero, the ratio of `a` to `b` is that of `prev` to
/// `next` just where `b == a * scalar`.
proof fn lemma_ratio_is_scalar<F: PrimeField>(a: nat, b: nat, prev: nat, scalar: nat)
    requires
        prime_order::<F>(),
        F::order() > 1,
        b < F::order(),
        0 < prev < F::order(),
    ensures
        (a * mul_mod(prev, scalar, F::order())) % F::order() == (b * prev) % F::order() <==> b
            == mul_mod(a, scalar, F::order()),
{
    let order = F::order();
    // a (prev scalar) == (a scalar) prev
    lemma_mul_mod(prev, scalar, 1, order);
    lemma_mul_mod(a, scalar, prev, order);
    if mul_mod(mul_mod(a, scalar, order), prev, order) == mul_mod(b, prev, order) {
        lemma_cancel::<F>(mul_mod(a, scalar, order), b, prev);
    }
}

proof fn lemma_query_decided<E: Pairing>(
    next: Seq<E::G1Affine>,
    prev: Seq<E::G1Affine>,
    prev_delta: E::G2Affine,
    next_delta: E::G2Affine,
)
    requires
        full_orders::<E>(),
        all_in_group(next),
        all_in_group(prev),
        next.len() == prev.len(),
        in_group(prev_delta),
        in_group(next_delta),
    ensures
        query_comparable::<E>(next, prev, prev_delta, next_delta),
        query_holds::<E>(next, prev, prev_delta, next_delta) <==> same(
            merged_log(next, next, prev) * log(next_delta),
            merged_log(prev, next, prev) * log(prev_delta),
            E::ScalarField::order() as int,
        ),
{
    let m = E::ScalarField::order() as int;
    lemma_order::<E::G1Affine>();
    law_merge_weighs_all_points(next, prev);
    let merge = merge_ratio(next, prev);
    lemma_same_mul(
        log(merge.0) as int,
        merged_log(next, next, prev),
        log(next_delta) as int,
        log(next_delta) as int,
        m,
    );
    lemma_same_mul(
        log(merge.1) as int,
        merged_log(prev, next, prev),
        log(prev_delta) as int,
        log(prev_delta) as int,
        m,
    );
}

/// With `next_delta == prev_delta * scalar` and `prev_delta` not zero, a query holds just where it
/// was divided by `scalar`.
proof fn lemma_query_divided<E: Pairing>(
    next: Seq<E::G1Affine>,
    prev: Seq<E::G1Affine>,
    prev_delta: E::G2Affine,
    next_delta: E::G2Affine,
    scalar: nat,
)
    requires
        full_orders::<E>(),
        all_in_group(next),
        all_in_group(prev),
        next.len() == prev.len(),
        in_group(prev_delta),
        in_group(next_delta),
        prev_delta != E::G2Affine::exp(0),
        log(next_delta) == mul_mod(log(prev_delta), scalar, E::ScalarField::order()),
    ensures
        query_holds::<E>(next, prev, prev_delta, next_delta) <==> same(
            merged_log(next, next, prev) * scalar,
            merged_log(prev, next, prev),
            E::ScalarField::order() as int,
        ),
{
    let order = E::ScalarField::order();
    let m = order as int;
    lemma_order::<E::G1Affine>();
    law_merge_weighs_all_points(next, prev);
    let merge = merge_ratio(next, prev);
    lemma_exp_log(prev_delta);
    lemma_exp_log(merge.1);
    lemma_small_mod(log(merge.1), order);
    lemma_ratio_is_scalar::<E::ScalarField>(
        log(merge.0),
        log(merge.1),
        log(prev_delta),
        scalar,
    );
    lemma_same_mul(
        log(merge.0) as int,
        merged_log(next, next, prev),
        scalar as int,
        scalar as int,
        m,
    );
}

/// What the verification of a transform gives, in terms of logarithms: the transform is accepted
/// just where its proof is one of knowledge for the challenge of the key before, both deltas were
/// multiplied by the proof's scalar, and both queries were divided by it, by the weighed sums of
/// all their points.
pub proof fn law_transform_is_decided<E: Pairing>(
    prev: PartialKeyModel<E>,
    next: PartialKeyModel<E>,
    proof_made: RatioProof<E>,
)
    requires
        full_orders::<E>(),
        in_group(prev.delta_g1) && in_group(prev.delta_g2),
        all_in_group(prev.h_query) && all_in_group(prev.l_query),
        in_group(next.delta_g1) && in_group(next.delta_g2),
        all_in_group(next.h_query) && all_in_group(next.l_query),
        in_group(proof_made.point) && in_group(proof_made.matching_point),
        in_group(point_to_match::<E>(prev.delta_g1, prev.delta_g2, proof_made.point)),
        prev.delta_g2 != E::G2Affine::exp(0),
        prev.h_query.len() == next.h_query.len(),
        prev.l_query.len() == next.l_query.len(),
    ensures
        transform_verifiable(prev, next, proof_made),
        ({
            let order = E::ScalarField::order();
            let scalar = log(proof_made.point);
            transform_verified(prev, next, proof_made) == (if !proves_knowledge(
                proof_made,
                prev.delta_g1,
                prev.delta_g2,
            ) || log(next.delta_g1) != mul_mod(log(prev.delta_g1), scalar, order) || log(
                next.delta_g2,
            ) != mul_mod(log(prev.delta_g2), scalar, order) {
                Err(ErrorModel::InvalidRatioProof)
            } else if !same(
                merged_log(next.h_query, next.h_query, prev.h_query) * scalar,
                merged_log(prev.h_query, next.h_query, prev.h_query),
                order as int,
            ) {
                Err(ErrorModel::InconsistentHChange)
            } else if !same(
                merged_log(next.l_query, next.l_query, prev.l_query) * scalar,
                merged_log(prev.l_query, next.l_query, prev.l_query),
                order as int,
            ) {
                Err(ErrorModel::InconsistentLChange)
            } else {
                Ok(())
            })
        }),
{
    let order = E::ScalarField::order();
    let scalar = log(proof_made.point);
    lemma_order::<E::G1Affine>();
    generator_log::<E>();
    law_challenge_is_the_deltas::<E>(
        prev.delta_g1,
        prev.delta_g2,
        prev.h_query,
        prev.l_query,
        proof_made.point,
    );
    law_proof_holds_for_one_scalar(proof_made, prev.challenge());
    lemma_link::<E>(proof_made.point, prev.delta_g2, next.delta_g2);
    lemma_exp_log(prev.delta_g2);
    lemma_exp_log(next.delta_g1);
    lemma_query_decided::<E>(next.h_query, prev.h_query, prev.delta_g2, next.delta_g2);
    lemma_query_decided::<E>(next.l_query, prev.l_query, prev.delta_g2, next.delta_g2);
    if log(next.delta_g2) == mul_mod(log(prev.delta_g2), scalar, order) {
        lemma_ratio_is_scalar::<E::ScalarField>(
            log(prev.delta_g1),
            log(next.delta_g1),
            log(prev.delta_g2),
            scalar,
        );
        lemma_query_divided::<E>(
            next.h_query,
            prev.h_query,
            prev.delta_g2,
            next.delta_g2,
            scalar,
        );
        lemma_query_divided::<E>(
            next.l_query,
            prev.l_query,
            prev.delta_g2,
            next.delta_g2,
            scalar,
        );
    }
}

/// The delta in the first group before a contribution.
pub open spec fn delta_g1_before<E: Pairing>(
    transcript: TranscriptModel<E>,
    i: int,
) -> E::G1Affine {
    if i == 0 {
        transcript.initial_key.delta_g1
    } else {
        transcript.contributions[i - 1].delta_g1
    }
}

/// The delta in the second group before a contribution.
pub open spec fn delta_g2_before<E: Pairing>(
    transcript: TranscriptModel<E>,
    i: int,
) -> E::G2Affine {
    if i == 0 {
        transcript.initial_key.delta_g2
    } else {
        transcript.contributions[i - 1].delta_g2
    }
}

/// Whether a contribution comes with a proof of knowledge for the deltas before it, and multiplied
/// the delta by the proof's scalar.
pub open spec fn is_contribution<E: Pairing>(transcript: TranscriptModel<E>, i: int) -> bool {
    let own = transcript.contributions[i];
    &&& proves_knowledge(
        own.proof,
        delta_g1_before(transcript, i),
        delta_g2_before(transcript, i),
    )
    &&& log(own.delta_g2) == mul_mod(
        log(delta_g2_before(transcript, i)),
        log(own.proof.point),
        E::ScalarField::order(),
    )
}

/// Whether the points of a contribution lie in their groups, and so does the point that its proof
/// has to match.
pub open spec fn contribution_in_groups<E: Pairing>(
    transcript: TranscriptModel<E>,
    i: int,
) -> bool {
    let own = transcript.contributions[i];
    &&& in_group(own.delta_g2)
    &&& in_group(own.proof.point)
    &&& in_group(own.proof.matching_point)
    &&& in_group(
        point_to_match::<E>(
            delta_g1_before(transcript, i),
            delta_g2_before(transcript, i),
            own.proof.point,
        ),
    )
}

proof fn lemma_link_is_contribution<E: Pairing>(transcript: TranscriptModel<E>, i: int)
    requires
        full_orders::<E>(),
        0 <= i < transcript.contributions.len(),
        contribution_in_groups(transcript, i),
        in_group(delta_g2_before(transcript, i)),
    ensures
        transcript.link_comparable(i),
        transcript.link_holds(i) <==> is_contribution(transcript, i),
{
    let own = transcript.contributions[i];
    generator_log::<E>();
    law_challenge_is_the_deltas::<E>(
        delta_g1_before(transcript, i),
        delta_g2_before(transcript, i),
        Seq::empty(),
        Seq::empty(),
        own.proof.point,
    );
    law_proof_holds_for_one_scalar(own.proof, transcript.previous_challenge(i));
    lemma_link::<E>(own.proof.point, delta_g2_before(transcript, i), own.delta_g2);
}

proof fn lemma_contributions_multiply<E: Pairing>(transcript: TranscriptModel<E>, count: nat)
    requires
        full_orders::<E>(),
        in_group(transcript.initial_key.delta_g2),
        count <= transcript.contributions.len(),
        forall|i: int| 0 <= i < count ==> #[trigger] is_contribution(transcript, i),
    ensures
        log(transcript.previous_delta(count as int)) == mul_mod(
            log(transcript.initial_key.delta_g2),
            contributed_product(transcript.contributions, count),
            E::ScalarField::order(),
        ),
    decreases count,
{
    let order = E::ScalarField::order();
    let d = log(transcript.initial_key.delta_g2);
    lemma_order::<E::G2Affine>();
    if count == 0 {
        lemma_exp_log(transcript.initial_key.delta_g2);
        lemma_small_mod(d, order);
        assert(d * 1 == d);
    } else {
        let last = (count - 1) as nat;
        lemma_contributions_multiply(transcript, last);
        assert(is_contribution(transcript, last as int));
        assert(transcript.previous_delta(last as int) == delta_g2_before(transcript, last as int));
        lemma_mul_mod(
            d,
            contributed_product(transcript.contributions, last),
            log(transcript.contributions[last as int].proof.point),
            order,
        );
    }
}

/// What the verification of a transcript gives, in terms of logarithms, whatever key it starts
/// from: the transcript is accepted just where every contribution comes with a proof of knowledge
/// for the deltas before it and multiplied the delta by the proof's scalar, the key's delta in the
/// first group is the initial one times the product of the scalars, and the weighed sums of all
/// points of both queries times the key's delta in the second group are what they were at first.
pub proof fn law_transcript_is_decided<E: Pairing>(transcript: TranscriptModel<E>)
    requires
        full_orders::<E>(),
        in_group(transcript.initial_key.delta_g1) && in_group(transcript.initial_key.delta_g2),
        all_in_group(transcript.initial_key.h_query),
        all_in_group(transcript.initial_key.l_query),
        in_group(transcript.key.delta_g1) && in_group(transcript.key.vk.delta_g2),
        all_in_group(transcript.key.h_query) && all_in_group(transcript.key.l_query),
        forall|i: int|
            0 <= i < transcript.contributions.len() ==> #[trigger] contribution_in_groups(
                transcript,
                i,
            ),
        transcript.initial_key.delta_g2 != E::G2Affine::exp(0),
        transcript.key.h_query.len() == transcript.initial_key.h_query.len(),
        transcript.key.l_query.len() == transcript.initial_key.l_query.len(),
    ensures
        transcript.verifiable(),
        ({
            let order = E::ScalarField::order();
            let count = transcript.contributions.len();
            let (key, initial) = (transcript.key, transcript.initial_key);
            let (next, prev) = (log(key.vk.delta_g2), log(initial.delta_g2));
            transcript.verified() == (if (exists|i: int|
                0 <= i < count && !#[trigger] is_contribution(transcript, i)) || log(key.delta_g1)
                != mul_mod(
                log(initial.delta_g1),
                contributed_product(transcript.contributions, count),
                order,
            ) {
                Err(ErrorModel::InvalidRatioProof)
            } else if !same(
                merged_log(key.h_query, key.h_query, initial.h_query) * next,
                merged_log(initial.h_query, key.h_query, initial.h_query) * prev,
                order as int,
            ) {
                Err(ErrorModel::InconsistentHChange)
            } else if !same(
                merged_log(key.l_query, key.l_query, initial.l_query) * next,
                merged_log(initial.l_query, key.l_query, initial.l_query) * prev,
                order as int,
            ) {
                Err(ErrorModel::InconsistentLChange)
            } else {
                Ok(())
            })
        }),
{
    let order = E::ScalarField::order();
    let count = transcript.contributions.len();
    let (key, initial) = (transcript.key, transcript.initial_key);
    lemma_order::<E::G1Affine>();
    assert forall|i: int| 0 <= i < count implies #[trigger] transcript.link_comparable(i) && (
    transcript.link_holds(i) <==> is_contribution(transcript, i)) by {
        assert(contribution_in_groups(transcript, i));
        if i > 0 {
            assert(contribution_in_groups(transcript, i - 1));
        }
        lemma_link_is_contribution(transcript, i);
    }
    lemma_query_decided::<E>(key.h_query, initial.h_query, initial.delta_g2, key.vk.delta_g2);
    lemma_query_decided::<E>(key.l_query, initial.l_query, initial.delta_g2, key.vk.delta_g2);
    if count > 0 {
        assert(contribution_in_groups(transcript, count - 1));
    }
    let last = transcript.previous_delta(count as int);
    assert(in_group(last));
    if exists|i: int| 0 <= i < count && !#[trigger] is_contribution(transcript, i) {
        let i = choose|i: int| 0 <= i < count && !#[trigger] is_contribution(transcript, i);
        assert(transcript.link_comparable(i));
        assert(!transcript.link_holds(i));
    } else {
        assert forall|i: int| 0 <= i < count implies #[trigger] transcript.link_holds(i) by {
            assert(transcript.link_comparable(i));
            assert(is_contribution(transcript, i));
        }
        assert forall|i: int| 0 <= i < count implies #[trigger] is_contribution(transcript, i) by {
        }
        lemma_contributions_multiply(transcript, count);
        lemma_exp_log(initial.delta_g2);
        lemma_exp_log(key.delta_g1);
        lemma_ratio_is_scalar::<E::ScalarField>(
            log(initial.delta_g1),
            log(key.delta_g1),
            log(initial.delta_g2),
            contributed_product(transcript.contributions, count),
        );
        assert(transcript.links_hold(count as int));
    }
}

/// The weights of points that are all `delta` times others are `delta` times theirs, but for what
/// one point differs by.
proof fn lemma_changed_sum<A: AffineRepr>(
    next: Seq<A>,
    prev: Seq<A>,
    weight: spec_fn(nat) -> int,
    delta: nat,
    at: nat,
)
    requires
        full_order::<A>(),
        next.len() == prev.len(),
        at < next.len(),
        forall|j: int|
            0 <= j < next.len() && j != at ==> log(#[trigger] prev[j]) == mul_mod(
                log(next[j]),
                delta,
                A::ScalarField::order(),
            ),
    ensures
        same(
            weighted(next, weight, next.len()) * delta - weighted(prev, weight, next.len()),
            weight(at) * (log(next[at as int]) * delta - log(prev[at as int])),
            A::ScalarField::order() as int,
        ),
{
    let m = A::ScalarField::order() as int;
    let n = next.len();
    lemma_order::<A>();
    let f = |j: nat| log(next[j as int]) * weight(j);
    let g = |j: nat| log(prev[j as int]) * weight(j);
    let scaled = |j: nat| delta as int * f(j);
    let minus = |j: nat| -1 * g(j);
    let d = |j: nat| scaled(j) + minus(j);
    lemma_total_scale(f, delta as int, n);
    lemma_total_scale(g, -1, n);
    lemma_total_add(scaled, minus, n);
    lemma_mul_is_commutative(total(f, n), delta as int);
    assert forall|j: nat| j < n implies #[trigger] d(j) == weight(j) * (log(next[j as int]) * delta
        - log(prev[j as int])) by {
        let (x, y, w) = (log(next[j as int]) as int, log(prev[j as int]) as int, weight(j));
        assert(delta as int * (x * w) + -1 * (y * w) == w * (x * delta - y)) by (nonlinear_arith);
    }
    assert forall|j: nat| j < n && j != at implies same(#[trigger] d(j), 0, m) by {
        assert(log(prev[j as int]) == mul_mod(log(next[j as int]), delta, m as nat));
        let x = (log(next[j as int]) * delta) as int;
        let y = log(prev[j as int]) as int;
        lemma_mod_twice(x, m);
        lemma_same_mul(-1, -1, y, x, m);
        lemma_same_add(x, x, -1 * y, -1 * x, m);
        lemma_same_mul(weight(j), weight(j), x - y, 0, m);
        assert(weight(j) * 0 == 0);
    }
    lemma_total_single(d, at, n, m);
}

/// A difference that vanishes after multiplication by scalars that have inverses was none.
proof fn lemma_no_difference<F: PrimeField>(weight: nat, x: nat, y: nat, delta: nat)
    requires
        prime_order::<F>(),
        F::order() > 1,
        0 < weight < F::order(),
        0 < delta < F::order(),
        x < F::order(),
        y < F::order(),
        same(
            weight * (x * delta - mul_mod(y, delta, F::order())),
            0,
            F::order() as int,
        ),
    ensures
        x == y,
{
    let order = F::order();
    let m = order as int;
    let (a, b) = (mul_mod(x, delta, order), mul_mod(y, delta, order));
    lemma_mul_mod(x, delta, 1, order);
    lemma_mul_mod(y, delta, 1, order);
    // weight a == weight b
    lemma_mod_twice((x * delta) as int, m);
    lemma_same_mul(-1, -1, b as int, b as int, m);
    lemma_same_add(a as int, (x * delta) as int, -1 * b, -1 * b, m);
    lemma_same_mul(weight as int, weight as int, a - b, x * delta - b, m);
    let p = (weight * b) as int;
    lemma_same_add(weight * (a - b), 0, p, p, m);
    assert(weight * (a - b) + weight * b == weight * a) by (nonlinear_arith);
    lemma_mul_mod(a, weight, 1, order);
    lemma_mul_mod(b, weight, 1, order);
    lemma_cancel::<F>(a, b, weight);
    lemma_cancel::<F>(x, y, delta);
}

/// What a contribution makes of a partial key in its groups: the deltas are multiplied by the
/// scalar, and every point of both queries is divided by it.
pub proof fn law_contribution_multiplies_and_divides<E: Pairing>(
    key: PartialKeyModel<E>,
    delta: nat,
)
    requires
        full_orders::<E>(),
        in_group(key.delta_g1) && in_group(key.delta_g2),
        all_in_group(key.h_query) && all_in_group(key.l_query),
        0 < delta < E::ScalarField::order(),
    ensures
        ({
            let after = key.contributed(delta);
            let order = E::ScalarField::order();
            &&& in_group(after.delta_g1) && in_group(after.delta_g2)
            &&& all_in_group(after.h_query) && all_in_group(after.l_query)
            &&& log(after.delta_g1) == mul_mod(log(key.delta_g1), delta, order)
            &&& log(after.delta_g2) == mul_mod(log(key.delta_g2), delta, order)
            &&& after.h_query.len() == key.h_query.len()
            &&& after.l_query.len() == key.l_query.len()
            &&& forall|i: int|
                0 <= i < key.h_query.len() ==> mul_mod(log(after.h_query[i]), delta, order) == log(
                    #[trigger] key.h_query[i],
                )
            &&& forall|i: int|
                0 <= i < key.l_query.len() ==> mul_mod(log(after.l_query[i]), delta, order) == log(
                    #[trigger] key.l_query[i],
                )
        }),
{
    let order = E::ScalarField::order();
    let after = key.contributed(delta);
    let inverse = inverse_mod(delta, order);
    lemma_order::<E::G1Affine>();
    lemma_invertible::<E::ScalarField>(delta);
    law_contribution_stays_in_groups(key, delta);
    lemma_multiple_in_group(key.delta_g1, delta);
    lemma_multiple_in_group(key.delta_g2, delta);
    assert forall|i: int| 0 <= i < key.h_query.len() implies mul_mod(
        log(after.h_query[i]),
        delta,
        order,
    ) == log(#[trigger] key.h_query[i]) by {
        lemma_divided(key.h_query[i], inverse, delta);
    }
    assert forall|i: int| 0 <= i < key.l_query.len() implies mul_mod(
        log(after.l_query[i]),
        delta,
        order,
    ) == log(#[trigger] key.l_query[i]) by {
        lemma_divided(key.l_query[i], inverse, delta);
    }
}

proof fn lemma_divided<A: GroupModel>(point: A, inverse: nat, delta: nat)
    requires
        full_order::<A>(),
        in_group(point),
        mul_mod(inverse, delta, A::ScalarField::order()) == 1,
    ensures
        mul_mod(log(multiple(point, inverse)), delta, A::ScalarField::order()) == log(point),
{
    let order = A::ScalarField::order();
    lemma_order::<A>();
    lemma_multiple_in_group(point, inverse);
    lemma_mul_mod(log(point), inverse, delta, order);
    lemma_exp_log(point);
    lemma_small_mod(log(point), order);
    assert(log(point) * 1 == log(point));
}

/// A query in which one point is not what the contribution makes of it, at whatever position, does
/// not add up, unless the scalar drawn for it is zero.
proof fn lemma_changed_query<E: Pairing>(
    query: Seq<E::G1Affine>,
    divided: Seq<E::G1Affine>,
    delta: nat,
    at: nat,
    other: E::G1Affine,
)
    requires
        full_orders::<E>(),
        all_in_group(query),
        all_in_group(divided),
        in_group(other),
        query.len() == divided.len(),
        at < query.len(),
        0 < delta < E::ScalarField::order(),
        forall|i: int|
            0 <= i < query.len() ==> mul_mod(
                log(divided[i]),
                delta,
                E::ScalarField::order(),
            ) == log(#[trigger] query[i]),
        other != divided[at as int],
        draw::<E::ScalarField>(
            blake3_hash(merge_input(divided.update(at as int, other), query)),
            at,
        ) != 0,
    ensures
        !same(
            merged_log(
                divided.update(at as int, other),
                divided.update(at as int, other),
                query,
            ) * delta,
            merged_log(query, divided.update(at as int, other), query),
            E::ScalarField::order() as int,
        ),
{
    let order = E::ScalarField::order();
    let m = order as int;
    let changed = divided.update(at as int, other);
    let seed = blake3_hash(merge_input(changed, query));
    let weight = |i: nat| draw::<E::ScalarField>(seed, i);
    lemma_order::<E::G1Affine>();
    assert forall|j: int| 0 <= j < changed.len() && j != at implies log(#[trigger] query[j])
        == mul_mod(log(changed[j]), delta, order) by {
    }
    lemma_changed_sum(changed, query, weight, delta, at);
    let scalar = E::ScalarField::sampled(seed, draw_position::<E::ScalarField>(seed, at)).0;
    scalar.lemma_value();
    let (x, y) = (merged_log(changed, changed, query) * delta, merged_log(query, changed, query));
    if same(x, y, m) {
        lemma_same_mul(-1, -1, y, x, m);
        lemma_same_add(x, x, -1 * y, -1 * x, m);
        lemma_exp_log(other);
        lemma_exp_log(divided[at as int]);
        assert(log(query[at as int]) == mul_mod(log(divided[at as int]), delta, order));
        lemma_no_difference::<E::ScalarField>(
            scalar.value(),
            log(other),
            log(divided[at as int]),
            delta,
        );
    }
}

/// A query that a contribution divided adds up.
proof fn lemma_divided_adds_up<A: AffineRepr>(query: Seq<A>, divided: Seq<A>, delta: nat)
    requires
        full_order::<A>(),
        query.len() == divided.len(),
        forall|i: int|
            0 <= i < query.len() ==> mul_mod(
                log(divided[i]),
                delta,
                A::ScalarField::order(),
            ) == log(#[trigger] query[i]),
    ensures
        same(
            merged_log(divided, divided, query) * delta,
            merged_log(query, divided, query),
            A::ScalarField::order() as int,
        ),
{
    let m = A::ScalarField::order() as int;
    let n = query.len();
    let seed = blake3_hash(merge_input(divided, query));
    let weight = |i: nat| draw::<A::ScalarField>(seed, i);
    lemma_order::<A>();
    let f = |j: nat| log(divided[j as int]) * weight(j);
    let g = |j: nat| log(query[j as int]) * weight(j);
    let scaled = |j: nat| delta as int * f(j);
    lemma_total_scale(f, delta as int, n);
    lemma_mul_is_commutative(total(f, n), delta as int);
    assert forall|j: nat| j < n implies same(#[trigger] scaled(j), g(j), m) by {
        let x = (log(divided[j as int]) * delta) as int;
        assert(mul_mod(log(divided[j as int]), delta, m as nat) == log(query[j as int]));
        lemma_mod_twice(x, m);
        lemma_same_mul(x, log(query[j as int]) as int, weight(j), weight(j), m);
        let (a, w) = (log(divided[j as int]) as int, weight(j));
        assert(delta as int * (a * w) == (a * delta) * w) by (nonlinear_arith);
    }
    lemma_total_same(scaled, g, n, m);
}

/// The proof that a contribution comes with is one of knowledge of its scalar.
proof fn lemma_generated_proves<E: Pairing>(key: PartialKeyModel<E>, delta: nat)
    requires
        full_orders::<E>(),
        0 < delta < E::ScalarField::order(),
        in_group(
            point_to_match::<E>(key.delta_g1, key.delta_g2, multiple(E::G1Affine::exp(1), delta)),
        ),
    ensures
        ({
            let made = RatioProof::<E>::generated(delta, key.challenge());
            &&& in_group(made.point) && in_group(made.matching_point)
            &&& log(made.point) == delta
            &&& made.point == multiple(E::G1Affine::exp(1), delta)
            &&& proves_knowledge(made, key.delta_g1, key.delta_g2)
        }),
{
    let order = E::ScalarField::order();
    let made = RatioProof::<E>::generated(delta, key.challenge());
    generator_log::<E>();
    lemma_multiple_in_group(E::G1Affine::exp(1), delta);
    lemma_small_mod(delta, order);
    assert(1 * delta == delta);
    law_challenge_is_the_deltas::<E>(
        key.delta_g1,
        key.delta_g2,
        key.h_query,
        key.l_query,
        made.point,
    );
    lemma_multiple_in_group(
        point_to_match::<E>(key.delta_g1, key.delta_g2, made.point),
        delta,
    );
}

/// Every point of a query takes part in its verification: a transform in which a single point of
/// a query, at whatever position, is not what the contribution makes of it, is refused for that
/// query, unless the scalar drawn for the point is zero.
pub proof fn law_every_point_is_verified<E: Pairing>(
    key: PartialKeyModel<E>,
    delta: nat,
    at: nat,
    other: E::G1Affine,
)
    requires
        full_orders::<E>(),
        in_group(key.delta_g1) && in_group(key.delta_g2),
        all_in_group(key.h_query) && all_in_group(key.l_query),
        key.delta_g2 != E::G2Affine::exp(0),
        0 < delta < E::ScalarField::order(),
        in_group(
            point_to_match::<E>(key.delta_g1, key.delta_g2, multiple(E::G1Affine::exp(1), delta)),
        ),
        in_group(other),
    ensures
        ({
            let next = key.contributed(delta);
            let made = RatioProof::<E>::generated(delta, key.challenge());
            let changed = next.h_query.update(at as int, other);
            let scalar = draw::<E::ScalarField>(
                blake3_hash(merge_input(changed, key.h_query)),
                at,
            );
            at < key.h_query.len() && other != next.h_query[at as int] && scalar != 0
                ==> transform_verified(
                key,
                PartialKeyModel { h_query: changed, ..next },
                made,
            ) == Err::<(), ErrorModel>(ErrorModel::InconsistentHChange)
        }),
        ({
            let next = key.contributed(delta);
            let made = RatioProof::<E>::generated(delta, key.challenge());
            let changed = next.l_query.update(at as int, other);
            let scalar = draw::<E::ScalarField>(
                blake3_hash(merge_input(changed, key.l_query)),
                at,
            );
            at < key.l_query.len() && other != next.l_query[at as int] && scalar != 0
                ==> transform_verified(
                key,
                PartialKeyModel { l_query: changed, ..next },
                made,
            ) == Err::<(), ErrorModel>(ErrorModel::InconsistentLChange)
        }),
{
    let next = key.contributed(delta);
    let made = RatioProof::<E>::generated(delta, key.challenge());
    law_contribution_multiplies_and_divides(key, delta);
    lemma_generated_proves(key, delta);
    if at < key.h_query.len() {
        let changed = next.h_query.update(at as int, other);
        let h = PartialKeyModel { h_query: changed, ..next };
        if other != next.h_query[at as int] && draw::<E::ScalarField>(
            blake3_hash(merge_input(changed, key.h_query)),
            at,
        ) != 0 {
            lemma_changed_query::<E>(key.h_query, next.h_query, delta, at, other);
            assert(all_in_group(changed));
            law_transform_is_decided(key, h, made);
        }
    }
    if at < key.l_query.len() {
        let changed = next.l_query.update(at as int, other);
        let l = PartialKeyModel { l_query: changed, ..next };
        if other != next.l_query[at as int] && draw::<E::ScalarField>(
            blake3_hash(merge_input(changed, key.l_query)),
            at,
        ) != 0 {
            lemma_changed_query::<E>(key.l_query, next.l_query, delta, at, other);
            lemma_divided_adds_up(key.h_query, next.h_query, delta);
            assert(all_in_group(changed));
            law_transform_is_decided(key, l, made);
        }
    }
}

/// What a contribution makes of a transcript: the part of the key that contributions change is
/// contributed to, everything else is as it was, and one contribution more is recorded, with the
/// new deltas and a proof of knowledge of the scalar for the deltas before.
pub proof fn law_contribution_is_recorded<E: Pairing>(
    transcript: TranscriptModel<E>,
    delta: nat,
    eth_address: [u8; 20],
    eth_signature: [u8; 65],
)
    ensures
        ({
            let after = transcript.contributed(delta, eth_address, eth_signature);
            let (key, was) = (after.key, transcript.key);
            let count = transcript.contributions.len();
            let own = after.contributions[count as int];
            let changed = PartialKeyModel::<E> {
                delta_g1: was.delta_g1,
                delta_g2: was.vk.delta_g2,
                h_query: was.h_query,
                l_query: was.l_query,
            }.contributed(delta);
            &&& key.delta_g1 == changed.delta_g1
            &&& key.vk.delta_g2 == changed.delta_g2
            &&& key.h_query == changed.h_query
            &&& key.l_query == changed.l_query
            &&& key.vk.alpha_g1 == was.vk.alpha_g1
            &&& key.vk.beta_g2 == was.vk.beta_g2
            &&& key.vk.gamma_g2 == was.vk.gamma_g2
            &&& key.vk.gamma_abc_g1 == was.vk.gamma_abc_g1
            &&& key.beta_g1 == was.beta_g1
            &&& key.a_query == was.a_query
            &&& key.b_g1_query == was.b_g1_query
            &&& key.b_g2_query == was.b_g2_query
            &&& after.initial_key == transcript.initial_key
            &&& after.contributions.len() == count + 1
            &&& forall|i: int|
                0 <= i < count ==> #[trigger] after.contributions[i]
                    == transcript.contributions[i]
            &&& own.delta_g1 == key.delta_g1
            &&& own.delta_g2 == key.vk.delta_g2
            &&& own.eth_address == eth_address
            &&& own.eth_signature == eth_signature
            &&& own.proof.point == multiple(E::G1Affine::exp(1), delta)
            &&& own.proof.matching_point == multiple(
                point_to_match::<E>(
                    was.delta_g1,
                    was.vk.delta_g2,
                    multiple(E::G1Affine::exp(1), delta),
                ),
                delta,
            )
        }),
{
    let was = transcript.key;
    law_challenge_is_the_deltas::<E>(
        was.delta_g1,
        was.vk.delta_g2,
        was.h_query,
        was.l_query,
        multiple(E::G1Affine::exp(1), delta),
    );
}

/// Whether all but what contributions change is the same in two transcripts.
pub open spec fn same_start<E: Pairing>(a: TranscriptModel<E>, b: TranscriptModel<E>) -> bool {
    &&& same_initial_key(a, b)
    &&& a.key.beta_g1 == b.key.beta_g1
    &&& a.key.a_query == b.key.a_query
    &&& a.key.b_g1_query == b.key.b_g1_query
    &&& a.key.b_g2_query == b.key.b_g2_query
    &&& a.key.vk.alpha_g1 == b.key.vk.alpha_g1
    &&& a.key.vk.beta_g2 == b.key.vk.beta_g2
    &&& a.key.vk.gamma_g2 == b.key.vk.gamma_g2
    &&& a.key.vk.gamma_abc_g1 == b.key.vk.gamma_abc_g1
}

/// Whether two transcripts start from the same partial key.
pub open spec fn same_initial_key<E: Pairing>(
    a: TranscriptModel<E>,
    b: TranscriptModel<E>,
) -> bool {
    &&& a.initial_key.delta_g1 == b.initial_key.delta_g1
    &&& a.initial_key.delta_g2 == b.initial_key.delta_g2
    &&& a.initial_key.h_query == b.initial_key.h_query
    &&& a.initial_key.l_query == b.initial_key.l_query
}

/// A transcript is accepted against an initial one only where it starts from the same partial key
/// and its whole key, but for what contributions change, is the initial one's, point by point.
/// Then it is verified as it is without an initial one, and else it is refused as another key.
pub proof fn law_accepted_start_is_the_same<E: Pairing>(
    transcript: TranscriptModel<E>,
    initial: TranscriptModel<E>,
)
    ensures
        transcript.verified_from(initial) is Ok ==> same_start(transcript, initial)
            && transcript.verified() is Ok,
        same_start(transcript, initial) ==> transcript.verified_from(initial)
            == transcript.verified(),
        !same_start(transcript, initial) ==> (transcript.verified_from(initial) matches Err(
            ErrorModel::InvalidKey(_),
        )),
        same_start(transcript, initial) && transcript.verifiable()
            ==> transcript.verifiable_from(initial),
        !same_start(transcript, initial) ==> transcript.verifiable_from(initial),
{
    if same_initial_key(transcript, initial) {
        assert(transcript.initial_key == initial.initial_key);
    }
}

/// The part in which alone a transcript does not start as an initial one is named.
pub proof fn law_other_part_is_named<E: Pairing>(
    transcript: TranscriptModel<E>,
    initial: TranscriptModel<E>,
    part: Seq<char>,
)
    requires
        ({
            let (a, b) = (transcript.key, initial.key);
            // Every part but the named one is the same.
            &&& same_initial_key(transcript, initial) || part == "initial_key"@
            &&& a.beta_g1 == b.beta_g1 || part == "pk: beta_g1"@
            &&& a.a_query == b.a_query || part == "pk: a_query"@
            &&& a.b_g1_query == b.b_g1_query || part == "pk: b_g1"@
            &&& a.b_g2_query == b.b_g2_query || part == "pk: b_g2"@
            &&& a.vk.alpha_g1 == b.vk.alpha_g1 || part == "vk: alpha_g1"@
            &&& a.vk.beta_g2 == b.vk.beta_g2 || part == "vk: beta_g2"@
            &&& a.vk.gamma_g2 == b.vk.gamma_g2 || part == "vk: gamma_g2"@
            &&& a.vk.gamma_abc_g1 == b.vk.gamma_abc_g1 || part == "vk: gamma_abc_g1"@
            &&& !same_start(transcript, initial)
        }),
    ensures
        transcript.verified_from(initial) == Err::<(), ErrorModel>(ErrorModel::InvalidKey(part)),
{
    if same_initial_key(transcript, initial) {
        assert(transcript.initial_key == initial.initial_key);
    }
}

/// The comparison of a query with what it was, by the pairings of what both merge to with the
/// deltas.
pub open spec fn query_comparison<E: Pairing>(
    next: Seq<E::G1Affine>,
    prev: Seq<E::G1Affine>,
    prev_delta: E::G2Affine,
    next_delta: E::G2Affine,
) -> Option<bool> {
    let seed = blake3_hash(merge_input(next, prev));
    pairings_equal::<E>(
        drawn_sum(next, seed, next.len()),
        next_delta,
        drawn_sum(prev, seed, prev.len()),
        prev_delta,
    )
}

/// The comparison of a proof with the point that it has to match.
pub open spec fn proof_comparison<E: Pairing>(
    proof_made: RatioProof<E>,
    delta_g1: E::G1Affine,
    delta_g2: E::G2Affine,
) -> Option<bool> {
    pairings_equal::<E>(
        E::G1Affine::exp(1),
        proof_made.matching_point,
        proof_made.point,
        point_to_match::<E>(delta_g1, delta_g2, proof_made.point),
    )
}

/// The comparison of a change of the delta with the scalar of a proof.
pub open spec fn link_comparison<E: Pairing>(
    proof_made: RatioProof<E>,
    prev: E::G2Affine,
    next: E::G2Affine,
) -> Option<bool> {
    pairings_equal::<E>(E::G1Affine::exp(1), next, proof_made.point, prev)
}

/// The verification of the queries, by the comparisons of both.
pub open spec fn queries_result(h: Option<bool>, l: Option<bool>) -> Result<(), ErrorModel> {
    if h != Some(true) {
        Err(ErrorModel::InconsistentHChange)
    } else if l != Some(true) {
        Err(ErrorModel::InconsistentLChange)
    } else {
        Ok(())
    }
}

/// The verification of a transform is the comparisons of pairings of its points, wherever they
/// lie: of the proof, of the deltas in the second group, of those in the first, and of the merged
/// queries, each only where those before it hold, and it is defined where all of them are.
pub proof fn law_transform_compares_pairings<E: Pairing>(
    prev: PartialKeyModel<E>,
    next: PartialKeyModel<E>,
    proof_made: RatioProof<E>,
)
    ensures
        ({
            let known = proof_comparison(proof_made, prev.delta_g1, prev.delta_g2);
            let linked = link_comparison(proof_made, prev.delta_g2, next.delta_g2);
            let both = pairings_equal::<E>(
                prev.delta_g1,
                next.delta_g2,
                next.delta_g1,
                prev.delta_g2,
            );
            let h = query_comparison::<E>(
                next.h_query,
                prev.h_query,
                prev.delta_g2,
                next.delta_g2,
            );
            let l = query_comparison::<E>(
                next.l_query,
                prev.l_query,
                prev.delta_g2,
                next.delta_g2,
            );
            let hold = known == Some(true) && linked == Some(true) && both == Some(true);
            &&& transform_verified(prev, next, proof_made) == (if hold {
                queries_result(h, l)
            } else {
                Err(ErrorModel::InvalidRatioProof)
            })
            &&& transform_verifiable(prev, next, proof_made) <==> {
                &&& in_group(
                    point_to_match::<E>(prev.delta_g1, prev.delta_g2, proof_made.point),
                ) ==> known is Some
                &&& known == Some(true) ==> linked is Some
                &&& known == Some(true) && linked == Some(true) ==> both is Some
                &&& hold ==> next.h_query.len() == prev.h_query.len() && h is Some
                &&& hold && h == Some(true) ==> next.l_query.len() == prev.l_query.len()
                    && l is Some
            }
        }),
{
    law_challenge_is_the_deltas::<E>(
        prev.delta_g1,
        prev.delta_g2,
        prev.h_query,
        prev.l_query,
        proof_made.point,
    );
    law_merge_adds_all_points(next.h_query, prev.h_query);
    law_merge_adds_all_points(next.l_query, prev.l_query);
}

/// Whether the comparisons of a contribution hold.
pub open spec fn contribution_compares<E: Pairing>(
    transcript: TranscriptModel<E>,
    i: int,
) -> bool {
    let own = transcript.contributions[i];
    &&& proof_comparison(
        own.proof,
        delta_g1_before(transcript, i),
        delta_g2_before(transcript, i),
    ) == Some(true)
    &&& link_comparison(own.proof, delta_g2_before(transcript, i), own.delta_g2) == Some(true)
}

/// The verification of a transcript is the comparisons of pairings of its points, wherever they
/// lie: of every contribution with what was before it, of the deltas in the first group with those
/// in the second, and of the merged queries.
pub proof fn law_transcript_compares_pairings<E: Pairing>(transcript: TranscriptModel<E>)
    ensures
        ({
            let count = transcript.contributions.len() as int;
            let (key, initial) = (transcript.key, transcript.initial_key);
            let both = pairings_equal::<E>(
                initial.delta_g1,
                delta_g2_before(transcript, count),
                key.delta_g1,
                initial.delta_g2,
            );
            let h = query_comparison::<E>(
                key.h_query,
                initial.h_query,
                initial.delta_g2,
                key.vk.delta_g2,
            );
            let l = query_comparison::<E>(
                key.l_query,
                initial.l_query,
                initial.delta_g2,
                key.vk.delta_g2,
            );
            transcript.verified() == (if both == Some(true) && (forall|i: int|
                0 <= i < count ==> #[trigger] contribution_compares(transcript, i)) {
                queries_result(h, l)
            } else {
                Err(ErrorModel::InvalidRatioProof)
            })
        }),
{
    let count = transcript.contributions.len() as int;
    let (key, initial) = (transcript.key, transcript.initial_key);
    assert forall|i: int| 0 <= i < count implies (#[trigger] transcript.link_holds(i)
        <==> contribution_compares(transcript, i)) by {
        law_challenge_is_the_deltas::<E>(
            delta_g1_before(transcript, i),
            delta_g2_before(transcript, i),
            Seq::empty(),
            Seq::empty(),
            transcript.contributions[i].proof.point,
        );
    }
    if forall|i: int| 0 <= i < count ==> #[trigger] contribution_compares(transcript, i) {
        assert forall|i: int| 0 <= i < count implies #[trigger] transcript.link_holds(i) by {
            assert(contribution_compares(transcript, i));
        }
        assert(transcript.links_hold(count));
    } else {
        let i = choose|i: int| 0 <= i < count && !#[trigger] contribution_compares(transcript, i);
        assert(!transcript.link_holds(i));
    }
    law_merge_adds_all_points(key.h_query, initial.h_query);
    law_merge_adds_all_points(key.l_query, initial.l_query);
}

/// The verification of a transcript is defined where all pairings that it can come to are, and the
/// queries have the lengths that they had at first.
pub proof fn law_transcript_with_pairings_is_verifiable<E: Pairing>(transcript: TranscriptModel<E>)
    requires
        forall|i: int|
            0 <= i < transcript.contributions.len() ==> {
                let own = (#[trigger] transcript.contributions[i]).proof;
                &&& proof_comparison(
                    own,
                    delta_g1_before(transcript, i),
                    delta_g2_before(transcript, i),
                ) is Some
                &&& link_comparison(
                    own,
                    delta_g2_before(transcript, i),
                    transcript.contributions[i].delta_g2,
                ) is Some
            },
        pairings_equal::<E>(
            transcript.initial_key.delta_g1,
            delta_g2_before(transcript, transcript.contributions.len() as int),
            transcript.key.delta_g1,
            transcript.initial_key.delta_g2,
        ) is Some,
        transcript.key.h_query.len() == transcript.initial_key.h_query.len(),
        transcript.key.l_query.len() == transcript.initial_key.l_query.len(),
        query_comparison::<E>(
            transcript.key.h_query,
            transcript.initial_key.h_query,
            transcript.initial_key.delta_g2,
            transcript.key.vk.delta_g2,
        ) is Some,
        query_comparison::<E>(
            transcript.key.l_query,
            transcript.initial_key.l_query,
            transcript.initial_key.delta_g2,
            transcript.key.vk.delta_g2,
        ) is Some,
    ensures
        transcript.verifiable(),
{
    let (key, initial) = (transcript.key, transcript.initial_key);
    assert forall|i: int| 0 <= i < transcript.contributions.len() implies
        #[trigger] transcript.link_comparable(i) by {
        law_challenge_is_the_deltas::<E>(
            delta_g1_before(transcript, i),
            delta_g2_before(transcript, i),
            Seq::empty(),
            Seq::empty(),
            transcript.contributions[i].proof.point,
        );
    }
    law_merge_adds_all_points(key.h_query, initial.h_query);
    law_merge_adds_all_points(key.l_query, initial.l_query);
}

/// A proof for a challenge and a scalar has the generator times the scalar for its point, and for
/// the matching point the point that is drawn from the challenge, the generator and that point,
/// times the scalar. It holds where the pairings of the two are the same.
pub proof fn law_proofs_match_the_drawn_point<E: Pairing>(
    challenge: Seq<u8>,
    delta: nat,
    other: RatioProof<E>,
)
    ensures
        ({
            let generator = E::G1Affine::exp(1);
            let drawn = |point: E::G1Affine|
                E::G2Affine::sampled_point(
                    blake3_hash(
                        challenge + E::G1Affine::encoding(generator, true)
                            + E::G1Affine::encoding(point, true),
                    ),
                    0,
                ).0;
            let made = RatioProof::<E>::generated(delta, challenge);
            let compared = pairings_equal::<E>(
                generator,
                other.matching_point,
                other.point,
                drawn(other.point),
            );
            &&& made.point == multiple(generator, delta)
            &&& made.matching_point == multiple(drawn(made.point), delta)
            &&& other.holds(challenge) <==> compared == Some(true)
            &&& other.verifiable(challenge) <==> (in_group(drawn(other.point)) ==> compared is Some)
        }),
{
}

/// What a contribution makes of a partial key, wherever its points lie: the deltas times the
/// scalar, and every point of both queries times the scalar's inverse.
pub proof fn law_key_contribution_goes_point_by_point<E: Pairing>(
    key: PartialKeyModel<E>,
    delta: nat,
    inverse: nat,
)
    requires
        1 < E::ScalarField::order(),
        inverse < E::ScalarField::order(),
        (inverse * delta) % E::ScalarField::order() == 1,
    ensures
        ({
            let after = key.contributed(delta);
            &&& after.delta_g1 == multiple(key.delta_g1, delta)
            &&& after.delta_g2 == multiple(key.delta_g2, delta)
            &&& after.h_query.len() == key.h_query.len()
            &&& after.l_query.len() == key.l_query.len()
            &&& forall|i: int|
                0 <= i < key.h_query.len() ==> after.h_query[i] == multiple(
                    #[trigger] key.h_query[i],
                    inverse,
                )
            &&& forall|i: int|
                0 <= i < key.l_query.len() ==> after.l_query[i] == multiple(
                    #[trigger] key.l_query[i],
                    inverse,
                )
        }),
{
    lemma_inverse_mod(delta, inverse, E::ScalarField::order());
}

/// The witnesses that no constraint binds are those whose points in the `l` query are zero.
pub proof fn law_unconstrained_variables_are_counted<E: Pairing>(transcript: TranscriptModel<E>)
    ensures
        transcript.unconstrained() == total(
            |i: nat|
                if transcript.key.l_query[i as int] == E::G1Affine::exp(0) {
                    1
                } else {
                    0
                },
            transcript.key.l_query.len(),
        ),
{
    lemma_filter_count::<E>(transcript.key.l_query);
}

proof fn lemma_filter_count<E: Pairing>(points: Seq<E::G1Affine>)
    ensures
        points.filter(|point: E::G1Affine| point == E::G1Affine::exp(0)).len() == total(
            |i: nat|
                if points[i as int] == E::G1Affine::exp(0) {
                    1
                } else {
                    0
                },
            points.len(),
        ),
    decreases points.len(),
{
    reveal(Seq::filter);
    if points.len() > 0 {
        let rest = points.drop_last();
        lemma_filter_count::<E>(rest);
        let f = |i: nat|
            if points[i as int] == E::G1Affine::exp(0) {
                1int
            } else {
                0
            };
        let g = |i: nat|
            if rest[i as int] == E::G1Affine::exp(0) {
                1int
            } else {
                0
            };
        assert forall|i: nat| i < rest.len() implies #[trigger] f(i) == g(i) by {
            assert(rest[i as int] == points[i as int]);
        }
        lemma_total_equal(f, g, rest.len());
    }
}

} // verus!
