use vstd::arithmetic::power::{lemma_pow0, lemma_pow1, lemma_pow_adds, pow};
use vstd::bytes::{
    lemma_auto_spec_u64_to_from_le_bytes, spec_u64_from_le_bytes, spec_u64_to_le_bytes,
};
use vstd::prelude::*;
use vstd::utf8::{encode_utf8, encode_utf8_decode_utf8};

use crate::accumulator::PreparedModel;
use crate::canonical::{items_encoding, reads_back, CanonicalModel};
use crate::ceremony_files::lemma_shifted;
use crate::context::ContributionContext;
use crate::curve::{
    in_group, log, multiple, pairings_equal, AffineRepr, GroupModel, Pairing, ScalarModel,
};
use crate::error::{ErrorModel, SynthesisError};
use crate::key::{PartialKeyModel, ProvingKeyModel};
use crate::keypair::PublicKey;
use crate::rng::{blake3_hash, SeededRng};
use crate::text::{decimal_text, digit_text};
use crate::transcript::Transcript;
use crate::transform::total;
use crate::utils::{
    affine_points, lemma_points_value, multiples, same_ratio_defined, same_ratio_spec,
    same_ratio_swap_defined, same_ratio_swap_spec, seeded_rng_spec, Projective,
};
use crate::writing::{concatenated, lemma_concatenated_equal};

verus! {

/// A vector of points: their number in eight bytes, and the encodings one behind the other.
pub open spec fn points_bytes<A: AffineRepr>(points: Seq<A>, compress: bool) -> Seq<u8> {
    spec_u64_to_le_bytes(points.len() as u64) + concatenated(
        |i: nat| A::encoding(points[i as int], compress),
        points.len(),
    )
}

proof fn lemma_items<T: CanonicalModel>(values: Seq<T::Value>, compress: bool, count: nat)
    ensures
        items_encoding::<T>(values, count, compress) == concatenated(
            |i: nat| T::encoding(values[i as int], compress),
            count,
        ),
    decreases count,
{
    if count > 0 {
        lemma_items::<T>(values, compress, (count - 1) as nat);
    }
}

/// A vector is encoded as the number of its values in eight bytes, and all of its values, one
/// behind the other.
pub proof fn law_vectors_are_encoded<T: CanonicalModel>(values: Seq<T::Value>, compress: bool)
    ensures
        <Vec<T> as CanonicalModel>::encoding(values, compress) == spec_u64_to_le_bytes(
            values.len() as u64,
        ) + concatenated(|i: nat| T::encoding(values[i as int], compress), values.len()),
{
    lemma_items::<T>(values, compress, values.len());
}

/// A vector that is read with validation has every value valid.
pub proof fn law_read_vectors_are_valid<T: CanonicalModel>(bytes: Seq<u8>, compress: bool)
    ensures
        <Vec<T> as CanonicalModel>::decoding(bytes, compress, true) matches Ok((values, _))
            ==> forall|i: int| 0 <= i < values.len() ==> T::valid(#[trigger] values[i]),
{
}

/// Prepared powers are stored with their points compressed: `alpha`, `beta` and `beta` in the second
/// group, and then the vectors of `tau` in both groups, of `alpha`, of `beta` and of the `h` query.
pub proof fn law_prepared_powers_are_stored<E: Pairing>(prepared: PreparedModel<E>)
    ensures
        prepared.stored() == E::G1Affine::encoding(prepared.alpha, true) + (E::G1Affine::encoding(
            prepared.beta,
            true,
        ) + (E::G2Affine::encoding(prepared.beta_g2, true) + (points_bytes(
            prepared.tau_lagrange_g1,
            true,
        ) + (points_bytes(prepared.tau_lagrange_g2, true) + (points_bytes(
            prepared.alpha_lagrange_g1,
            true,
        ) + (points_bytes(prepared.beta_lagrange_g1, true) + points_bytes(
            prepared.h_query,
            true,
        ))))))),
{
    law_vectors_are_encoded::<E::G1Affine>(prepared.tau_lagrange_g1, true);
    law_vectors_are_encoded::<E::G2Affine>(prepared.tau_lagrange_g2, true);
    law_vectors_are_encoded::<E::G1Affine>(prepared.alpha_lagrange_g1, true);
    law_vectors_are_encoded::<E::G1Affine>(prepared.beta_lagrange_g1, true);
    law_vectors_are_encoded::<E::G1Affine>(prepared.h_query, true);
}

/// The bytes of a contribution: its deltas, the points of its proof, and the contributor's address
/// and signature.
pub open spec fn contribution_bytes<E: Pairing>(own: PublicKey<E>, compress: bool) -> Seq<u8> {
    E::G1Affine::encoding(own.delta_g1, compress) + (E::G2Affine::encoding(own.delta_g2, compress)
        + ((E::G1Affine::encoding(own.proof.point, compress) + E::G2Affine::encoding(
        own.proof.matching_point,
        compress,
    )) + (own.eth_address@ + own.eth_signature@)))
}

/// The bytes of a partial key: its deltas and its queries.
pub open spec fn partial_key_bytes<E: Pairing>(key: PartialKeyModel<E>, compress: bool) -> Seq<
    u8,
> {
    E::G1Affine::encoding(key.delta_g1, compress) + (E::G2Affine::encoding(key.delta_g2, compress)
        + (points_bytes(key.h_query, compress) + points_bytes(key.l_query, compress)))
}

/// The bytes of a proving key: the verifying key, the single points, and the queries.
pub open spec fn proving_key_bytes<E: Pairing>(key: ProvingKeyModel<E>, compress: bool) -> Seq<
    u8,
> {
    (E::G1Affine::encoding(key.vk.alpha_g1, compress) + (E::G2Affine::encoding(
        key.vk.beta_g2,
        compress,
    ) + (E::G2Affine::encoding(key.vk.gamma_g2, compress) + (E::G2Affine::encoding(
        key.vk.delta_g2,
        compress,
    ) + points_bytes(key.vk.gamma_abc_g1, compress))))) + (E::G1Affine::encoding(
        key.beta_g1,
        compress,
    ) + (E::G1Affine::encoding(key.delta_g1, compress) + (points_bytes(key.a_query, compress) + (
    points_bytes(key.b_g1_query, compress) + (points_bytes(key.b_g2_query, compress) + (
    points_bytes(key.h_query, compress) + points_bytes(key.l_query, compress)))))))
}

proof fn lemma_vector<A: AffineRepr>(points: Vec<A>, compress: bool)
    ensures
        <Vec<A> as CanonicalModel>::encoding(points.value_of(), compress) == points_bytes(
            points@,
            compress,
        ),
{
    lemma_points_value(points);
    law_vectors_are_encoded::<A>(points@, compress);
}

/// A transcript is encoded as its key, the partial key that it started from, and the contributions
/// behind their number.
pub proof fn law_transcripts_are_encoded<E: Pairing>(transcript: Transcript<E>, compress: bool)
    ensures
        <Transcript<E> as CanonicalModel>::encoding(transcript.value_of(), compress)
            == proving_key_bytes(transcript@.key, compress) + (partial_key_bytes(
            transcript@.initial_key,
            compress,
        ) + (spec_u64_to_le_bytes(transcript@.contributions.len() as u64) + concatenated(
            |i: nat| contribution_bytes(transcript@.contributions[i as int], compress),
            transcript@.contributions.len(),
        ))),
{
    let key = transcript.key.key;
    key.vk.alpha_g1.lemma_canonical();
    key.vk.beta_g2.lemma_canonical();
    key.vk.gamma_g2.lemma_canonical();
    key.vk.delta_g2.lemma_canonical();
    key.beta_g1.lemma_canonical();
    key.delta_g1.lemma_canonical();
    lemma_vector(key.vk.gamma_abc_g1, compress);
    lemma_vector(key.a_query, compress);
    lemma_vector(key.b_g1_query, compress);
    lemma_vector(key.b_g2_query, compress);
    lemma_vector(key.h_query, compress);
    lemma_vector(key.l_query, compress);
    let initial = transcript.initial_key;
    initial.delta_g1.lemma_canonical();
    initial.delta_g2.lemma_canonical();
    lemma_vector(initial.h_query, compress);
    lemma_vector(initial.l_query, compress);
    let contributions = transcript.contributions;
    law_vectors_are_encoded::<PublicKey<E>>(contributions.value_of(), compress);
    let f = |i: nat|
        <PublicKey<E> as CanonicalModel>::encoding(contributions.value_of()[i as int], compress);
    let g = |i: nat| contribution_bytes(transcript@.contributions[i as int], compress);
    assert forall|i: nat| i < contributions@.len() implies #[trigger] f(i) == g(i) by {
        let own = contributions@[i as int];
        assert(contributions.value_of()[i as int] == own.value_of());
        own.delta_g1.lemma_canonical();
        own.delta_g2.lemma_canonical();
        own.proof.point.lemma_canonical();
        own.proof.matching_point.lemma_canonical();
    }
    lemma_concatenated_equal(f, g, contributions@.len());
}

/// What is signed for a contribution is the hash of the ceremony, the contribution's number and the
/// circuit, the texts behind the numbers of their bytes, and it is the same only for the same
/// contribution of the same ceremony to the same circuit.
pub proof fn law_signed_bytes_bind_the_context(a: ContributionContext, b: ContributionContext)
    requires
        encode_utf8(a.ceremony_id@).len() <= u64::MAX,
        encode_utf8(b.ceremony_id@).len() <= u64::MAX,
        encode_utf8(a.circuit_id@).len() <= u64::MAX,
        encode_utf8(b.circuit_id@).len() <= u64::MAX,
    ensures
        a.digest() == blake3_hash(
            spec_u64_to_le_bytes(encode_utf8(a.ceremony_id@).len() as u64) + encode_utf8(
                a.ceremony_id@,
            ) + spec_u64_to_le_bytes(a.index) + (spec_u64_to_le_bytes(
                encode_utf8(a.circuit_id@).len() as u64,
            ) + encode_utf8(a.circuit_id@)),
        ),
        a.digest() == blake3_hash(a.signed_bytes()),
        a.signed_bytes() == b.signed_bytes() ==> a.ceremony_id@ == b.ceremony_id@ && a.index
            == b.index && a.circuit_id@ == b.circuit_id@,
{
    lemma_auto_spec_u64_to_from_le_bytes();
    if a.signed_bytes() == b.signed_bytes() {
        let bytes = a.signed_bytes();
        let (x, y) = (encode_utf8(a.ceremony_id@), encode_utf8(b.ceremony_id@));
        let (p, q) = (spec_u64_to_le_bytes(x.len() as u64), spec_u64_to_le_bytes(y.len() as u64));
        assert(bytes.take(8) =~= p);
        assert(b.signed_bytes().take(8) =~= q);
        assert(spec_u64_from_le_bytes(p) == x.len() as u64);
        assert(spec_u64_from_le_bytes(q) == y.len() as u64);
        assert(x.len() == y.len());
        let n = x.len();
        assert(bytes.subrange(8, (8 + n) as int) =~= x);
        assert(b.signed_bytes().subrange(8, (8 + n) as int) =~= y);
        assert(bytes.subrange((8 + n) as int, (16 + n) as int) =~= spec_u64_to_le_bytes(a.index));
        assert(b.signed_bytes().subrange((8 + n) as int, (16 + n) as int)
            =~= spec_u64_to_le_bytes(b.index));
        assert(spec_u64_from_le_bytes(spec_u64_to_le_bytes(a.index)) == a.index);
        assert(spec_u64_from_le_bytes(spec_u64_to_le_bytes(b.index)) == b.index);
        let (v, w) = (encode_utf8(a.circuit_id@), encode_utf8(b.circuit_id@));
        assert(bytes.skip((24 + n) as int) =~= v);
        assert(b.signed_bytes().skip((24 + n) as int) =~= w);
        encode_utf8_decode_utf8(a.ceremony_id@);
        encode_utf8_decode_utf8(b.ceremony_id@);
        encode_utf8_decode_utf8(a.circuit_id@);
        encode_utf8_decode_utf8(b.circuit_id@);
    }
}

/// The number that a character is the digit of.
pub open spec fn digit_of(c: char) -> int {
    c as u32 - '0' as u32
}

proof fn lemma_digit(n: nat)
    requires
        n < 10,
    ensures
        digit_text(n).len() == 1,
        digit_of(digit_text(n)[0]) == n,
{
    reveal_strlit("0");
    reveal_strlit("1");
    reveal_strlit("2");
    reveal_strlit("3");
    reveal_strlit("4");
    reveal_strlit("5");
    reveal_strlit("6");
    reveal_strlit("7");
    reveal_strlit("8");
    reveal_strlit("9");
}

/// A number is written by decimal digits that stand for it, without a zero in front unless it is
/// zero.
pub proof fn law_decimal_digits_stand_for_the_number(n: nat)
    ensures
        ({
            let text = decimal_text(n);
            &&& text.len() > 0
            &&& forall|i: int| 0 <= i < text.len() ==> 0 <= digit_of(#[trigger] text[i]) < 10
            &&& n > 0 ==> digit_of(text[0]) > 0
            &&& n == 0 ==> text.len() == 1
            &&& total(|i: nat| digit_of(text[text.len() - 1 - i]) * pow(10, i), text.len()) == n
        }),
    decreases n,
{
    let text = decimal_text(n);
    let length = text.len();
    let f = |i: nat| digit_of(text[text.len() - 1 - i]) * pow(10, i);
    lemma_pow0(10);
    if n < 10 {
        lemma_digit(n);
        reveal_with_fuel(total, 2);
        assert(f(0) == n);
    } else {
        let rest = decimal_text(n / 10);
        law_decimal_digits_stand_for_the_number(n / 10);
        lemma_digit(n % 10);
        assert(text == rest + digit_text(n % 10));
        assert forall|i: int| 0 <= i < text.len() implies 0 <= digit_of(#[trigger] text[i])
            < 10 by {
            if i < rest.len() {
                assert(text[i] == rest[i]);
            } else {
                assert(text[i] == digit_text(n % 10)[0]);
            }
        }
        assert(text[0] == rest[0]);
        let g = |i: nat| digit_of(rest[rest.len() - 1 - i]) * pow(10, i);
        assert forall|i: nat| i < rest.len() implies #[trigger] f(i + 1) == 10 * g(i) by {
            lemma_pow_adds(10, 1, i);
            lemma_pow1(10);
            let d = digit_of(rest[rest.len() - 1 - i]);
            assert(text[text.len() - 1 - (i + 1)] == rest[rest.len() - 1 - i]);
            assert(d * (10 * pow(10, i)) == 10 * (d * pow(10, i))) by (nonlinear_arith);
        }
        lemma_shifted(f, g, rest.len());
        assert(text[text.len() - 1] == digit_text(n % 10)[0]);
        assert(f(0) == n % 10);
    }
}

/// What errors say: what they are about, and the texts and numbers that they come with.
pub proof fn law_errors_say_their_parts(
    text: Seq<char>,
    other: Seq<char>,
    degree: nat,
    error: SynthesisError,
)
    ensures
        ErrorModel::ConstraintSystem(error).text() == "Constraint System: "@ + error.text(),
        ErrorModel::IO(text).text() == "IO Error: "@ + text,
        ErrorModel::Serialization(text).text() == "Serialization Error: "@ + text,
        ErrorModel::InvariantViolated(text).text() == "Invariant Violation "@ + text,
        ErrorModel::InvalidKey(text).text() == "Invalid key element "@ + text,
        ErrorModel::Read(text).text() == "Read Error: "@ + text,
        ErrorModel::Custom(text).text() == text,
        ErrorModel::NotEnoughPOTDegree(degree).text() == "Too Enough POT Degree, Needed Atleast "@
            + decimal_text(degree),
        ErrorModel::InvalidPOTDegree(degree).text() == "Invalid Power of Tau Degree, Need "@
            + decimal_text(degree),
        ErrorModel::SignatureAddressMismatch(text, other).text()
            == "Signature address mismatch: expected "@ + text + ", got "@ + other,
{
}

/// Two ratios are the same where the pairings across them are, and in the groups that is where the
/// products of the logarithms are.
pub proof fn law_ratios_are_compared_across<E: Pairing>(
    a: E::G1Affine,
    b: E::G1Affine,
    c: E::G2Affine,
    d: E::G2Affine,
)
    ensures
        same_ratio_defined::<E>((a, c), (b, d)) <==> pairings_equal::<E>(a, c, b, d) is Some,
        same_ratio_spec::<E>((a, c), (b, d)) <==> pairings_equal::<E>(a, c, b, d) == Some(true),
        same_ratio_swap_defined::<E>((a, b), (c, d)) <==> pairings_equal::<E>(
            a,
            d,
            b,
            c,
        ) is Some,
        same_ratio_swap_spec::<E>((a, b), (c, d)) <==> pairings_equal::<E>(a, d, b, c) == Some(
            true,
        ),
        in_group(a) && in_group(b) && in_group(c) && in_group(d) ==> {
            let m = E::ScalarField::order();
            &&& same_ratio_swap_defined::<E>((a, b), (c, d))
            &&& same_ratio_swap_spec::<E>((a, b), (c, d)) <==> (log(a) * log(d)) % m == (log(b)
                * log(c)) % m
            &&& same_ratio_spec::<E>((a, c), (b, d)) <==> (log(a) * log(c)) % m == (log(b) * log(
                d,
            )) % m
        },
{
}

/// The part of a key that contributions change is its deltas and two of its queries, and a key with
/// another such part is the same otherwise.
pub proof fn law_part_of_a_key<E: Pairing>(key: ProvingKeyModel<E>, part: PartialKeyModel<E>)
    ensures
        key.partial().delta_g1 == key.delta_g1,
        key.partial().delta_g2 == key.vk.delta_g2,
        key.partial().h_query == key.h_query,
        key.partial().l_query == key.l_query,
        key.with_partial(part).partial() == part,
        key.with_partial(key.partial()) == key,
{
    assert(key.with_partial(key.partial()).vk == key.vk);
}

/// Vectors are multiplied and taken out of the form that is computed with point by point.
pub proof fn law_vectors_are_taken_point_by_point<A: AffineRepr>(
    points: Seq<A>,
    elements: Seq<Projective<A>>,
    k: nat,
)
    ensures
        multiples(points, k).len() == points.len(),
        forall|i: int|
            0 <= i < points.len() ==> #[trigger] multiples(points, k)[i] == multiple(points[i], k),
        affine_points(elements).len() == elements.len(),
        forall|i: int|
            0 <= i < elements.len() ==> #[trigger] affine_points(elements)[i]
                == elements[i].point,
{
}

/// What is said to be read back is read as the value that was written, whatever follows it and
/// whether it is validated or not, and is not read where its end is missing.
pub proof fn law_what_is_written_is_read_back<T: CanonicalModel>(
    value: T::Value,
    compress: bool,
    validate: bool,
    tail: Seq<u8>,
    count: nat,
)
    requires
        reads_back::<T>(value, compress),
    ensures
        T::decoding(T::encoding(value, compress) + tail, compress, validate) == Ok::<
            (T::Value, nat),
            Seq<char>,
        >((value, T::encoding(value, compress).len())),
        count < T::encoding(value, compress).len() ==> T::decoding(
            T::encoding(value, compress).take(count as int),
            compress,
            validate,
        ) is Err,
{
}

/// A generator that is seeded with bytes starts at the beginning of the key stream of their hash.
pub proof fn law_generators_are_seeded_with_hashes(bytes: Seq<u8>, rng: SeededRng)
    ensures
        seeded_rng_spec(bytes, rng) <==> rng.seed@ == blake3_hash(bytes) && rng.position == 0,
{
}

} // verus!
