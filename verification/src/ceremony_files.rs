use vstd::arithmetic::power::{lemma_pow0, lemma_pow1, lemma_pow_adds, pow};
use vstd::arithmetic::power2::{lemma2_to64, lemma2_to64_rest, lemma_pow2_pos, pow2};
use vstd::prelude::*;
use vstd::string::StringSliceAdditionalSpecFns;

use crate::accumulator::{AccumulatorModel, PreparedModel};
use crate::algebra::full_orders;
use crate::curve::{all_in_group, fft, in_group, sum, GroupModel, ScalarModel};
use crate::error::ErrorModel;
use crate::laws::{law_unprepare_inverts_prepare, lemma_ifft_in_group};
use crate::math::le_value;
use crate::ptau::{
    first_section, lemma_first_section, lemma_sections_failure, lemma_within, ptau_counts,
    ptau_file, ptau_g1_section, ptau_g2_section, ptau_power, ptau_sections, ptau_table, SeekLimit,
};
use crate::qap::lemma_domain_of;
use crate::radix::{
    after_marker, decimal_value, is_digit, marker, marker_at, name_bytes, parsed_usize,
    radix_contents, radix_file, radix_powers, radix_size, unsigned_digits,
};
use crate::reader::{
    bytes_at, number_at, points, ptau_g1_source, ptau_g2_source, radix_g1_source, radix_g2_source,
    Defect, PairingReader, ReadErrorModel,
};
use crate::transform::total;
use crate::writing::{
    big_endian_bytes, big_endian_pieces, concatenated, lemma_concatenated_length, lemma_piece,
    lemma_to_be, lemma_to_le, montgomery_bytes, swapped, to_le,
};

verus! {

/// A section of a ptau file: its type, the length of its contents, and the contents.
pub open spec fn section_bytes(part: (u32, Seq<u8>)) -> Seq<u8> {
    to_le(part.0 as nat, 4) + to_le(part.1.len(), 8) + part.1
}

/// The sections of a ptau file.
pub open spec fn section_pieces(parts: Seq<(u32, Seq<u8>)>) -> spec_fn(nat) -> Seq<u8> {
    |i: nat| section_bytes(parts[i as int])
}

/// A ptau file: eight bytes for its kind and version, the number of sections, and the sections.
pub open spec fn ptau_bytes(head: Seq<u8>, parts: Seq<(u32, Seq<u8>)>) -> Seq<u8> {
    head + to_le(parts.len(), 4) + concatenated(section_pieces(parts), parts.len())
}

/// Whether `contents` start with `expected`.
pub open spec fn starts_with(contents: Seq<u8>, expected: Seq<u8>) -> bool {
    expected.len() <= contents.len() && contents.take(expected.len() as int) == expected
}

/// The bytes of a point of the first group in a ptau file.
pub open spec fn ptau_g1_bytes<E: PairingReader>(point: E::G1Affine) -> Seq<u8> {
    montgomery_bytes(E::g1_elements(point), E::element_length(), E::modulus())
}

/// The bytes of a point of the second group in a ptau file.
pub open spec fn ptau_g2_bytes<E: PairingReader>(point: E::G2Affine) -> Seq<u8> {
    montgomery_bytes(E::g2_elements(point), E::element_length(), E::modulus())
}

pub open spec fn ptau_g1_pieces<E: PairingReader>(points: Seq<E::G1Affine>) -> spec_fn(
    nat,
) -> Seq<u8> {
    |i: nat| ptau_g1_bytes::<E>(points[i as int])
}

pub open spec fn ptau_g2_pieces<E: PairingReader>(points: Seq<E::G2Affine>) -> spec_fn(
    nat,
) -> Seq<u8> {
    |i: nat| ptau_g2_bytes::<E>(points[i as int])
}

/// The header section: the order of the base field behind the number of its bytes, and the powers
/// of the file and of the ceremony.
pub open spec fn ptau_header<E: PairingReader>(power: nat, ceremony_power: nat) -> Seq<u8> {
    to_le(E::element_length(), 4) + to_le(E::modulus(), E::element_length()) + to_le(power, 4)
        + to_le(ceremony_power, 4)
}

/// Whether a point can be written: it is on the curve, and its coordinates are reduced.
pub open spec fn writable_g1<E: PairingReader>(point: E::G1Affine) -> bool {
    point.on_curve() && forall|k: int|
        0 <= k < 2 ==> #[trigger] E::g1_elements(point)[k] < E::modulus()
}

/// Whether a point can be written: it is on the curve, and its coordinates are reduced.
pub open spec fn writable_g2<E: PairingReader>(point: E::G2Affine) -> bool {
    point.on_curve() && forall|k: int|
        0 <= k < 4 ==> #[trigger] E::g2_elements(point)[k] < E::modulus()
}

pub open spec fn all_writable_g1<E: PairingReader>(points: Seq<E::G1Affine>) -> bool {
    forall|i: int| 0 <= i < points.len() ==> writable_g1::<E>(#[trigger] points[i])
}

pub open spec fn all_writable_g2<E: PairingReader>(points: Seq<E::G2Affine>) -> bool {
    forall|i: int| 0 <= i < points.len() ==> writable_g2::<E>(#[trigger] points[i])
}

/// Where a section starts.
spec fn offset(parts: Seq<(u32, Seq<u8>)>, i: nat) -> nat {
    12 + concatenated(section_pieces(parts), i).len()
}

/// The table of the first `count` sections.
spec fn table(parts: Seq<(u32, Seq<u8>)>, count: nat) -> Seq<(u32, u64)> {
    Seq::new(count, |i: int| (parts[i].0, (offset(parts, i as nat) + 12) as u64))
}

proof fn lemma_prefix(piece: spec_fn(nat) -> Seq<u8>, count: nat, more: nat)
    requires
        count <= more,
    ensures
        concatenated(piece, count).len() <= concatenated(piece, more).len(),
        concatenated(piece, more).take(concatenated(piece, count).len() as int) == concatenated(
            piece,
            count,
        ),
    decreases more,
{
    let own = concatenated(piece, count);
    if count < more {
        lemma_prefix(piece, count, (more - 1) as nat);
        let before = concatenated(piece, (more - 1) as nat);
        assert(concatenated(piece, more).take(own.len() as int) =~= before.take(
            own.len() as int,
        ));
    } else {
        assert(own.take(own.len() as int) =~= own);
    }
}

/// A section stands at its offset.
proof fn lemma_section(head: Seq<u8>, parts: Seq<(u32, Seq<u8>)>, i: nat)
    requires
        head.len() == 8,
        i < parts.len(),
    ensures
        offset(parts, i + 1) == offset(parts, i) + section_bytes(parts[i as int]).len(),
        offset(parts, i + 1) <= ptau_bytes(head, parts).len(),
        bytes_at(
            ptau_bytes(head, parts),
            offset(parts, i),
            section_bytes(parts[i as int]).len(),
        ) == Ok::<Seq<u8>, ReadErrorModel>(section_bytes(parts[i as int])),
        section_bytes(parts[i as int]).len() == 12 + parts[i as int].1.len(),
{
    let piece = section_pieces(parts);
    let file = ptau_bytes(head, parts);
    let own = section_bytes(parts[i as int]);
    lemma_to_le(parts[i as int].0 as nat, 4);
    lemma_to_le(parts[i as int].1.len(), 8);
    lemma_to_le(parts.len(), 4);
    lemma_prefix(piece, i, parts.len());
    lemma_prefix(piece, i + 1, parts.len());
    let all = concatenated(piece, parts.len());
    let (a, b) = (concatenated(piece, i), concatenated(piece, i + 1));
    assert(b == a + own);
    assert(all.take(b.len() as int) == b);
    assert(file.len() == 12 + all.len());
    assert(file.subrange(
        offset(parts, i) as int,
        (offset(parts, i) + own.len()) as int,
    ) =~= own) by {
        assert forall|k: int| 0 <= k < own.len() implies file[offset(parts, i) + k] == own[k] by {
            assert(file[12 + (a.len() + k)] == all[a.len() + k]);
            assert(all[a.len() + k] == all.take(b.len() as int)[a.len() + k]);
            assert(b[a.len() + k] == own[k]);
        }
    }
}

/// The numbers in front of the contents of a section, and the contents.
proof fn lemma_section_parts(head: Seq<u8>, parts: Seq<(u32, Seq<u8>)>, i: nat)
    requires
        head.len() == 8,
        i < parts.len(),
        ptau_bytes(head, parts).len() <= u64::MAX,
    ensures
        ({
            let file = ptau_bytes(head, parts);
            let start = offset(parts, i);
            let (kind, contents) = parts[i as int];
            &&& number_at(file, start, 4) == Ok::<nat, ReadErrorModel>(kind as nat)
            &&& number_at(file, start + 4, 8) == Ok::<nat, ReadErrorModel>(contents.len())
            &&& bytes_at(file, start + 12, contents.len()) == Ok::<Seq<u8>, ReadErrorModel>(
                contents,
            )
            &&& offset(parts, i + 1) == start + 12 + contents.len()
            &&& offset(parts, i + 1) <= file.len()
        }),
{
    let file = ptau_bytes(head, parts);
    let start = offset(parts, i);
    let (kind, contents) = parts[i as int];
    let own = section_bytes(parts[i as int]);
    lemma_section(head, parts, i);
    lemma2_to64_rest();
    lemma2_to64();
    lemma_to_le(kind as nat, 4);
    lemma_to_le(contents.len(), 8);
    lemma_within(file, start, file, start, own.len(), 0, 4);
    lemma_within(file, start, file, start, own.len(), 4, 8);
    lemma_within(file, start, file, start, own.len(), 12, contents.len());
    assert(own.subrange(0, 4) =~= to_le(kind as nat, 4));
    assert(own.subrange(4, 12) =~= to_le(contents.len(), 8));
    assert(own.subrange(12, (12 + contents.len()) as int) =~= contents);
}

proof fn lemma_table(head: Seq<u8>, parts: Seq<(u32, Seq<u8>)>, limit: SeekLimit, count: nat)
    requires
        head.len() == 8,
        count <= parts.len(),
        ptau_bytes(head, parts).len() <= i64::MAX,
        ptau_bytes(head, parts).len() <= limit.largest,
    ensures
        ptau_sections(ptau_bytes(head, parts), limit, count) == Ok::<
            (Seq<(u32, u64)>, nat),
            ReadErrorModel,
        >((table(parts, count), offset(parts, count))),
    decreases count,
{
    if count == 0 {
        assert(table(parts, 0) =~= Seq::empty());
    } else {
        let last = (count - 1) as nat;
        lemma_table(head, parts, limit, last);
        lemma_section_parts(head, parts, last);
        assert(table(parts, count) =~= table(parts, last).push(
            (parts[last as int].0, (offset(parts, last) + 12) as u64),
        ));
    }
}

proof fn lemma_no_section(sections: Seq<(u32, u64)>, kind: u32)
    requires
        forall|i: int| 0 <= i < sections.len() ==> (#[trigger] sections[i]).0 != kind,
    ensures
        first_section(sections, kind) == Err::<nat, ReadErrorModel>(
            ReadErrorModel::Defect(Defect::MissingSection(kind)),
        ),
    decreases sections.len(),
{
    if sections.len() > 0 {
        lemma_no_section(sections.drop_last(), kind);
        assert(sections.last() == sections[sections.len() - 1]);
    }
}

/// Whether the first section of a type is the one at an index.
pub open spec fn is_first(parts: Seq<(u32, Seq<u8>)>, kind: u32, index: int) -> bool {
    &&& 0 <= index < parts.len()
    &&& parts[index].0 == kind
    &&& forall|j: int| 0 <= j < index ==> (#[trigger] parts[j]).0 != kind
}

/// The first section of a type is found, and its contents are read at its position.
proof fn lemma_found(
    head: Seq<u8>,
    parts: Seq<(u32, Seq<u8>)>,
    limit: SeekLimit,
    kind: u32,
    index: int,
) -> (position: nat)
    requires
        head.len() == 8,
        is_first(parts, kind, index),
        ptau_bytes(head, parts).len() <= i64::MAX,
    ensures
        first_section(table(parts, parts.len()), kind) == Ok::<nat, ReadErrorModel>(position),
        bytes_at(ptau_bytes(head, parts), position, parts[index].1.len()) == Ok::<
            Seq<u8>,
            ReadErrorModel,
        >(parts[index].1),
{
    let sections = table(parts, parts.len());
    let file = ptau_bytes(head, parts);
    lemma_section_parts(head, parts, index as nat);
    lemma_no_section(sections.take(index), kind);
    assert(sections.take(index + 1).drop_last() =~= sections.take(index));
    assert(sections.take(index + 1).last() == sections[index]);
    lemma_first_section(sections, kind, (index + 1) as nat);
    (offset(parts, index as nat) + 12) as nat
}

/// What a section starts with is read at its position.
proof fn lemma_read(
    file: Seq<u8>,
    position: nat,
    contents: Seq<u8>,
    expected: Seq<u8>,
    at: nat,
    count: nat,
)
    requires
        bytes_at(file, position, contents.len()) == Ok::<Seq<u8>, ReadErrorModel>(contents),
        starts_with(contents, expected),
        at + count <= expected.len(),
    ensures
        bytes_at(file, position + at, count) == Ok::<Seq<u8>, ReadErrorModel>(
            expected.subrange(at as int, (at + count) as int),
        ),
{
    lemma_within(file, position, file, position, contents.len(), at, count);
    assert(contents.subrange(at as int, (at + count) as int) =~= contents.take(
        expected.len() as int,
    ).subrange(at as int, (at + count) as int));
}

pub proof fn lemma_points_read<T>(
    source: spec_fn(nat) -> Result<T, ReadErrorModel>,
    start: nat,
    step: nat,
    expected: Seq<T>,
    count: nat,
)
    requires
        count <= expected.len(),
        forall|i: nat|
            i < count ==> #[trigger] source(start + i * step) == Ok::<T, ReadErrorModel>(
                expected[i as int],
            ),
    ensures
        points(source, start, step, count) == Ok::<Seq<T>, ReadErrorModel>(
            expected.take(count as int),
        ),
    decreases count,
{
    if count == 0 {
        assert(expected.take(0) =~= Seq::empty());
    } else {
        let last = (count - 1) as nat;
        lemma_points_read(source, start, step, expected, last);
        assert(source(start + last * step) == Ok::<T, ReadErrorModel>(expected[last as int]));
        assert(expected.take(last as int).push(expected[last as int]) =~= expected.take(
            count as int,
        ));
    }
}

proof fn lemma_ptau_lengths<E: PairingReader>(elements: Seq<nat>)
    ensures
        montgomery_bytes(elements, E::element_length(), E::modulus()).len() == elements.len()
            * E::element_length(),
{
    let length = E::element_length();
    let f = |k: nat| to_le((elements[k as int] * pow2(8 * length)) % E::modulus(), length);
    assert forall|k: nat| k < elements.len() implies (#[trigger] f(k)).len() == length by {
        lemma_to_le((elements[k as int] * pow2(8 * length)) % E::modulus(), length);
    }
    lemma_concatenated_length(f, elements.len(), length);
}

proof fn lemma_g1_section<E: PairingReader>(
    head: Seq<u8>,
    parts: Seq<(u32, Seq<u8>)>,
    limit: SeekLimit,
    kind: u32,
    index: int,
    expected: Seq<E::G1Affine>,
)
    requires
        head.len() == 8,
        is_first(parts, kind, index),
        ptau_bytes(head, parts).len() <= i64::MAX,
        all_writable_g1::<E>(expected),
        starts_with(
            parts[index].1,
            concatenated(ptau_g1_pieces::<E>(expected), expected.len()),
        ),
    ensures
        ptau_g1_section::<E>(
            ptau_bytes(head, parts),
            table(parts, parts.len()),
            kind,
            expected.len(),
        ) == Ok::<Seq<E::G1Affine>, ReadErrorModel>(expected),
{
    let file = ptau_bytes(head, parts);
    let position = lemma_found(head, parts, limit, kind, index);
    let pieces = ptau_g1_pieces::<E>(expected);
    let step = 2 * E::element_length();
    let source = ptau_g1_source::<E>(file);
    let all = concatenated(pieces, expected.len());
    E::lemma_modulus();
    assert forall|i: nat| i < expected.len() implies (#[trigger] pieces(i)).len() == step by {
        lemma_ptau_lengths::<E>(E::g1_elements(expected[i as int]));
    }
    lemma_concatenated_length(pieces, expected.len(), step);
    assert forall|i: nat| i < expected.len() implies #[trigger] source(position + i * step)
        == Ok::<E::G1Affine, ReadErrorModel>(expected[i as int]) by {
        lemma_piece(pieces, expected.len(), step, i);
        lemma_read(file, position, parts[index].1, all, i * step, step);
        assert(writable_g1::<E>(expected[i as int]));
        E::lemma_written_ptau_g1(expected[i as int], file, position + i * step);
    }
    lemma_points_read(source, position, step, expected, expected.len());
    assert(expected.take(expected.len() as int) =~= expected);
}

proof fn lemma_g2_section<E: PairingReader>(
    head: Seq<u8>,
    parts: Seq<(u32, Seq<u8>)>,
    limit: SeekLimit,
    kind: u32,
    index: int,
    expected: Seq<E::G2Affine>,
)
    requires
        head.len() == 8,
        is_first(parts, kind, index),
        ptau_bytes(head, parts).len() <= i64::MAX,
        all_writable_g2::<E>(expected),
        starts_with(
            parts[index].1,
            concatenated(ptau_g2_pieces::<E>(expected), expected.len()),
        ),
    ensures
        ptau_g2_section::<E>(
            ptau_bytes(head, parts),
            table(parts, parts.len()),
            kind,
            expected.len(),
        ) == Ok::<Seq<E::G2Affine>, ReadErrorModel>(expected),
{
    let file = ptau_bytes(head, parts);
    let position = lemma_found(head, parts, limit, kind, index);
    let pieces = ptau_g2_pieces::<E>(expected);
    let step = 4 * E::element_length();
    let source = ptau_g2_source::<E>(file);
    let all = concatenated(pieces, expected.len());
    E::lemma_modulus();
    assert forall|i: nat| i < expected.len() implies (#[trigger] pieces(i)).len() == step by {
        lemma_ptau_lengths::<E>(E::g2_elements(expected[i as int]));
    }
    lemma_concatenated_length(pieces, expected.len(), step);
    assert forall|i: nat| i < expected.len() implies #[trigger] source(position + i * step)
        == Ok::<E::G2Affine, ReadErrorModel>(expected[i as int]) by {
        lemma_piece(pieces, expected.len(), step, i);
        lemma_read(file, position, parts[index].1, all, i * step, step);
        assert(writable_g2::<E>(expected[i as int]));
        E::lemma_written_ptau_g2(expected[i as int], file, position + i * step);
    }
    lemma_points_read(source, position, step, expected, expected.len());
    assert(expected.take(expected.len() as int) =~= expected);
}

/// What is written of powers of a pairing in a ptau file is read as those powers: `2^(power + 1) - 1`
/// of the first group and `2^power` of the second, points on the curves in Montgomery form in
/// sections of the types 2 to 6, behind a header section with the pairing's base field and the
/// power. The sections can stand in any order, with others between them, and with more behind what
/// is read of them.
pub proof fn law_written_ptau_is_read<E: PairingReader>(
    accum: AccumulatorModel<E>,
    power: nat,
    ceremony_power: nat,
    contributions: nat,
    head: Seq<u8>,
    parts: Seq<(u32, Seq<u8>)>,
    at: spec_fn(u32) -> int,
    limit: SeekLimit,
)
    requires
        head.len() == 8,
        power < 30,
        accum.tau_powers_g1.len() == 2 * pow2(power) - 1,
        accum.tau_powers_g2.len() == pow2(power),
        accum.alpha_tau_powers_g1.len() == pow2(power),
        accum.beta_tau_powers_g1.len() == pow2(power),
        all_writable_g1::<E>(accum.tau_powers_g1),
        all_writable_g2::<E>(accum.tau_powers_g2),
        all_writable_g1::<E>(accum.alpha_tau_powers_g1),
        all_writable_g1::<E>(accum.beta_tau_powers_g1),
        writable_g2::<E>(accum.beta_g2),
        parts.len() <= u32::MAX,
        ptau_bytes(head, parts).len() <= i64::MAX,
        ptau_bytes(head, parts).len() <= limit.largest,
        is_first(parts, 1, at(1)),
        is_first(parts, 2, at(2)),
        is_first(parts, 3, at(3)),
        is_first(parts, 4, at(4)),
        is_first(parts, 5, at(5)),
        is_first(parts, 6, at(6)),
        is_first(parts, 7, at(7)),
        starts_with(parts[at(1)].1, ptau_header::<E>(power, ceremony_power)),
        starts_with(
            parts[at(2)].1,
            concatenated(ptau_g1_pieces::<E>(accum.tau_powers_g1), accum.tau_powers_g1.len()),
        ),
        starts_with(
            parts[at(3)].1,
            concatenated(ptau_g2_pieces::<E>(accum.tau_powers_g2), accum.tau_powers_g2.len()),
        ),
        starts_with(
            parts[at(4)].1,
            concatenated(
                ptau_g1_pieces::<E>(accum.alpha_tau_powers_g1),
                accum.alpha_tau_powers_g1.len(),
            ),
        ),
        starts_with(
            parts[at(5)].1,
            concatenated(
                ptau_g1_pieces::<E>(accum.beta_tau_powers_g1),
                accum.beta_tau_powers_g1.len(),
            ),
        ),
        starts_with(parts[at(6)].1, ptau_g2_bytes::<E>(accum.beta_g2)),
        starts_with(parts[at(7)].1, to_le(contributions, 4)),
    ensures
        ptau_file::<E>(ptau_bytes(head, parts), limit) == Ok::<
            AccumulatorModel<E>,
            ReadErrorModel,
        >(accum),
{
    let file = ptau_bytes(head, parts);
    let sections = table(parts, parts.len());
    let length = E::element_length();
    E::lemma_modulus();
    lemma2_to64();
    lemma2_to64_rest();
    lemma_pow2_pos(power);
    // The table.
    lemma_to_le(parts.len(), 4);
    let count = to_le(parts.len(), 4);
    assert(file.subrange(8, 12) =~= count);
    assert(number_at(file, 8, 4) == Ok::<nat, ReadErrorModel>(parts.len()));
    lemma_table(head, parts, limit, parts.len());
    assert(ptau_table(file, limit) == Ok::<Seq<(u32, u64)>, ReadErrorModel>(sections));
    // The header section.
    let header = ptau_header::<E>(power, ceremony_power);
    let p = lemma_found(head, parts, limit, 1, at(1));
    lemma_to_le(length, 4);
    lemma_to_le(E::modulus(), length);
    lemma_to_le(power, 4);
    lemma_to_le(ceremony_power, 4);
    lemma_read(file, p, parts[at(1)].1, header, 0, 4);
    lemma_read(file, p, parts[at(1)].1, header, 4, length);
    lemma_read(file, p, parts[at(1)].1, header, 4 + length, 4);
    lemma_read(file, p, parts[at(1)].1, header, 8 + length, 4);
    assert(header.subrange(0, 4) =~= to_le(length, 4));
    assert(header.subrange(4, (4 + length) as int) =~= to_le(E::modulus(), length));
    assert(header.subrange((4 + length) as int, (8 + length) as int) =~= to_le(power, 4));
    let q = lemma_found(head, parts, limit, 7, at(7));
    lemma_to_le(contributions, 4);
    lemma_read(file, q, parts[at(7)].1, to_le(contributions, 4), 0, 4);
    assert(ptau_power::<E>(file, sections) == Ok::<nat, ReadErrorModel>(power));
    // The points.
    lemma_g1_section::<E>(head, parts, limit, 2, at(2), accum.tau_powers_g1);
    lemma_g2_section::<E>(head, parts, limit, 3, at(3), accum.tau_powers_g2);
    lemma_g1_section::<E>(head, parts, limit, 4, at(4), accum.alpha_tau_powers_g1);
    lemma_g1_section::<E>(head, parts, limit, 5, at(5), accum.beta_tau_powers_g1);
    let r = lemma_found(head, parts, limit, 6, at(6));
    let beta = ptau_g2_bytes::<E>(accum.beta_g2);
    lemma_ptau_lengths::<E>(E::g2_elements(accum.beta_g2));
    lemma_read(file, r, parts[at(6)].1, beta, 0, 4 * length);
    assert(beta.subrange(0, (4 * length) as int) =~= beta);
    E::lemma_written_ptau_g2(accum.beta_g2, file, r);
}

/// The bytes of a point of the first group in a radix file.
pub open spec fn radix_g1_bytes<E: PairingReader>(point: E::G1Affine, flags: nat) -> Seq<u8> {
    big_endian_bytes(E::g1_elements(point), E::element_length(), 0, flags)
}

/// The bytes of a point of the second group in a radix file.
pub open spec fn radix_g2_bytes<E: PairingReader>(point: E::G2Affine, flags: nat) -> Seq<u8> {
    big_endian_bytes(
        swapped(E::g2_elements(point)),
        E::element_length(),
        E::radix_g2_flagged(),
        flags,
    )
}

pub open spec fn radix_g1_pieces<E: PairingReader>(
    points: Seq<E::G1Affine>,
    flags: spec_fn(nat) -> nat,
) -> spec_fn(nat) -> Seq<u8> {
    |i: nat| radix_g1_bytes::<E>(points[i as int], flags(i))
}

pub open spec fn radix_g2_pieces<E: PairingReader>(
    points: Seq<E::G2Affine>,
    flags: spec_fn(nat) -> nat,
) -> spec_fn(nat) -> Seq<u8> {
    |i: nat| radix_g2_bytes::<E>(points[i as int], flags(i))
}

pub open spec fn radix_g1_vector<E: PairingReader>(
    points: Seq<E::G1Affine>,
    flags: spec_fn(nat) -> nat,
) -> Seq<u8> {
    concatenated(radix_g1_pieces::<E>(points, flags), points.len())
}

pub open spec fn radix_g2_vector<E: PairingReader>(
    points: Seq<E::G2Affine>,
    flags: spec_fn(nat) -> nat,
) -> Seq<u8> {
    concatenated(radix_g2_pieces::<E>(points, flags), points.len())
}

/// The bytes of a radix file: the points of `alpha` and `beta` in the first group and of `beta` in
/// the second, the vectors of `tau` in both groups, of `alpha` and of `beta`, and the `h` query.
/// The flags of the points can be any.
pub open spec fn radix_bytes<E: PairingReader>(
    prepared: PreparedModel<E>,
    flags: spec_fn(nat) -> nat,
) -> Seq<u8> {
    radix_g1_bytes::<E>(prepared.alpha, flags(0)) + radix_g1_bytes::<E>(prepared.beta, flags(1))
        + radix_g2_bytes::<E>(prepared.beta_g2, flags(2)) + radix_g1_vector::<E>(
        prepared.tau_lagrange_g1,
        flags,
    ) + radix_g2_vector::<E>(prepared.tau_lagrange_g2, flags) + radix_g1_vector::<E>(
        prepared.alpha_lagrange_g1,
        flags,
    ) + radix_g1_vector::<E>(prepared.beta_lagrange_g1, flags) + radix_g1_vector::<E>(
        prepared.h_query,
        flags,
    )
}

/// Whether all points can be written.
pub open spec fn writable_prepared<E: PairingReader>(prepared: PreparedModel<E>) -> bool {
    &&& writable_g1::<E>(prepared.alpha)
    &&& writable_g1::<E>(prepared.beta)
    &&& writable_g2::<E>(prepared.beta_g2)
    &&& all_writable_g1::<E>(prepared.tau_lagrange_g1)
    &&& all_writable_g2::<E>(prepared.tau_lagrange_g2)
    &&& all_writable_g1::<E>(prepared.alpha_lagrange_g1)
    &&& all_writable_g1::<E>(prepared.beta_lagrange_g1)
    &&& all_writable_g1::<E>(prepared.h_query)
}

proof fn lemma_radix_lengths(elements: Seq<nat>, length: nat, flagged_at: nat, flags: nat)
    requires
        length > 0,
    ensures
        big_endian_bytes(elements, length, flagged_at, flags).len() == elements.len() * length,
{
    let f = big_endian_pieces(elements, length, flagged_at, flags);
    assert forall|k: nat| k < elements.len() implies (#[trigger] f(k)).len() == length by {
        lemma_to_be(elements[k as int], length);
    }
    lemma_concatenated_length(f, elements.len(), length);
}

/// The end of what a file starts with.
proof fn lemma_split(file: Seq<u8>, front: Seq<u8>, back: Seq<u8>)
    requires
        bytes_at(file, 0, (front + back).len()) == Ok::<Seq<u8>, ReadErrorModel>(front + back),
    ensures
        bytes_at(file, 0, front.len()) == Ok::<Seq<u8>, ReadErrorModel>(front),
        bytes_at(file, front.len(), back.len()) == Ok::<Seq<u8>, ReadErrorModel>(back),
{
    let own = front + back;
    assert(file.subrange(0, own.len() as int) == own);
    assert forall|k: int| 0 <= k < own.len() implies file[k] == own[k] by {
        assert(file.subrange(0, own.len() as int)[k] == own[k]);
    }
    assert(file.subrange(0, front.len() as int) =~= front);
    assert(file.subrange(front.len() as int, (front.len() + back.len()) as int) =~= back);
}

proof fn lemma_radix_g1_vector<E: PairingReader>(
    file: Seq<u8>,
    position: nat,
    expected: Seq<E::G1Affine>,
    flags: spec_fn(nat) -> nat,
)
    requires
        forall|i: nat| #[trigger] flags(i) < 4,
        all_writable_g1::<E>(expected),
        bytes_at(file, position, radix_g1_vector::<E>(expected, flags).len()) == Ok::<
            Seq<u8>,
            ReadErrorModel,
        >(radix_g1_vector::<E>(expected, flags)),
    ensures
        radix_g1_vector::<E>(expected, flags).len() == expected.len() * (2 * E::element_length()),
        points(
            radix_g1_source::<E>(file),
            position,
            2 * E::element_length(),
            expected.len(),
        ) == Ok::<Seq<E::G1Affine>, ReadErrorModel>(expected),
{
    let pieces = radix_g1_pieces::<E>(expected, flags);
    let step = 2 * E::element_length();
    let source = radix_g1_source::<E>(file);
    let all = radix_g1_vector::<E>(expected, flags);
    E::lemma_modulus();
    assert forall|i: nat| i < expected.len() implies (#[trigger] pieces(i)).len() == step by {
        lemma_radix_lengths(
            E::g1_elements(expected[i as int]),
            E::element_length(),
            0,
            flags(i),
        );
    }
    lemma_concatenated_length(pieces, expected.len(), step);
    assert forall|i: nat| i < expected.len() implies #[trigger] source(position + i * step)
        == Ok::<E::G1Affine, ReadErrorModel>(expected[i as int]) by {
        lemma_piece(pieces, expected.len(), step, i);
        lemma_within(file, position, file, position, all.len(), i * step, step);
        assert(writable_g1::<E>(expected[i as int]));
        E::lemma_written_radix_g1(expected[i as int], flags(i), file, position + i * step);
    }
    lemma_points_read(source, position, step, expected, expected.len());
    assert(expected.take(expected.len() as int) =~= expected);
}

proof fn lemma_radix_g2_vector<E: PairingReader>(
    file: Seq<u8>,
    position: nat,
    expected: Seq<E::G2Affine>,
    flags: spec_fn(nat) -> nat,
)
    requires
        forall|i: nat| #[trigger] flags(i) < 4,
        all_writable_g2::<E>(expected),
        bytes_at(file, position, radix_g2_vector::<E>(expected, flags).len()) == Ok::<
            Seq<u8>,
            ReadErrorModel,
        >(radix_g2_vector::<E>(expected, flags)),
    ensures
        radix_g2_vector::<E>(expected, flags).len() == expected.len() * (4 * E::element_length()),
        points(
            radix_g2_source::<E>(file),
            position,
            4 * E::element_length(),
            expected.len(),
        ) == Ok::<Seq<E::G2Affine>, ReadErrorModel>(expected),
{
    let pieces = radix_g2_pieces::<E>(expected, flags);
    let step = 4 * E::element_length();
    let source = radix_g2_source::<E>(file);
    let all = radix_g2_vector::<E>(expected, flags);
    E::lemma_modulus();
    assert forall|i: nat| i < expected.len() implies (#[trigger] pieces(i)).len() == step by {
        lemma_radix_lengths(
            swapped(E::g2_elements(expected[i as int])),
            E::element_length(),
            E::radix_g2_flagged(),
            flags(i),
        );
    }
    lemma_concatenated_length(pieces, expected.len(), step);
    assert forall|i: nat| i < expected.len() implies #[trigger] source(position + i * step)
        == Ok::<E::G2Affine, ReadErrorModel>(expected[i as int]) by {
        lemma_piece(pieces, expected.len(), step, i);
        lemma_within(file, position, file, position, all.len(), i * step, step);
        assert(writable_g2::<E>(expected[i as int]));
        E::lemma_written_radix_g2(expected[i as int], flags(i), file, position + i * step);
    }
    lemma_points_read(source, position, step, expected, expected.len());
    assert(expected.take(expected.len() as int) =~= expected);
}

proof fn lemma_radix_contents<E: PairingReader>(
    prepared: PreparedModel<E>,
    flags: spec_fn(nat) -> nat,
    bytes: Seq<u8>,
)
    requires
        forall|i: nat| #[trigger] flags(i) < 4,
        writable_prepared(prepared),
        starts_with(bytes, radix_bytes(prepared, flags)),
        prepared.tau_lagrange_g1.len() > 0,
        prepared.tau_lagrange_g2.len() == prepared.tau_lagrange_g1.len(),
        prepared.alpha_lagrange_g1.len() == prepared.tau_lagrange_g1.len(),
        prepared.beta_lagrange_g1.len() == prepared.tau_lagrange_g1.len(),
        prepared.h_query.len() == prepared.tau_lagrange_g1.len() - 1,
    ensures
        radix_contents::<E>(bytes, prepared.tau_lagrange_g1.len()) == Ok::<
            PreparedModel<E>,
            ReadErrorModel,
        >(prepared),
{
    let (one, two) = (2 * E::element_length(), 4 * E::element_length());
    let size = prepared.tau_lagrange_g1.len();
    E::lemma_modulus();
    let s0 = radix_g1_bytes::<E>(prepared.alpha, flags(0));
    let s1 = radix_g1_bytes::<E>(prepared.beta, flags(1));
    let s2 = radix_g2_bytes::<E>(prepared.beta_g2, flags(2));
    let s3 = radix_g1_vector::<E>(prepared.tau_lagrange_g1, flags);
    let s4 = radix_g2_vector::<E>(prepared.tau_lagrange_g2, flags);
    let s5 = radix_g1_vector::<E>(prepared.alpha_lagrange_g1, flags);
    let s6 = radix_g1_vector::<E>(prepared.beta_lagrange_g1, flags);
    let s7 = radix_g1_vector::<E>(prepared.h_query, flags);
    let own = radix_bytes(prepared, flags);
    assert(bytes.subrange(0, own.len() as int) =~= bytes.take(own.len() as int));
    lemma_split(bytes, s0 + s1 + s2 + s3 + s4 + s5 + s6, s7);
    lemma_split(bytes, s0 + s1 + s2 + s3 + s4 + s5, s6);
    lemma_split(bytes, s0 + s1 + s2 + s3 + s4, s5);
    lemma_split(bytes, s0 + s1 + s2 + s3, s4);
    lemma_split(bytes, s0 + s1 + s2, s3);
    lemma_split(bytes, s0 + s1, s2);
    lemma_split(bytes, s0, s1);
    let length = E::element_length();
    lemma_radix_lengths(E::g1_elements(prepared.alpha), length, 0, flags(0));
    lemma_radix_lengths(E::g1_elements(prepared.beta), length, 0, flags(1));
    lemma_radix_lengths(
        swapped(E::g2_elements(prepared.beta_g2)),
        length,
        E::radix_g2_flagged(),
        flags(2),
    );
    E::lemma_written_radix_g1(prepared.alpha, flags(0), bytes, 0);
    E::lemma_written_radix_g1(prepared.beta, flags(1), bytes, one);
    E::lemma_written_radix_g2(prepared.beta_g2, flags(2), bytes, one + one);
    let start = one + one + two;
    lemma_radix_g1_vector::<E>(bytes, start, prepared.tau_lagrange_g1, flags);
    lemma_radix_g2_vector::<E>(bytes, start + size * one, prepared.tau_lagrange_g2, flags);
    let next = start + size * one + size * two;
    lemma_radix_g1_vector::<E>(bytes, next, prepared.alpha_lagrange_g1, flags);
    lemma_radix_g1_vector::<E>(bytes, next + size * one, prepared.beta_lagrange_g1, flags);
    lemma_radix_g1_vector::<E>(
        bytes,
        next + size * one + size * one,
        prepared.h_query,
        flags,
    );
}

/// `phase1radix2m`
pub open spec fn radix_label() -> Seq<u8> {
    seq![
        0x70u8,
        0x68u8,
        0x61u8,
        0x73u8,
        0x65u8,
        0x31u8,
        0x72u8,
        0x61u8,
        0x64u8,
        0x69u8,
        0x78u8,
        0x32u8,
        0x6du8,
    ]
}

/// The number of decimal digits, by the powers of ten that they stand for.
pub open spec fn positional(digits: Seq<u8>) -> int {
    total(|i: nat| (digits[digits.len() - 1 - i] - 0x30) * pow(10, i), digits.len())
}

/// Whether the label of radix files stands in a text.
pub open spec fn has_label(text: Seq<u8>) -> bool {
    exists|k: int| 0 <= k <= text.len() - 13 && #[trigger] text.subrange(k, k + 13) == radix_label()
}

/// Whether a text is an unsigned decimal number of this value, with an optional plus sign.
pub open spec fn writes_number(text: Seq<u8>, value: nat) -> bool {
    exists|sign: Seq<u8>, digits: Seq<u8>|
        text == #[trigger] (sign + digits) && (sign.len() == 0 || sign == seq![0x2bu8])
            && is_decimal(digits) && positional(digits) == value
}

/// Whether there are decimal digits and nothing else.
pub open spec fn is_decimal(digits: Seq<u8>) -> bool {
    &&& digits.len() > 0
    &&& forall|i: int| 0 <= i < digits.len() ==> 0x30 <= #[trigger] digits[i] <= 0x39
}

proof fn lemma_positional(digits: Seq<u8>)
    requires
        forall|i: int| 0 <= i < digits.len() ==> 0x30 <= #[trigger] digits[i] <= 0x39,
    ensures
        decimal_value(digits) == positional(digits),
    decreases digits.len(),
{
    let n = digits.len();
    if n > 0 {
        let rest = digits.drop_last();
        lemma_positional(rest);
        let f = |i: nat| (digits[n - 1 - i] - 0x30) * pow(10, i);
        let g = |i: nat| (rest[rest.len() - 1 - i] - 0x30) * pow(10, i);
        // The rest stands one place further up.
        assert forall|i: nat| i < n - 1 implies #[trigger] f(i + 1) == 10 * g(i) by {
            lemma_pow_adds(10, 1, i);
            lemma_pow1(10);
            let d = rest[rest.len() - 1 - i] - 0x30;
            assert(digits[n - 1 - (i + 1)] == rest[rest.len() - 1 - i]);
            assert(d * (10 * pow(10, i)) == 10 * (d * pow(10, i))) by (nonlinear_arith);
        }
        lemma_shifted(f, g, (n - 1) as nat);
        lemma_pow0(10);
        assert(f(0) == digits.last() - 0x30);
    }
}

pub proof fn lemma_shifted(f: spec_fn(nat) -> int, g: spec_fn(nat) -> int, n: nat)
    requires
        forall|i: nat| i < n ==> #[trigger] f(i + 1) == 10 * g(i),
    ensures
        total(f, n + 1) == f(0) + 10 * total(g, n),
    decreases n,
{
    if n == 0 {
        reveal_with_fuel(total, 2);
    } else {
        lemma_shifted(f, g, (n - 1) as nat);
        assert(f(n) == 10 * g((n - 1) as nat)) by {
            assert(f(((n - 1) + 1) as nat) == 10 * g((n - 1) as nat));
        }
    }
}

/// The size of the domain of a radix file is two to the power of the number that follows the label
/// in the file's name, whatever stands before the label.
pub proof fn law_radix_size_is_in_the_name(prefix: Seq<u8>, text: Seq<u8>, exponent: nat)
    requires
        writes_number(text, exponent),
        exponent <= usize::MAX,
    ensures
        pow2(exponent) <= usize::MAX ==> radix_size(Some(prefix + radix_label() + text)) == Ok::<
            nat,
            ReadErrorModel,
        >(pow2(exponent)),
        pow2(exponent) > usize::MAX ==> radix_size(Some(prefix + radix_label() + text)) == Err::<
            nat,
            ReadErrorModel,
        >(ReadErrorModel::Defect(Defect::PowerTooLarge)),
{
    let name = prefix + radix_label() + text;
    let (sign, digits) = choose|sign: Seq<u8>, digits: Seq<u8>|
        text == #[trigger] (sign + digits) && (sign.len() == 0 || sign == seq![0x2bu8])
            && is_decimal(digits) && positional(digits) == exponent;
    assert(text == sign + digits);
    lemma_numbers_have_no_label(text);
    lemma_label_is_last(name, prefix, text, name.len());
    assert(is_decimal(digits));
    if sign.len() == 0 {
        assert(text =~= digits);
        assert(0x30 <= digits[0] <= 0x39);
        assert(unsigned_digits(text) =~= digits);
    } else {
        assert(unsigned_digits(text) =~= digits);
    }
    lemma_positional(digits);
}

proof fn lemma_label()
    ensures
        radix_label() == marker(),
        radix_label().len() == 13,
        radix_label()[0] == 0x70,
        forall|k: int| 1 <= k < 13 ==> #[trigger] radix_label()[k] != 0x70,
{
    assert(radix_label() =~= marker());
}

/// No label starts behind the first byte of the one before the text.
proof fn lemma_no_label(name: Seq<u8>, prefix: Seq<u8>, label: Seq<u8>, text: Seq<u8>, i: nat)
    requires
        name == prefix + label + text,
        label.len() == 13,
        label[0] == 0x70,
        label == radix_label(),
        forall|k: int| 1 <= k < 13 ==> #[trigger] label[k] != 0x70,
        !has_label(text),
        prefix.len() < i,
        i + 13 <= name.len(),
    ensures
        name.subrange(i as int, (i + 13) as int) != label,
{
    let k = i - prefix.len();
    if k < 13 {
        assert(name[i as int] == label[k]);
        assert(name.subrange(i as int, (i + 13) as int)[0] == name[i as int]);
    } else {
        let j = k - 13;
        assert(name.subrange(i as int, (i + 13) as int) =~= text.subrange(j, j + 13));
    }
}

/// Behind the label there is none.
proof fn lemma_label_is_last(name: Seq<u8>, prefix: Seq<u8>, text: Seq<u8>, i: nat)
    requires
        name == prefix + radix_label() + text,
        !has_label(text),
        prefix.len() <= i <= name.len(),
    ensures
        after_marker(name, i) == text,
    decreases i,
{
    lemma_label();
    let label = radix_label();
    if i == prefix.len() {
        assert(name.subrange(i as int, (i + 13) as int) =~= label);
        assert(name.skip((i + 13) as int) =~= text);
    } else {
        if i + 13 <= name.len() {
            lemma_no_label(name, prefix, label, text, i);
        }
        assert(!marker_at(name, i));
        lemma_label_is_last(name, prefix, text, (i - 1) as nat);
    }
}

/// In a text without the letter that the label starts with, there is none.
proof fn lemma_numbers_have_no_label(text: Seq<u8>)
    requires
        forall|k: int| 0 <= k < text.len() ==> #[trigger] text[k] != 0x70,
    ensures
        !has_label(text),
{
    lemma_label();
    assert forall|k: int| 0 <= k <= text.len() - 13 implies #[trigger] text.subrange(k, k + 13)
        != radix_label() by {
        assert(text.subrange(k, k + 13)[0] == text[k]);
    }
}

proof fn lemma_whole_name(name: Seq<u8>, i: nat)
    requires
        !has_label(name),
        i <= name.len(),
    ensures
        after_marker(name, i) == name,
    decreases i,
{
    lemma_label();
    if i + 13 <= name.len() {
        assert(name.subrange(i as int, (i + 13) as int) != radix_label());
    }
    if i > 0 {
        lemma_whole_name(name, (i - 1) as nat);
    }
}

/// A file whose name has no label is one of the size that the whole name writes, as if it stood
/// behind a label.
pub proof fn law_names_may_have_no_label(prefix: Seq<u8>, text: Seq<u8>)
    requires
        !has_label(text),
    ensures
        radix_size(Some(text)) == radix_size(Some(prefix + radix_label() + text)),
{
    let name = prefix + radix_label() + text;
    lemma_label_is_last(name, prefix, text, name.len());
    lemma_whole_name(text, text.len());
}

/// A file with a number in its name that is beyond the machine's integers is refused as no radix
/// file.
pub proof fn law_larger_radix_names_are_refused(prefix: Seq<u8>, text: Seq<u8>, number: nat)
    requires
        writes_number(text, number),
        number > usize::MAX,
    ensures
        radix_size(Some(prefix + radix_label() + text)) == Err::<nat, ReadErrorModel>(
            ReadErrorModel::Error(
                ErrorModel::Read("Unable to read evaluation domain from radix file name"@),
            ),
        ),
{
    let name = prefix + radix_label() + text;
    let (sign, digits) = choose|sign: Seq<u8>, digits: Seq<u8>|
        text == #[trigger] (sign + digits) && (sign.len() == 0 || sign == seq![0x2bu8])
            && is_decimal(digits) && positional(digits) == number;
    assert(text == sign + digits);
    lemma_numbers_have_no_label(text);
    lemma_label_is_last(name, prefix, text, name.len());
    if sign.len() == 0 {
        assert(text =~= digits);
        assert(0x30 <= digits[0] <= 0x39);
    }
    assert(unsigned_digits(text) =~= digits);
    lemma_positional(digits);
}

/// The name of a file is taken by its bytes, all of them.
pub proof fn law_names_are_their_bytes(text: &str)
    ensures
        name_bytes(Some(text)) == Some(text.spec_bytes()),
        name_bytes(None) == None::<Seq<u8>>,
{
}

/// What is written of powers in Lagrange form in a radix file of the size in its name is read as
/// those powers, whatever the flags of the points and whatever follows them. Read as powers, it is
/// those that the Lagrange form is of.
pub proof fn law_written_radix_is_read<E: PairingReader>(
    prepared: PreparedModel<E>,
    prefix: Seq<u8>,
    text: Seq<u8>,
    exponent: nat,
    flags: spec_fn(nat) -> nat,
    bytes: Seq<u8>,
)
    requires
        writes_number(text, exponent),
        pow2(exponent) <= usize::MAX,
        exponent <= usize::MAX,
        forall|i: nat| #[trigger] flags(i) < 4,
        writable_prepared(prepared),
        starts_with(bytes, radix_bytes(prepared, flags)),
        prepared.tau_lagrange_g1.len() == pow2(exponent),
        prepared.tau_lagrange_g2.len() == pow2(exponent),
        prepared.alpha_lagrange_g1.len() == pow2(exponent),
        prepared.beta_lagrange_g1.len() == pow2(exponent),
        prepared.h_query.len() == pow2(exponent) - 1,
    ensures
        radix_file::<E>(Some(prefix + radix_label() + text), bytes) == Ok::<
            PreparedModel<E>,
            ReadErrorModel,
        >(prepared),
{
    law_radix_size_is_in_the_name(prefix, text, exponent);
    lemma_pow2_pos(exponent);
    lemma_radix_contents(prepared, flags, bytes);
}

/// A radix file of the Lagrange form of powers in their groups is read as the powers.
pub proof fn law_written_radix_gives_the_powers<E: PairingReader>(
    accum: AccumulatorModel<E>,
    prefix: Seq<u8>,
    text: Seq<u8>,
    exponent: nat,
    flags: spec_fn(nat) -> nat,
    bytes: Seq<u8>,
)
    requires
        full_orders::<E>(),
        writes_number(text, exponent),
        exponent <= E::ScalarField::two_adicity(),
        pow2(exponent) <= usize::MAX,
        exponent <= usize::MAX,
        forall|i: nat| #[trigger] flags(i) < 4,
        all_in_group(accum.tau_powers_g1) && all_in_group(accum.tau_powers_g2),
        all_in_group(accum.alpha_tau_powers_g1) && all_in_group(accum.beta_tau_powers_g1),
        in_group(accum.beta_g2),
        accum.tau_powers_g1.len() == 2 * pow2(exponent) - 1,
        accum.tau_powers_g2.len() == pow2(exponent),
        accum.alpha_tau_powers_g1.len() == pow2(exponent),
        accum.beta_tau_powers_g1.len() == pow2(exponent),
        accum.prepared() is Ok ==> writable_prepared(accum.prepared()->Ok_0) && starts_with(
            bytes,
            radix_bytes(accum.prepared()->Ok_0, flags),
        ),
    ensures
        accum.prepared() is Ok,
        radix_powers::<E>(Some(prefix + radix_label() + text), bytes) == Ok::<
            AccumulatorModel<E>,
            ReadErrorModel,
        >(accum),
{
    let n = pow2(exponent);
    lemma_pow2_pos(exponent);
    lemma_domain_of(n, exponent, E::ScalarField::two_adicity());
    let prepared = accum.lagrange(n);
    assert(accum.prepared() == Ok::<PreparedModel<E>, ErrorModel>(prepared));
    lemma_ifft_in_group(accum.tau_powers_g1.take(n as int));
    lemma_ifft_in_group(accum.tau_powers_g2.take(n as int));
    lemma_ifft_in_group(accum.alpha_tau_powers_g1.take(n as int));
    lemma_ifft_in_group(accum.beta_tau_powers_g1.take(n as int));
    law_radix_size_is_in_the_name(prefix, text, exponent);
    lemma_radix_contents(prepared, flags, bytes);
    law_unprepare_inverts_prepare(accum);
}

/// The powers that are read from a radix file are the transforms of the vectors in it, and behind
/// those of `tau` in the first group the sums of the `h` query and the first of them, wherever the
/// points lie.
pub proof fn law_radix_powers_are_the_transforms<E: PairingReader>(
    name: Option<Seq<u8>>,
    bytes: Seq<u8>,
    exponent: nat,
)
    requires
        radix_size(name) == Ok::<nat, ReadErrorModel>(pow2(exponent)),
        radix_file::<E>(name, bytes) is Ok,
        exponent <= E::ScalarField::two_adicity(),
        pow2(exponent) <= usize::MAX,
    ensures
        radix_powers::<E>(name, bytes) matches Ok(powers) && {
            let prepared = radix_file::<E>(name, bytes)->Ok_0;
            let tau = fft(prepared.tau_lagrange_g1);
            &&& powers.tau_powers_g1.len() == tau.len() + prepared.h_query.len()
            &&& forall|k: int| 0 <= k < tau.len() ==> #[trigger] powers.tau_powers_g1[k] == tau[k]
            &&& forall|k: int|
                0 <= k < prepared.h_query.len() ==> powers.tau_powers_g1[tau.len() + k] == sum(
                    #[trigger] prepared.h_query[k],
                    tau[k],
                )
            &&& powers.tau_powers_g2 == fft(prepared.tau_lagrange_g2)
            &&& powers.alpha_tau_powers_g1 == fft(prepared.alpha_lagrange_g1)
            &&& powers.beta_tau_powers_g1 == fft(prepared.beta_lagrange_g1)
            &&& powers.beta_g2 == prepared.beta_g2
        },
{
    lemma_pow2_pos(exponent);
    lemma_domain_of(pow2(exponent), exponent, E::ScalarField::two_adicity());
}

/// A file without a name, or with another text than a number behind the label, is refused as no
/// radix file.
pub proof fn law_other_radix_names_are_refused(prefix: Seq<u8>, text: Seq<u8>, at: int)
    requires
        !has_label(text),
        text.len() == 0 || text == seq![0x2bu8] || (0 <= at < text.len() && !(0x30 <= text[at]
            <= 0x39) && !(at == 0 && text[at] == 0x2b)),
    ensures
        radix_size(None) == Err::<nat, ReadErrorModel>(
            ReadErrorModel::Error(
                ErrorModel::Read("Unable to read evaluation domain from radix file name"@),
            ),
        ),
        radix_size(Some(prefix + radix_label() + text)) == Err::<nat, ReadErrorModel>(
            ReadErrorModel::Error(
                ErrorModel::Read("Unable to read evaluation domain from radix file name"@),
            ),
        ),
{
    let name = prefix + radix_label() + text;
    lemma_label_is_last(name, prefix, text, name.len());
    let digits = unsigned_digits(text);
    if text.len() > 0 && text != seq![0x2bu8] {
        if text[0] == 0x2b {
            assert(digits[at - 1] == text[at]);
            assert(!is_digit(digits[at - 1]));
        } else {
            assert(digits == text);
            assert(!is_digit(digits[at]));
        }
    } else if text.len() > 0 {
        assert(digits =~= Seq::empty());
    }
}

/// A ptau file of another base field, of one that is written by other bytes or by another number of
/// them, is refused for it.
pub proof fn law_other_fields_are_refused<E: PairingReader>(
    field: Seq<u8>,
    head: Seq<u8>,
    parts: Seq<(u32, Seq<u8>)>,
    at: int,
    limit: SeekLimit,
)
    requires
        head.len() == 8,
        parts.len() <= u32::MAX,
        ptau_bytes(head, parts).len() <= i64::MAX,
        ptau_bytes(head, parts).len() <= limit.largest,
        is_first(parts, 1, at),
        field.len() <= u32::MAX,
        starts_with(parts[at].1, to_le(field.len(), 4) + field),
        field != to_le(E::modulus(), E::element_length()),
    ensures
        ptau_file::<E>(ptau_bytes(head, parts), limit) == Err::<
            AccumulatorModel<E>,
            ReadErrorModel,
        >(ReadErrorModel::Error(ErrorModel::PtauFieldNotMatching)),
{
    let file = ptau_bytes(head, parts);
    let sections = table(parts, parts.len());
    E::lemma_modulus();
    lemma2_to64();
    lemma2_to64_rest();
    lemma_to_le(parts.len(), 4);
    assert(file.subrange(8, 12) =~= to_le(parts.len(), 4));
    lemma_table(head, parts, limit, parts.len());
    let p = lemma_found(head, parts, limit, 1, at);
    let header = to_le(field.len(), 4) + field;
    lemma_to_le(field.len(), 4);
    lemma_read(file, p, parts[at].1, header, 0, 4);
    lemma_read(file, p, parts[at].1, header, 4, field.len());
    assert(header.subrange(0, 4) =~= to_le(field.len(), 4));
    assert(header.subrange(4, (4 + field.len()) as int) =~= field);
    if field.len() == E::element_length() && le_value(field) == E::modulus() {
        lemma_bytes_of(field);
    }
}

/// Bytes are those of the number that they write.
proof fn lemma_bytes_of(bytes: Seq<u8>)
    ensures
        to_le(le_value(bytes), bytes.len()) == bytes,
    decreases bytes.len(),
{
    if bytes.len() > 0 {
        let rest = bytes.skip(1);
        lemma_bytes_of(rest);
        let value = le_value(bytes);
        assert(value % 256 == bytes[0] && value / 256 == le_value(rest));
        assert(seq![bytes[0]] + rest =~= bytes);
    } else {
        assert(to_le(0, 0) =~= bytes);
    }
}

/// A ptau file without a header section is refused for it.
pub proof fn law_missing_header_is_refused<E: PairingReader>(
    head: Seq<u8>,
    parts: Seq<(u32, Seq<u8>)>,
    limit: SeekLimit,
)
    requires
        head.len() == 8,
        parts.len() <= u32::MAX,
        ptau_bytes(head, parts).len() <= i64::MAX,
        ptau_bytes(head, parts).len() <= limit.largest,
        forall|i: int| 0 <= i < parts.len() ==> (#[trigger] parts[i]).0 != 1,
    ensures
        ptau_file::<E>(ptau_bytes(head, parts), limit) == Err::<
            AccumulatorModel<E>,
            ReadErrorModel,
        >(ReadErrorModel::Defect(Defect::MissingSection(1))),
{
    let file = ptau_bytes(head, parts);
    lemma2_to64();
    lemma2_to64_rest();
    lemma_to_le(parts.len(), 4);
    assert(file.subrange(8, 12) =~= to_le(parts.len(), 4));
    lemma_table(head, parts, limit, parts.len());
    lemma_no_section(table(parts, parts.len()), 1);
}

proof fn lemma_points_hold<T>(
    source: spec_fn(nat) -> Result<T, ReadErrorModel>,
    start: nat,
    step: nat,
    count: nat,
    holds: spec_fn(T) -> bool,
)
    requires
        forall|position: nat|
            #![trigger source(position)]
            source(position) matches Ok(point) ==> holds(point),
    ensures
        points(source, start, step, count) matches Ok(read) ==> forall|i: int|
            0 <= i < read.len() ==> holds(#[trigger] read[i]),
    decreases count,
{
    if count > 0 {
        lemma_points_hold(source, start, step, (count - 1) as nat, holds);
    }
}

proof fn lemma_read_g1<E: PairingReader>(
    source: spec_fn(nat) -> Result<E::G1Affine, ReadErrorModel>,
    bytes: Seq<u8>,
    start: nat,
    step: nat,
    count: nat,
)
    requires
        source == ptau_g1_source::<E>(bytes) || source == radix_g1_source::<E>(bytes),
    ensures
        points(source, start, step, count) matches Ok(read) ==> all_writable_g1::<E>(read),
{
    let holds = |point: E::G1Affine| writable_g1::<E>(point);
    assert forall|position: nat|
        #![trigger source(position)]
        source(position) matches Ok(point) ==> holds(point) by {
        E::lemma_read_ptau_g1(bytes, position);
        E::lemma_read_radix_g1(bytes, position);
    }
    lemma_points_hold(source, start, step, count, holds);
    if let Ok(read) = points(source, start, step, count) {
        assert forall|i: int| 0 <= i < read.len() implies writable_g1::<E>(#[trigger] read[i]) by {
            assert(holds(read[i]));
        }
    }
}

proof fn lemma_read_g2<E: PairingReader>(
    source: spec_fn(nat) -> Result<E::G2Affine, ReadErrorModel>,
    bytes: Seq<u8>,
    start: nat,
    step: nat,
    count: nat,
)
    requires
        source == ptau_g2_source::<E>(bytes) || source == radix_g2_source::<E>(bytes),
    ensures
        points(source, start, step, count) matches Ok(read) ==> all_writable_g2::<E>(read),
{
    let holds = |point: E::G2Affine| writable_g2::<E>(point);
    assert forall|position: nat|
        #![trigger source(position)]
        source(position) matches Ok(point) ==> holds(point) by {
        E::lemma_read_ptau_g2(bytes, position);
        E::lemma_read_radix_g2(bytes, position);
    }
    lemma_points_hold(source, start, step, count, holds);
    if let Ok(read) = points(source, start, step, count) {
        assert forall|i: int| 0 <= i < read.len() implies writable_g2::<E>(#[trigger] read[i]) by {
            assert(holds(read[i]));
        }
    }
}

/// Whatever is read from a ptau file, every point of it lies on its curve and has reduced
/// coordinates.
pub proof fn law_ptau_points_are_on_the_curves<E: PairingReader>(bytes: Seq<u8>, limit: SeekLimit)
    ensures
        ptau_file::<E>(bytes, limit) matches Ok(accum) ==> {
            &&& all_writable_g1::<E>(accum.tau_powers_g1)
            &&& all_writable_g2::<E>(accum.tau_powers_g2)
            &&& all_writable_g1::<E>(accum.alpha_tau_powers_g1)
            &&& all_writable_g1::<E>(accum.beta_tau_powers_g1)
            &&& writable_g2::<E>(accum.beta_g2)
        },
{
    let (g1, g2) = (ptau_g1_source::<E>(bytes), ptau_g2_source::<E>(bytes));
    let (one, two) = (2 * E::element_length(), 4 * E::element_length());
    if let Ok(accum) = ptau_file::<E>(bytes, limit) {
        let sections = ptau_table(bytes, limit)->Ok_0;
        let power = ptau_power::<E>(bytes, sections)->Ok_0;
        let (a, b) = ptau_counts(power)->0;
        lemma_read_g1::<E>(g1, bytes, first_section(sections, 2)->Ok_0, one, a);
        lemma_read_g2::<E>(g2, bytes, first_section(sections, 3)->Ok_0, two, b);
        lemma_read_g1::<E>(g1, bytes, first_section(sections, 4)->Ok_0, one, b);
        lemma_read_g1::<E>(g1, bytes, first_section(sections, 5)->Ok_0, one, b);
        E::lemma_read_ptau_g2(bytes, first_section(sections, 6)->Ok_0);
    }
}

/// Whatever is read from a radix file, every point of it lies on its curve and has reduced
/// coordinates.
pub proof fn law_radix_points_are_on_the_curves<E: PairingReader>(
    name: Option<Seq<u8>>,
    bytes: Seq<u8>,
)
    ensures
        radix_file::<E>(name, bytes) matches Ok(prepared) ==> writable_prepared(prepared),
{
    let (g1, g2) = (radix_g1_source::<E>(bytes), radix_g2_source::<E>(bytes));
    let (one, two) = (2 * E::element_length(), 4 * E::element_length());
    if let Ok(prepared) = radix_file::<E>(name, bytes) {
        let size = radix_size(name)->Ok_0;
        let start = one + one + two;
        let next = start + size * one + size * two;
        E::lemma_read_radix_g1(bytes, 0);
        E::lemma_read_radix_g1(bytes, one);
        E::lemma_read_radix_g2(bytes, one + one);
        lemma_read_g1::<E>(g1, bytes, start, one, size);
        lemma_read_g2::<E>(g2, bytes, start + size * one, two, size);
        lemma_read_g1::<E>(g1, bytes, next, one, size);
        lemma_read_g1::<E>(g1, bytes, next + size * one, one, size);
        lemma_read_g1::<E>(
            g1,
            bytes,
            next + size * one + size * one,
            one,
            (size - 1) as nat,
        );
    }
}

/// Points that are read are as many as are asked for, and lie within the file.
proof fn lemma_points_within<T>(
    source: spec_fn(nat) -> Result<T, ReadErrorModel>,
    bytes: Seq<u8>,
    start: nat,
    step: nat,
    count: nat,
)
    requires
        forall|position: nat|
            #![trigger source(position)]
            source(position) is Ok ==> position + step <= bytes.len(),
    ensures
        points(source, start, step, count) matches Ok(read) ==> read.len() == count && (count > 0
            ==> start + count * step <= bytes.len()),
    decreases count,
{
    if count > 0 {
        let last = (count - 1) as nat;
        lemma_points_within(source, bytes, start, step, last);
        assert(count * step == last * step + step) by (nonlinear_arith)
            requires
                count == last + 1,
        ;
    }
}

/// A radix file that is read holds all that is read of it, for the size in its name, and a shorter
/// file is refused.
pub proof fn law_radix_files_are_read_in_full<E: PairingReader>(
    name: Option<Seq<u8>>,
    bytes: Seq<u8>,
)
    ensures
        radix_file::<E>(name, bytes) matches Ok(prepared) ==> {
            let size = radix_size(name)->Ok_0;
            let one = 2 * E::element_length();
            let two = 4 * E::element_length();
            &&& radix_size(name) is Ok
            &&& prepared.tau_lagrange_g1.len() == size
            &&& prepared.tau_lagrange_g2.len() == size
            &&& prepared.alpha_lagrange_g1.len() == size
            &&& prepared.beta_lagrange_g1.len() == size
            &&& prepared.h_query.len() == size - 1
            &&& bytes.len() >= one + one + two + size * one + size * two + size * one + size * one
                + (size - 1) * one
        },
{
    let (g1, g2) = (radix_g1_source::<E>(bytes), radix_g2_source::<E>(bytes));
    let (one, two) = (2 * E::element_length(), 4 * E::element_length());
    if let Ok(prepared) = radix_file::<E>(name, bytes) {
        let size = radix_size(name)->Ok_0;
        let exponent = parsed_usize(after_marker(name->0, name->0.len()))->0;
        lemma_pow2_pos(exponent);
        let start = one + one + two;
        let next = start + size * one + size * two;
        assert forall|position: nat|
            #![trigger g1(position)]
            g1(position) is Ok implies position + one <= bytes.len() by {
            E::lemma_read_radix_g1(bytes, position);
        }
        assert forall|position: nat|
            #![trigger g2(position)]
            g2(position) is Ok implies position + two <= bytes.len() by {
            E::lemma_read_radix_g2(bytes, position);
        }
        lemma_points_within(g1, bytes, start, one, size);
        lemma_points_within(g2, bytes, start + size * one, two, size);
        lemma_points_within(g1, bytes, next, one, size);
        lemma_points_within(g1, bytes, next + size * one, one, size);
        lemma_points_within(
            g1,
            bytes,
            next + size * one + size * one,
            one,
            (size - 1) as nat,
        );
        if size == 1 {
            assert((size - 1) * one == 0);
        }
    }
}

/// A ptau file that is read gives `2 n - 1` powers in the first group for `n`, a power of two, in
/// the second, or none at all, and holds the points of each section.
pub proof fn law_ptau_files_are_read_in_full<E: PairingReader>(bytes: Seq<u8>, limit: SeekLimit)
    ensures
        ptau_file::<E>(bytes, limit) matches Ok(accum) ==> {
            let n = accum.tau_powers_g2.len();
            &&& accum.alpha_tau_powers_g1.len() == n
            &&& accum.beta_tau_powers_g1.len() == n
            &&& accum.tau_powers_g1.len() == (if n == 0 {
                0
            } else {
                2 * n - 1
            })
            &&& n == 0 || exists|power: nat| power < 30 && n == #[trigger] pow2(power)
            &&& bytes.len() >= accum.tau_powers_g1.len() * (2 * E::element_length())
            &&& bytes.len() >= n * (4 * E::element_length())
        },
{
    let (g1, g2) = (ptau_g1_source::<E>(bytes), ptau_g2_source::<E>(bytes));
    let (one, two) = (2 * E::element_length(), 4 * E::element_length());
    if let Ok(accum) = ptau_file::<E>(bytes, limit) {
        let sections = ptau_table(bytes, limit)->Ok_0;
        let power = ptau_power::<E>(bytes, sections)->Ok_0;
        let (a, b) = ptau_counts(power)->0;
        lemma_pow2_pos(power);
        assert forall|position: nat|
            #![trigger g1(position)]
            g1(position) is Ok implies position + one <= bytes.len() by {
            E::lemma_read_ptau_g1(bytes, position);
        }
        assert forall|position: nat|
            #![trigger g2(position)]
            g2(position) is Ok implies position + two <= bytes.len() by {
            E::lemma_read_ptau_g2(bytes, position);
        }
        lemma_points_within(g1, bytes, first_section(sections, 2)->Ok_0, one, a);
        lemma_points_within(g2, bytes, first_section(sections, 3)->Ok_0, two, b);
        lemma_points_within(g1, bytes, first_section(sections, 4)->Ok_0, one, b);
        lemma_points_within(g1, bytes, first_section(sections, 5)->Ok_0, one, b);
        assert(0 * one == 0 && 0 * two == 0);
    }
}

/// A ptau file whose first section is longer than a signed number, or ends past where the system
/// can position a file, is refused for it, and so is one that ends before the number of its
/// sections.
pub proof fn law_sections_end_within_the_limit<E: PairingReader>(
    head: Seq<u8>,
    count: nat,
    kind: nat,
    length: nat,
    rest: Seq<u8>,
    short: Seq<u8>,
    limit: SeekLimit,
)
    requires
        head.len() == 8,
        0 < count <= u32::MAX,
        length <= u64::MAX,
        short.len() < 12,
    ensures
        ({
            let file = head + to_le(count, 4) + to_le(kind, 4) + to_le(length, 8) + rest;
            &&& length > i64::MAX ==> ptau_file::<E>(file, limit) == Err::<
                AccumulatorModel<E>,
                ReadErrorModel,
            >(ReadErrorModel::Error(ErrorModel::TryFromInt))
            &&& length <= i64::MAX && 24 + length > limit.largest ==> ptau_file::<E>(file, limit)
                == Err::<AccumulatorModel<E>, ReadErrorModel>(
                ReadErrorModel::Error(ErrorModel::IO(limit.failure@)),
            )
        }),
        ptau_file::<E>(short, limit) == Err::<AccumulatorModel<E>, ReadErrorModel>(
            ReadErrorModel::Error(ErrorModel::IO("failed to fill whole buffer"@)),
        ),
{
    let file = head + to_le(count, 4) + to_le(kind, 4) + to_le(length, 8) + rest;
    lemma2_to64();
    lemma2_to64_rest();
    lemma_to_le(count, 4);
    lemma_to_le(kind, 4);
    lemma_to_le(length, 8);
    assert(file.subrange(8, 12) =~= to_le(count, 4));
    assert(file.subrange(12, 16) =~= to_le(kind, 4));
    assert(file.subrange(16, 24) =~= to_le(length, 8));
    reveal_with_fuel(ptau_sections, 2);
    if length > i64::MAX || 24 + length > limit.largest {
        lemma_sections_failure(file, limit, 1, count);
    }
}

} // verus!
