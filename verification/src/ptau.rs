use vstd::arithmetic::power2::{lemma2_to64, lemma_pow2_pos, lemma_pow2_strictly_increases, pow2};
use vstd::pervasive::unreached;
use vstd::prelude::*;

use crate::accumulator::{Accumulator, AccumulatorModel};
use crate::error::{Error, ErrorModel};
use crate::math::{le_value, power_of_two_at};
use crate::reader::{
    bytes_at, number_at, points, ptau_g1_source, ptau_g2_source, read_ptau_g1_points,
    read_ptau_g2_points, ByteReader, Defect, PairingReader, ReadError, ReadErrorModel,
};

verus! {

/// How far the system can position a file.
#[derive(Clone, Debug, PartialEq, Eq)]
pub struct SeekLimit {
    /// The largest position that the system accepts.
    pub largest: u64,
    /// What the system says of a position past that.
    pub failure: String,
}

/// The types and positions of the first `count` sections, and the position behind them. The
/// header of the file takes 12 bytes; each section has its type, its length, and then its
/// contents.
pub open spec fn ptau_sections(bytes: Seq<u8>, limit: SeekLimit, count: nat) -> Result<
    (Seq<(u32, u64)>, nat),
    ReadErrorModel,
>
    decreases count,
{
    if count == 0 {
        Ok((Seq::empty(), 12))
    } else {
        match ptau_sections(bytes, limit, (count - 1) as nat) {
            Err(error) => Err(error),
            Ok((sections, position)) => match number_at(bytes, position, 4) {
                Err(error) => Err(error),
                Ok(kind) => match number_at(bytes, position + 4, 8) {
                    Err(error) => Err(error),
                    Ok(length) => if length > i64::MAX {
                        Err(ReadErrorModel::Error(ErrorModel::TryFromInt))
                    } else if position + 12 + length > limit.largest {
                        Err(ReadErrorModel::Error(ErrorModel::IO(limit.failure@)))
                    } else {
                        Ok(
                            (
                                sections.push((kind as u32, (position + 12) as u64)),
                                position + 12 + length,
                            ),
                        )
                    },
                },
            },
        }
    }
}

/// The position of the first section of a type.
pub open spec fn first_section(sections: Seq<(u32, u64)>, kind: u32) -> Result<
    nat,
    ReadErrorModel,
>
    decreases sections.len(),
{
    if sections.len() == 0 {
        Err(ReadErrorModel::Defect(Defect::MissingSection(kind)))
    } else {
        match first_section(sections.drop_last(), kind) {
            Ok(position) => Ok(position),
            Err(error) => if sections.last().0 == kind {
                Ok(sections.last().1 as nat)
            } else {
                Err(error)
            },
        }
    }
}

/// The power in the header section: it follows the order of the base field, which has to be the
/// pairing's. Another power behind it and the number of contributions are read, too.
pub open spec fn ptau_power<E: PairingReader>(
    bytes: Seq<u8>,
    sections: Seq<(u32, u64)>,
) -> Result<nat, ReadErrorModel> {
    match first_section(sections, 1) {
        Err(error) => Err(error),
        Ok(header) => match number_at(bytes, header, 4) {
            Err(error) => Err(error),
            Ok(length) => match bytes_at(bytes, header + 4, length) {
                Err(error) => Err(error),
                Ok(field) => if field.len() == E::element_length() && le_value(field)
                    == E::modulus() {
                    match number_at(bytes, header + 4 + length, 4) {
                        Err(error) => Err(error),
                        Ok(power) => match number_at(bytes, header + 8 + length, 4) {
                            Err(error) => Err(error),
                            Ok(_) => match first_section(sections, 7) {
                                Err(error) => Err(error),
                                Ok(ceremony) => match number_at(bytes, ceremony, 4) {
                                    Err(error) => Err(error),
                                    Ok(_) => Ok(power),
                                },
                            },
                        },
                    }
                } else {
                    Err(ReadErrorModel::Error(ErrorModel::PtauFieldNotMatching))
                },
            },
        },
    }
}

/// The numbers of powers in the two groups, in signed 32-bit arithmetic: up to 29 they are
/// `2^(power + 1) - 1` and `2^power`, and for 31 they are negative, so that there is none.
pub open spec fn ptau_counts(power: nat) -> Option<(nat, nat)> {
    if power < 30 {
        Some(((2 * pow2(power) - 1) as nat, pow2(power)))
    } else if power == 31 {
        Some((0, 0))
    } else {
        None
    }
}

/// The points of the first group in a section.
pub open spec fn ptau_g1_section<E: PairingReader>(
    bytes: Seq<u8>,
    sections: Seq<(u32, u64)>,
    kind: u32,
    count: nat,
) -> Result<Seq<E::G1Affine>, ReadErrorModel> {
    match first_section(sections, kind) {
        Err(error) => Err(error),
        Ok(position) => points(
            ptau_g1_source::<E>(bytes),
            position,
            2 * E::element_length(),
            count,
        ),
    }
}

/// The points of the second group in a section.
pub open spec fn ptau_g2_section<E: PairingReader>(
    bytes: Seq<u8>,
    sections: Seq<(u32, u64)>,
    kind: u32,
    count: nat,
) -> Result<Seq<E::G2Affine>, ReadErrorModel> {
    match first_section(sections, kind) {
        Err(error) => Err(error),
        Ok(position) => points(
            ptau_g2_source::<E>(bytes),
            position,
            4 * E::element_length(),
            count,
        ),
    }
}

/// The powers in the sections of the file.
pub open spec fn ptau_points<E: PairingReader>(
    bytes: Seq<u8>,
    sections: Seq<(u32, u64)>,
    g1_count: nat,
    g2_count: nat,
) -> Result<AccumulatorModel<E>, ReadErrorModel> {
    match ptau_g1_section::<E>(bytes, sections, 2, g1_count) {
        Err(error) => Err(error),
        Ok(tau_g1) => match ptau_g2_section::<E>(bytes, sections, 3, g2_count) {
            Err(error) => Err(error),
            Ok(tau_g2) => match ptau_g1_section::<E>(bytes, sections, 4, g2_count) {
                Err(error) => Err(error),
                Ok(alpha_tau_g1) => match ptau_g1_section::<E>(bytes, sections, 5, g2_count) {
                    Err(error) => Err(error),
                    Ok(beta_tau_g1) => match first_section(sections, 6) {
                        Err(error) => Err(error),
                        Ok(position) => match E::ptau_g2(bytes, position) {
                            Err(error) => Err(error),
                            Ok(beta_g2) => Ok(
                                AccumulatorModel {
                                    tau_powers_g1: tau_g1,
                                    tau_powers_g2: tau_g2,
                                    alpha_tau_powers_g1: alpha_tau_g1,
                                    beta_tau_powers_g1: beta_tau_g1,
                                    beta_g2,
                                },
                            ),
                        },
                    },
                },
            },
        },
    }
}

/// The types and positions of the sections, as many as the header of the file says.
pub open spec fn ptau_table(bytes: Seq<u8>, limit: SeekLimit) -> Result<
    Seq<(u32, u64)>,
    ReadErrorModel,
> {
    match number_at(bytes, 8, 4) {
        Err(error) => Err(error),
        Ok(count) => match ptau_sections(bytes, limit, count) {
            Err(error) => Err(error),
            Ok((sections, _)) => Ok(sections),
        },
    }
}

/// What a ptau file holds.
pub open spec fn ptau_file<E: PairingReader>(bytes: Seq<u8>, limit: SeekLimit) -> Result<
    AccumulatorModel<E>,
    ReadErrorModel,
> {
    match ptau_table(bytes, limit) {
        Err(error) => Err(error),
        Ok(sections) => match ptau_power::<E>(bytes, sections) {
            Err(error) => Err(error),
            Ok(power) => match ptau_counts(power) {
                None => Err(ReadErrorModel::Defect(Defect::PowerTooLarge)),
                Some((g1_count, g2_count)) => ptau_points::<E>(
                    bytes,
                    sections,
                    g1_count,
                    g2_count,
                ),
            },
        },
    }
}

/// The contents of the first section of a type, by the length in front of them.
pub open spec fn section_contents(
    bytes: Seq<u8>,
    sections: Seq<(u32, u64)>,
    kind: u32,
) -> Result<Seq<u8>, ReadErrorModel> {
    match first_section(sections, kind) {
        Err(error) => Err(error),
        Ok(position) => match number_at(bytes, (position - 8) as nat, 8) {
            Err(error) => Err(error),
            Ok(length) => bytes_at(bytes, position, length),
        },
    }
}

/// Whether every section from the first type to the seventh is there, in full.
pub open spec fn has_sections(bytes: Seq<u8>, sections: Seq<(u32, u64)>) -> bool {
    forall|kind: u32| 1 <= kind <= 7 ==> #[trigger] section_contents(bytes, sections, kind) is Ok
}

/// Whether the contents of the sections are as long as what is read of them.
pub open spec fn sections_suffice<E: PairingReader>(
    bytes: Seq<u8>,
    sections: Seq<(u32, u64)>,
) -> bool {
    let contents = |kind: u32| section_contents(bytes, sections, kind)->Ok_0;
    let header = contents(1);
    let field = le_value(header.take(4));
    let length = E::element_length();
    &&& header.len() >= 4
    &&& header.len() >= field + 12
    &&& contents(7).len() >= 4
    &&& contents(6).len() >= 4 * length
    &&& ptau_counts(
        le_value(header.subrange((field + 4) as int, (field + 8) as int)),
    ) matches Some((g1_count, g2_count)) ==> {
        &&& contents(2).len() >= g1_count * (2 * length)
        &&& contents(3).len() >= g2_count * (4 * length)
        &&& contents(4).len() >= g2_count * (2 * length)
        &&& contents(5).len() >= g2_count * (2 * length)
    }
}

/// What lies within the same contents is the same.
pub proof fn lemma_within(
    a: Seq<u8>,
    p: nat,
    b: Seq<u8>,
    q: nat,
    length: nat,
    offset: nat,
    count: nat,
)
    requires
        bytes_at(a, p, length) is Ok,
        bytes_at(a, p, length) == bytes_at(b, q, length),
        offset + count <= length,
    ensures
        bytes_at(a, p + offset, count) == bytes_at(b, q + offset, count),
        bytes_at(a, p + offset, count) == Ok::<Seq<u8>, ReadErrorModel>(
            bytes_at(a, p, length)->Ok_0.subrange(offset as int, (offset + count) as int),
        ),
{
    let own = bytes_at(a, p, length)->Ok_0;
    let part = own.subrange(offset as int, (offset + count) as int);
    assert(own.len() == length);
    assert(a.subrange((p + offset) as int, (p + offset + count) as int) =~= part);
    assert(b.subrange((q + offset) as int, (q + offset + count) as int) =~= part);
}

proof fn lemma_same_points<T>(
    f: spec_fn(nat) -> Result<T, ReadErrorModel>,
    g: spec_fn(nat) -> Result<T, ReadErrorModel>,
    p: nat,
    q: nat,
    step: nat,
    count: nat,
)
    requires
        forall|i: nat| i < count ==> #[trigger] f(p + i * step) == g(q + i * step),
    ensures
        points(f, p, step, count) == points(g, q, step, count),
    decreases count,
{
    if count > 0 {
        let last = (count - 1) as nat;
        lemma_same_points(f, g, p, q, step, last);
        assert(f(p + last * step) == g(q + last * step));
    }
}

/// Where the contents of the first section of a type are.
proof fn lemma_contents(bytes: Seq<u8>, sections: Seq<(u32, u64)>, kind: u32) -> (position: nat)
    requires
        section_contents(bytes, sections, kind) is Ok,
    ensures
        first_section(sections, kind) == Ok::<nat, ReadErrorModel>(position),
        bytes_at(bytes, position, section_contents(bytes, sections, kind)->Ok_0.len())
            == section_contents(bytes, sections, kind),
{
    let position = first_section(sections, kind)->Ok_0;
    let length = number_at(bytes, (position - 8) as nat, 8)->Ok_0;
    assert(section_contents(bytes, sections, kind)->Ok_0.len() == length);
    position
}

proof fn lemma_same_g1_section<E: PairingReader>(
    a: Seq<u8>,
    s: Seq<(u32, u64)>,
    b: Seq<u8>,
    t: Seq<(u32, u64)>,
    kind: u32,
    count: nat,
)
    requires
        section_contents(a, s, kind) is Ok,
        section_contents(a, s, kind) == section_contents(b, t, kind),
        section_contents(a, s, kind)->Ok_0.len() >= count * (2 * E::element_length()),
    ensures
        ptau_g1_section::<E>(a, s, kind, count) == ptau_g1_section::<E>(b, t, kind, count),
{
    let p = lemma_contents(a, s, kind);
    let q = lemma_contents(b, t, kind);
    let step = 2 * E::element_length();
    let length = section_contents(a, s, kind)->Ok_0.len();
    let (f, g) = (ptau_g1_source::<E>(a), ptau_g1_source::<E>(b));
    assert forall|i: nat| i < count implies #[trigger] f(p + i * step) == g(q + i * step) by {
        assert(i * step + step <= count * step) by (nonlinear_arith)
            requires
                i + 1 <= count,
        ;
        lemma_within(a, p, b, q, length, i * step, step);
        E::lemma_ptau_g1(a, p + i * step, b, q + i * step);
    }
    lemma_same_points(f, g, p, q, step, count);
}

proof fn lemma_same_g2_section<E: PairingReader>(
    a: Seq<u8>,
    s: Seq<(u32, u64)>,
    b: Seq<u8>,
    t: Seq<(u32, u64)>,
    kind: u32,
    count: nat,
)
    requires
        section_contents(a, s, kind) is Ok,
        section_contents(a, s, kind) == section_contents(b, t, kind),
        section_contents(a, s, kind)->Ok_0.len() >= count * (4 * E::element_length()),
    ensures
        ptau_g2_section::<E>(a, s, kind, count) == ptau_g2_section::<E>(b, t, kind, count),
{
    let p = lemma_contents(a, s, kind);
    let q = lemma_contents(b, t, kind);
    let step = 4 * E::element_length();
    let length = section_contents(a, s, kind)->Ok_0.len();
    let (f, g) = (ptau_g2_source::<E>(a), ptau_g2_source::<E>(b));
    assert forall|i: nat| i < count implies #[trigger] f(p + i * step) == g(q + i * step) by {
        assert(i * step + step <= count * step) by (nonlinear_arith)
            requires
                i + 1 <= count,
        ;
        lemma_within(a, p, b, q, length, i * step, step);
        E::lemma_ptau_g2(a, p + i * step, b, q + i * step);
    }
    lemma_same_points(f, g, p, q, step, count);
}

/// Two files with the same contents in the first section of each type from 1 to 7 hold the same,
/// wherever those sections stand, whatever stands between them and whatever the headers of the
/// files say, as long as the sections hold what is read of them.
pub proof fn law_sections_are_found_by_type<E: PairingReader>(
    a: Seq<u8>,
    b: Seq<u8>,
    limit: SeekLimit,
)
    requires
        ptau_table(a, limit) is Ok,
        ptau_table(b, limit) is Ok,
        has_sections(a, ptau_table(a, limit)->Ok_0),
        sections_suffice::<E>(a, ptau_table(a, limit)->Ok_0),
        forall|kind: u32|
            1 <= kind <= 7 ==> #[trigger] section_contents(a, ptau_table(a, limit)->Ok_0, kind)
                == section_contents(b, ptau_table(b, limit)->Ok_0, kind),
    ensures
        ptau_file::<E>(a, limit) == ptau_file::<E>(b, limit),
{
    let s = ptau_table(a, limit)->Ok_0;
    let t = ptau_table(b, limit)->Ok_0;
    let length = E::element_length();
    assert(forall|kind: u32|
        1 <= kind <= 7 ==> #[trigger] section_contents(a, s, kind) is Ok
            && section_contents(a, s, kind) == section_contents(b, t, kind));
    let header = section_contents(a, s, 1)->Ok_0;
    let field = le_value(header.take(4));
    let p = lemma_contents(a, s, 1);
    let q = lemma_contents(b, t, 1);
    lemma_within(a, p, b, q, header.len(), 0, 4);
    assert(header.subrange(0, 4) =~= header.take(4));
    lemma_within(a, p, b, q, header.len(), 4, field);
    lemma_within(a, p, b, q, header.len(), 4 + field, 4);
    lemma_within(a, p, b, q, header.len(), 8 + field, 4);
    let ceremony = section_contents(a, s, 7)->Ok_0;
    let c = lemma_contents(a, s, 7);
    let d = lemma_contents(b, t, 7);
    lemma_within(a, c, b, d, ceremony.len(), 0, 4);
    assert(ptau_power::<E>(a, s) == ptau_power::<E>(b, t));
    if let Ok(power) = ptau_power::<E>(a, s) {
        assert(power == le_value(header.subrange((field + 4) as int, (field + 8) as int)));
        if let Some((g1_count, g2_count)) = ptau_counts(power) {
            lemma_same_g1_section::<E>(a, s, b, t, 2, g1_count);
            lemma_same_g2_section::<E>(a, s, b, t, 3, g2_count);
            lemma_same_g1_section::<E>(a, s, b, t, 4, g2_count);
            lemma_same_g1_section::<E>(a, s, b, t, 5, g2_count);
            let beta = section_contents(a, s, 6)->Ok_0;
            let m = lemma_contents(a, s, 6);
            let n = lemma_contents(b, t, 6);
            lemma_within(a, m, b, n, beta.len(), 0, 4 * length);
            E::lemma_ptau_g2(a, m, b, n);
        }
    }
}

pub proof fn lemma_sections_failure(bytes: Seq<u8>, limit: SeekLimit, count: nat, more: nat)
    requires
        ptau_sections(bytes, limit, count) is Err,
        count <= more,
    ensures
        ptau_sections(bytes, limit, more) == ptau_sections(bytes, limit, count),
    decreases more,
{
    if count < more {
        lemma_sections_failure(bytes, limit, count, (more - 1) as nat);
    }
}

/// Reads the table of `count` sections behind the header of the file.
fn read_sections(bytes: &[u8], limit: &SeekLimit, count: u32) -> (res: Result<
    Vec<(u32, u64)>,
    ReadError,
>)
    requires
        bytes@.len() >= 12,
    ensures
        match res {
            Ok(sections) => ptau_sections(bytes@, *limit, count as nat) matches Ok((expected, _))
                && expected == sections@,
            Err(error) => ptau_sections(bytes@, *limit, count as nat) == Err::<
                (Seq<(u32, u64)>, nat),
                ReadErrorModel,
            >(error@),
        },
{
    let mut reader = ByteReader { bytes, position: 12 };
    let mut sections: Vec<(u32, u64)> = Vec::new();
    let mut i: u32 = 0;
    proof {
        assert(sections@ =~= Seq::empty());
    }
    while i < count
        invariant
            i <= count,
            reader.bytes == bytes,
            ptau_sections(bytes@, *limit, i as nat) == Ok::<(Seq<(u32, u64)>, nat), ReadErrorModel>(
                (sections@, reader.position as nat),
            ),
        decreases count - i,
    {
        let ghost position = reader.position as nat;
        proof {
            // A failure at this section is the failure of all of them.
            if ptau_sections(bytes@, *limit, (i + 1) as nat) is Err {
                lemma_sections_failure(bytes@, *limit, (i + 1) as nat, count as nat);
            }
        }
        let kind: u32 = reader.read_u32()?;
        let length: u64 = reader.read_u64()?;
        if length > i64::MAX as u64 {
            return Err(ReadError::Error(Error::TryFromInt));
        }
        if reader.position > limit.largest || length > limit.largest - reader.position {
            return Err(ReadError::Error(Error::IO(limit.failure.as_str().to_owned())));
        }
        sections.push((kind, reader.position));
        reader.position = reader.position + length;
        i = i + 1;
    }
    Ok(sections)
}

/// Finds the first section of a type.
fn find_section(sections: &Vec<(u32, u64)>, kind: u32) -> (res: Result<u64, ReadError>)
    ensures
        match res {
            Ok(position) => first_section(sections@, kind) == Ok::<nat, ReadErrorModel>(
                position as nat,
            ),
            Err(error) => first_section(sections@, kind) == Err::<nat, ReadErrorModel>(error@),
        },
{
    let mut i: usize = 0;
    proof {
        assert(sections@.take(0) =~= Seq::empty());
    }
    while i < sections.len()
        invariant
            i <= sections@.len(),
            first_section(sections@.take(i as int), kind) == Err::<nat, ReadErrorModel>(
                ReadErrorModel::Defect(Defect::MissingSection(kind)),
            ),
        decreases sections.len() - i,
    {
        proof {
            assert(sections@.take(i + 1).drop_last() =~= sections@.take(i as int));
        }
        if sections[i].0 == kind {
            proof {
                lemma_first_section(sections@, kind, (i + 1) as nat);
            }
            return Ok(sections[i].1);
        }
        i = i + 1;
    }
    proof {
        assert(sections@.take(i as int) =~= sections@);
    }
    Err(ReadError::Defect(Defect::MissingSection(kind)))
}

pub proof fn lemma_first_section(sections: Seq<(u32, u64)>, kind: u32, count: nat)
    requires
        count <= sections.len(),
        first_section(sections.take(count as int), kind) is Ok,
    ensures
        first_section(sections, kind) == first_section(sections.take(count as int), kind),
    decreases sections.len(),
{
    if count == sections.len() {
        assert(sections.take(count as int) =~= sections);
    } else {
        assert(sections.drop_last().take(count as int) =~= sections.take(count as int));
        lemma_first_section(sections.drop_last(), kind, count);
    }
}

/// Reads the header section and the number of contributions.
fn read_power<E: PairingReader>(bytes: &[u8], sections: &Vec<(u32, u64)>) -> (res: Result<
    u32,
    ReadError,
>)
    ensures
        match res {
            Ok(power) => ptau_power::<E>(bytes@, sections@) == Ok::<nat, ReadErrorModel>(
                power as nat,
            ),
            Err(error) => ptau_power::<E>(bytes@, sections@) == Err::<nat, ReadErrorModel>(
                error@,
            ),
        },
{
    let header: u64 = find_section(sections, 1)?;
    let mut reader = ByteReader { bytes, position: header };
    let length: u32 = reader.read_u32()?;
    let field = reader.read_exact(length as usize)?;
    if !E::is_modulus(field) {
        return Err(ReadError::Error(Error::PtauFieldNotMatching));
    }
    let power: u32 = reader.read_u32()?;
    let _ceremony_power: u32 = reader.read_u32()?;
    let ceremony: u64 = find_section(sections, 7)?;
    reader.position = ceremony;
    let _contributions: u32 = reader.read_u32()?;
    Ok(power)
}

/// The numbers of powers in the two groups.
fn count_powers(power: u32) -> (res: Option<(usize, usize)>)
    ensures
        match res {
            Some((g1_count, g2_count)) => ptau_counts(power as nat) == Some(
                (g1_count as nat, g2_count as nat),
            ),
            None => ptau_counts(power as nat) is None,
        },
{
    if power == 31 {
        return Some((0, 0));
    }
    if power >= 30 {
        return None;
    }
    proof {
        lemma2_to64();
        lemma_pow2_strictly_increases(power as nat, 30);
        lemma_pow2_pos(power as nat);
    }
    match power_of_two_at(power as usize) {
        Some(count) => Some((count * 2 - 1, count)),
        None => None,
    }
}

impl<E: PairingReader> Accumulator<E> {
    /// Reads the contents of a ptau file, which the system can position as far as `limit` says,
    /// with the defects that make it no ptau file at all told apart from the errors.
    pub fn parse_ptau(bytes: &[u8], limit: &SeekLimit) -> (res: Result<
        Accumulator<E>,
        ReadError,
    >)
        ensures
            match res {
                Ok(accumulator) => ptau_file::<E>(bytes@, *limit) == Ok::<
                    AccumulatorModel<E>,
                    ReadErrorModel,
                >(accumulator@),
                Err(error) => ptau_file::<E>(bytes@, *limit) == Err::<AccumulatorModel<E>, ReadErrorModel>(
                    error@,
                ),
            },
    {
        let mut reader = ByteReader { bytes, position: 8 };
        let count: u32 = reader.read_u32()?;
        let sections = read_sections(bytes, limit, count)?;
        let power: u32 = read_power::<E>(bytes, &sections)?;
        let (g1_count, g2_count) = match count_powers(power) {
            Some(counts) => counts,
            None => {
                return Err(ReadError::Defect(Defect::PowerTooLarge));
            },
        };
        reader.position = find_section(&sections, 2)?;
        let tau_powers_g1 = read_ptau_g1_points::<E>(&mut reader, g1_count)?;
        reader.position = find_section(&sections, 3)?;
        let tau_powers_g2 = read_ptau_g2_points::<E>(&mut reader, g2_count)?;
        reader.position = find_section(&sections, 4)?;
        let alpha_tau_powers_g1 = read_ptau_g1_points::<E>(&mut reader, g2_count)?;
        reader.position = find_section(&sections, 5)?;
        let beta_tau_powers_g1 = read_ptau_g1_points::<E>(&mut reader, g2_count)?;
        reader.position = find_section(&sections, 6)?;
        let beta_g2 = E::read_ptau_g2(&mut reader)?;
        Ok(
            Accumulator {
                tau_powers_g1,
                tau_powers_g2,
                alpha_tau_powers_g1,
                beta_tau_powers_g1,
                beta_g2,
            },
        )
    }

    /// Reads the contents of a ptau file, which the system can position as far as `limit` says.
    pub fn from_ptau_file(bytes: &[u8], limit: &SeekLimit) -> (res: Result<
        Accumulator<E>,
        Error,
    >)
        requires
            !(ptau_file::<E>(bytes@, *limit) matches Err(ReadErrorModel::Defect(_))),
        ensures
            match res {
                Ok(accumulator) => ptau_file::<E>(bytes@, *limit) == Ok::<
                    AccumulatorModel<E>,
                    ReadErrorModel,
                >(accumulator@),
                Err(error) => ptau_file::<E>(bytes@, *limit) == Err::<AccumulatorModel<E>, ReadErrorModel>(
                    ReadErrorModel::Error(error@),
                ),
            },
    {
        match Self::parse_ptau(bytes, limit) {
            Ok(accumulator) => Ok(accumulator),
            Err(ReadError::Error(error)) => Err(error),
            Err(ReadError::Defect(_)) => unreached(),
        }
    }
}

} // verus!
