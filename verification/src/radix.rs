use vstd::arithmetic::power2::{lemma_pow2_pos, pow2};
use vstd::pervasive::unreached;
use vstd::prelude::*;
use vstd::string::StringSliceAdditionalSpecFns;

use crate::accumulator::{Accumulator, AccumulatorModel, PreparedAccumulator, PreparedModel};
use crate::curve::{fft, sum, AffineRepr, GroupModel, Pairing, PrimeField, ScalarModel};
use crate::error::{Error, ErrorModel, SynthesisError};
use crate::math::{domain_size, power_of_two_at};
use crate::reader::{
    points, radix_g1_source, radix_g2_source, read_radix_g1_points, read_radix_g2_points,
    ByteReader, Defect, PairingReader, ReadError, ReadErrorModel,
};
use crate::utils::batch_into_projective;

verus! {

/// `phase1radix2m`, which stands in a file's name before the exponent of its domain's size.
pub open spec fn marker() -> Seq<u8> {
    seq![
        0x70u8,
        0x68u8,
        0x61u8,
        0x73u8,
        0x65u8,
        0x31u8,
        0x72u8,
        0x61u8,
        0x64u8,
        0x69u8,
        0x78u8,
        0x32u8,
        0x6du8,
    ]
}

pub open spec fn marker_at(name: Seq<u8>, i: nat) -> bool {
    i + 13 <= name.len() && name.subrange(i as int, (i + 13) as int) == marker()
}

/// What follows the last marker that starts at `i` or before, or the whole name where there is
/// none.
pub open spec fn after_marker(name: Seq<u8>, i: nat) -> Seq<u8>
    decreases i,
{
    if marker_at(name, i) {
        name.skip((i + 13) as int)
    } else if i == 0 {
        name
    } else {
        after_marker(name, (i - 1) as nat)
    }
}

pub open spec fn is_digit(byte: u8) -> bool {
    0x30 <= byte <= 0x39
}

/// The number written by decimal digits.
pub open spec fn decimal_value(digits: Seq<u8>) -> nat
    decreases digits.len(),
{
    if digits.len() == 0 {
        0
    } else {
        10 * decimal_value(digits.drop_last()) + (digits.last() - 0x30) as nat
    }
}

/// The digits behind an optional plus sign.
pub open spec fn unsigned_digits(text: Seq<u8>) -> Seq<u8> {
    if text.len() > 0 && text[0] == 0x2b {
        text.skip(1)
    } else {
        text
    }
}

/// The number that `text` writes: decimal digits, at least one, behind an optional plus sign, and
/// no more than a `usize` holds.
pub open spec fn parsed_usize(text: Seq<u8>) -> Option<nat> {
    let digits = unsigned_digits(text);
    if digits.len() > 0 && (forall|i: int| 0 <= i < digits.len() ==> is_digit(digits[i]))
        && decimal_value(digits) <= usize::MAX {
        Some(decimal_value(digits))
    } else {
        None
    }
}

/// The size of the domain of a radix file of this name.
pub open spec fn radix_size(name: Option<Seq<u8>>) -> Result<nat, ReadErrorModel> {
    let exponent = match name {
        Some(name) => parsed_usize(after_marker(name, name.len())),
        None => None,
    };
    match exponent {
        None => Err(
            ReadErrorModel::Error(
                ErrorModel::Read("Unable to read evaluation domain from radix file name"@),
            ),
        ),
        Some(exponent) => if pow2(exponent) <= usize::MAX {
            Ok(pow2(exponent))
        } else {
            Err(ReadErrorModel::Defect(Defect::PowerTooLarge))
        },
    }
}

/// The bytes of a name.
pub open spec fn name_bytes(name: Option<&str>) -> Option<Seq<u8>> {
    match name {
        Some(text) => Some(text.spec_bytes()),
        None => None,
    }
}

/// What a radix file of a domain of `size` elements holds, in the order of the file: two points
/// of the first group, one of the second, the vectors of `tau` in both groups, of `alpha` and of
/// `beta`, and one element less of the `h` query.
pub open spec fn radix_contents<E: PairingReader>(bytes: Seq<u8>, size: nat) -> Result<
    PreparedModel<E>,
    ReadErrorModel,
> {
    let one = 2 * E::element_length();
    let two = 4 * E::element_length();
    let g1 = radix_g1_source::<E>(bytes);
    let g2 = radix_g2_source::<E>(bytes);
    match E::radix_g1(bytes, 0) {
        Err(error) => Err(error),
        Ok(alpha) => match E::radix_g1(bytes, one) {
            Err(error) => Err(error),
            Ok(beta) => match E::radix_g2(bytes, one + one) {
                Err(error) => Err(error),
                Ok(beta_g2) => {
                    let start = one + one + two;
                    match points(g1, start, one, size) {
                        Err(error) => Err(error),
                        Ok(tau_g1) => match points(g2, start + size * one, two, size) {
                            Err(error) => Err(error),
                            Ok(tau_g2) => {
                                let next = start + size * one + size * two;
                                match points(g1, next, one, size) {
                                    Err(error) => Err(error),
                                    Ok(alpha_g1) => match points(
                                        g1,
                                        next + size * one,
                                        one,
                                        size,
                                    ) {
                                        Err(error) => Err(error),
                                        Ok(beta_g1) => match points(
                                            g1,
                                            next + size * one + size * one,
                                            one,
                                            (size - 1) as nat,
                                        ) {
                                            Err(error) => Err(error),
                                            Ok(h_query) => Ok(
                                                PreparedModel {
                                                    alpha,
                                                    beta,
                                                    tau_lagrange_g1: tau_g1,
                                                    tau_lagrange_g2: tau_g2,
                                                    alpha_lagrange_g1: alpha_g1,
                                                    beta_lagrange_g1: beta_g1,
                                                    beta_g2,
                                                    h_query,
                                                },
                                            ),
                                        },
                                    },
                                }
                            },
                        },
                    }
                },
            },
        },
    }
}

/// What a radix file of this name holds.
pub open spec fn radix_file<E: PairingReader>(name: Option<Seq<u8>>, bytes: Seq<u8>) -> Result<
    PreparedModel<E>,
    ReadErrorModel,
> {
    match radix_size(name) {
        Err(error) => Err(error),
        Ok(size) => radix_contents::<E>(bytes, size),
    }
}

/// The powers whose Lagrange form a prepared accumulator is.
pub open spec fn unprepared<E: Pairing>(prepared: PreparedModel<E>) -> AccumulatorModel<E> {
    let tau_g1 = fft(prepared.tau_lagrange_g1);
    AccumulatorModel {
        tau_powers_g1: tau_g1 + Seq::new(
            prepared.h_query.len(),
            |i: int| sum(prepared.h_query[i], tau_g1[i]),
        ),
        tau_powers_g2: fft(prepared.tau_lagrange_g2),
        alpha_tau_powers_g1: fft(prepared.alpha_lagrange_g1),
        beta_tau_powers_g1: fft(prepared.beta_lagrange_g1),
        beta_g2: prepared.beta_g2,
    }
}

/// The powers that a radix file of this name holds the Lagrange form of.
pub open spec fn radix_powers<E: PairingReader>(name: Option<Seq<u8>>, bytes: Seq<u8>) -> Result<
    AccumulatorModel<E>,
    ReadErrorModel,
> {
    match radix_size(name) {
        Err(error) => Err(error),
        Ok(size) => match domain_size(size, E::ScalarField::two_adicity()) {
            None => Err(
                ReadErrorModel::Error(
                    ErrorModel::ConstraintSystem(SynthesisError::PolynomialDegreeTooLarge),
                ),
            ),
            Some(_) => match radix_contents::<E>(bytes, size) {
                Err(error) => Err(error),
                Ok(prepared) => Ok(unprepared(prepared)),
            },
        },
    }
}

/// Whether the marker starts at `i`.
fn is_marker_at(name: &[u8], i: usize) -> (res: bool)
    requires
        i <= name@.len(),
    ensures
        res == marker_at(name@, i as nat),
{
    if name.len() - i < 13 {
        return false;
    }
    let ghost own = name@.subrange(i as int, i + 13);
    let res = name[i] == 0x70 && name[i + 1] == 0x68 && name[i + 2] == 0x61 && name[i + 3] == 0x73
        && name[i + 4] == 0x65 && name[i + 5] == 0x31 && name[i + 6] == 0x72 && name[i + 7] == 0x61
        && name[i + 8] == 0x64 && name[i + 9] == 0x69 && name[i + 10] == 0x78 && name[i + 11]
        == 0x32 && name[i + 12] == 0x6d;
    proof {
        if res {
            assert(own =~= marker());
        } else {
            assert(own[0] == name@[i as int] && own[1] == name@[i + 1] && own[2] == name@[i + 2]
                && own[3] == name@[i + 3] && own[4] == name@[i + 4] && own[5] == name@[i + 5]
                && own[6] == name@[i + 6] && own[7] == name@[i + 7] && own[8] == name@[i + 8]
                && own[9] == name@[i + 9] && own[10] == name@[i + 10] && own[11] == name@[i + 11]
                && own[12] == name@[i + 12]);
        }
    }
    res
}

/// Where what follows the last marker starts.
fn find_tail(name: &[u8]) -> (res: usize)
    ensures
        res <= name@.len(),
        name@.skip(res as int) == after_marker(name@, name@.len()),
{
    let mut i: usize = name.len();
    while !is_marker_at(name, i)
        invariant
            i <= name@.len(),
            after_marker(name@, i as nat) == after_marker(name@, name@.len()),
        decreases i,
    {
        if i == 0 {
            proof {
                assert(name@.skip(0) =~= name@);
            }
            return 0;
        }
        i = i - 1;
    }
    i + 13
}

proof fn lemma_decimal_grows(digits: Seq<u8>, count: nat)
    requires
        count <= digits.len(),
        forall|i: int| 0 <= i < digits.len() ==> is_digit(digits[i]),
    ensures
        decimal_value(digits.take(count as int)) <= decimal_value(digits),
    decreases digits.len(),
{
    if count == digits.len() {
        assert(digits.take(count as int) =~= digits);
    } else {
        assert(digits.drop_last().take(count as int) =~= digits.take(count as int));
        lemma_decimal_grows(digits.drop_last(), count);
        assert(is_digit(digits[digits.len() - 1]));
    }
}

/// Reads a decimal number from the bytes from `start` on.
fn parse_usize(text: &[u8], start: usize) -> (res: Option<usize>)
    requires
        start <= text@.len(),
    ensures
        match res {
            Some(value) => parsed_usize(text@.skip(start as int)) == Some(value as nat),
            None => parsed_usize(text@.skip(start as int)) is None,
        },
{
    let ghost tail = text@.skip(start as int);
    let ghost digits = unsigned_digits(tail);
    let first: usize = if start < text.len() && text[start] == 0x2b {
        start + 1
    } else {
        start
    };
    proof {
        assert(digits =~= text@.skip(first as int));
    }
    if first == text.len() {
        return None;
    }
    let mut value: usize = 0;
    let mut i: usize = first;
    proof {
        assert(digits.take(0) =~= Seq::empty());
    }
    while i < text.len()
        invariant
            first <= i <= text@.len(),
            first < text@.len(),
            tail == text@.skip(start as int),
            digits == unsigned_digits(tail),
            digits == text@.skip(first as int),
            value == decimal_value(digits.take(i - first)),
            forall|j: int| 0 <= j < i - first ==> is_digit(digits[j]),
        decreases text.len() - i,
    {
        let byte: u8 = text[i];
        proof {
            assert(digits[i - first] == byte);
            assert(digits.take(i + 1 - first).drop_last() =~= digits.take(i - first));
            assert(digits.take(i + 1 - first).last() == byte);
        }
        if byte < 0x30 || byte > 0x39 {
            proof {
                assert(!is_digit(digits[i - first]));
            }
            return None;
        }
        let digit: usize = (byte - 0x30) as usize;
        if value > usize::MAX / 10 || value * 10 > usize::MAX - digit {
            proof {
                if forall|j: int| 0 <= j < digits.len() ==> is_digit(digits[j]) {
                    lemma_decimal_grows(digits, (i + 1 - first) as nat);
                }
            }
            return None;
        }
        value = value * 10 + digit;
        i = i + 1;
    }
    proof {
        assert(digits.take(i - first) =~= digits);
    }
    Some(value)
}

/// Reads the size of the domain from the name of a radix file.
pub fn read_radix_size(name: Option<&str>) -> (res: Result<usize, ReadError>)
    ensures
        match res {
            Ok(size) => radix_size(name_bytes(name)) == Ok::<nat, ReadErrorModel>(size as nat),
            Err(error) => radix_size(name_bytes(name)) == Err::<nat, ReadErrorModel>(error@),
        },
        res matches Ok(size) ==> size > 0,
{
    let exponent: Option<usize> = match name {
        Some(text) => {
            let bytes = text.as_bytes();
            parse_usize(bytes, find_tail(bytes))
        },
        None => None,
    };
    match exponent {
        None => Err(
            ReadError::Error(
                Error::Read("Unable to read evaluation domain from radix file name".to_owned()),
            ),
        ),
        Some(exponent) => {
            proof {
                lemma_pow2_pos(exponent as nat);
            }
            match power_of_two_at(exponent) {
                Some(size) => Ok(size),
                None => Err(ReadError::Defect(Defect::PowerTooLarge)),
            }
        },
    }
}

/// The points of a radix file.
struct RadixPoints<E: Pairing> {
    alpha: E::G1Affine,
    beta: E::G1Affine,
    beta_g2: E::G2Affine,
    tau_g1: Vec<E::G1Affine>,
    tau_g2: Vec<E::G2Affine>,
    alpha_g1: Vec<E::G1Affine>,
    beta_g1: Vec<E::G1Affine>,
    h_query: Vec<E::G1Affine>,
}

impl<E: Pairing> RadixPoints<E> {
    spec fn model(self) -> PreparedModel<E> {
        PreparedModel {
            alpha: self.alpha,
            beta: self.beta,
            tau_lagrange_g1: self.tau_g1@,
            tau_lagrange_g2: self.tau_g2@,
            alpha_lagrange_g1: self.alpha_g1@,
            beta_lagrange_g1: self.beta_g1@,
            beta_g2: self.beta_g2,
            h_query: self.h_query@,
        }
    }
}

/// Reads the points of a radix file of a domain of `size` elements.
fn read_radix_contents<E: PairingReader>(bytes: &[u8], size: usize) -> (res: Result<
    RadixPoints<E>,
    ReadError,
>)
    requires
        size > 0,
    ensures
        match res {
            Ok(read) => radix_contents::<E>(bytes@, size as nat) == Ok::<
                PreparedModel<E>,
                ReadErrorModel,
            >(read.model()) && read.tau_g1@.len() == size && read.tau_g2@.len() == size
                && read.alpha_g1@.len() == size && read.beta_g1@.len() == size
                && read.h_query@.len() == size - 1,
            Err(error) => radix_contents::<E>(bytes@, size as nat) == Err::<
                PreparedModel<E>,
                ReadErrorModel,
            >(error@),
        },
{
    let mut reader = ByteReader { bytes, position: 0 };
    let alpha = E::read_radix_g1(&mut reader)?;
    let beta = E::read_radix_g1(&mut reader)?;
    let beta_g2 = E::read_radix_g2(&mut reader)?;
    let tau_g1 = read_radix_g1_points::<E>(&mut reader, size)?;
    let tau_g2 = read_radix_g2_points::<E>(&mut reader, size)?;
    let alpha_g1 = read_radix_g1_points::<E>(&mut reader, size)?;
    let beta_g1 = read_radix_g1_points::<E>(&mut reader, size)?;
    let h_query = read_radix_g1_points::<E>(&mut reader, size - 1)?;
    Ok(RadixPoints { alpha, beta, beta_g2, tau_g1, tau_g2, alpha_g1, beta_g1, h_query })
}

impl<E: PairingReader> PreparedAccumulator<E> {
    /// Reads the contents of a radix file of this name, with the defects that make it no radix
    /// file at all told apart from the errors.
    pub fn parse_radix(name: Option<&str>, bytes: &[u8]) -> (res: Result<Self, ReadError>)
        ensures
            match res {
                Ok(prepared) => radix_file::<E>(name_bytes(name), bytes@) == Ok::<
                    PreparedModel<E>,
                    ReadErrorModel,
                >(prepared@),
                Err(error) => radix_file::<E>(name_bytes(name), bytes@) == Err::<
                    PreparedModel<E>,
                    ReadErrorModel,
                >(error@),
            },
    {
        let size: usize = read_radix_size(name)?;
        let read = read_radix_contents::<E>(bytes, size)?;
        Ok(
            PreparedAccumulator {
                alpha: read.alpha,
                beta: read.beta,
                tau_lagrange_g1: batch_into_projective(&read.tau_g1),
                tau_lagrange_g2: batch_into_projective(&read.tau_g2),
                alpha_lagrange_g1: batch_into_projective(&read.alpha_g1),
                beta_lagrange_g1: batch_into_projective(&read.beta_g1),
                beta_g2: read.beta_g2,
                h_query: read.h_query,
            },
        )
    }

    /// Reads the contents of a radix file of this name.
    pub fn from_radix_file(name: Option<&str>, bytes: &[u8]) -> (res: Result<Self, Error>)
        requires
            !(radix_file::<E>(name_bytes(name), bytes@) matches Err(ReadErrorModel::Defect(_))),
        ensures
            match res {
                Ok(prepared) => radix_file::<E>(name_bytes(name), bytes@) == Ok::<
                    PreparedModel<E>,
                    ReadErrorModel,
                >(prepared@),
                Err(error) => radix_file::<E>(name_bytes(name), bytes@) == Err::<
                    PreparedModel<E>,
                    ReadErrorModel,
                >(ReadErrorModel::Error(error@)),
            },
    {
        match Self::parse_radix(name, bytes) {
            Ok(prepared) => Ok(prepared),
            Err(ReadError::Error(error)) => Err(error),
            Err(ReadError::Defect(_)) => unreached(),
        }
    }
}

impl<E: PairingReader> Accumulator<E> {
    /// Reads the powers that a radix file of this name holds the Lagrange form of, with the
    /// defects that make it no radix file at all told apart from the errors.
    pub fn parse_radix(name: Option<&str>, bytes: &[u8]) -> (res: Result<Self, ReadError>)
        ensures
            match res {
                Ok(accumulator) => radix_powers::<E>(name_bytes(name), bytes@) == Ok::<
                    AccumulatorModel<E>,
                    ReadErrorModel,
                >(accumulator@),
                Err(error) => radix_powers::<E>(name_bytes(name), bytes@) == Err::<
                    AccumulatorModel<E>,
                    ReadErrorModel,
                >(error@),
            },
    {
        let size: usize = read_radix_size(name)?;
        proof {
            lemma_radix_size(name_bytes(name));
        }
        if E::ScalarField::domain_size(size).is_none() {
            return Err(
                ReadError::Error(
                    Error::ConstraintSystem(SynthesisError::PolynomialDegreeTooLarge),
                ),
            );
        }
        let read = read_radix_contents::<E>(bytes, size)?;
        let mut tau_powers_g1 = E::G1Affine::fft(&read.tau_g1);
        let tau_powers_g2 = E::G2Affine::fft(&read.tau_g2);
        let alpha_tau_powers_g1 = E::G1Affine::fft(&read.alpha_g1);
        let beta_tau_powers_g1 = E::G1Affine::fft(&read.beta_g1);
        let ghost tau_g1 = tau_powers_g1@;
        let ghost expected = unprepared(read.model());
        let mut i: usize = 0;
        while i < size - 1
            invariant
                i <= size - 1,
                tau_g1.len() == size,
                read.h_query@.len() == size - 1,
                tau_powers_g1@.len() == size + i,
                forall|j: int| 0 <= j < size ==> #[trigger] tau_powers_g1@[j] == tau_g1[j],
                forall|j: int|
                    0 <= j < i ==> #[trigger] tau_powers_g1@[size + j] == sum(
                        read.h_query@[j],
                        tau_g1[j],
                    ),
            decreases size - 1 - i,
        {
            let power = read.h_query[i].plus(tau_powers_g1[i]);
            tau_powers_g1.push(power);
            i = i + 1;
        }
        proof {
            assert forall|j: int| 0 <= j < tau_powers_g1@.len() implies #[trigger] tau_powers_g1@[j]
                == expected.tau_powers_g1[j] by {
                if j >= size {
                    assert(tau_powers_g1@[size + (j - size)] == sum(
                        read.h_query@[j - size],
                        tau_g1[j - size],
                    ));
                }
            }
            assert(tau_powers_g1@ =~= expected.tau_powers_g1);
        }
        Ok(
            Accumulator {
                tau_powers_g1,
                tau_powers_g2,
                alpha_tau_powers_g1,
                beta_tau_powers_g1,
                beta_g2: read.beta_g2,
            },
        )
    }

    /// Reads the powers that a radix file of this name holds the Lagrange form of. Only use this
    /// for lesser degree constraint generation.
    pub fn from_radix_file(name: Option<&str>, bytes: &[u8]) -> (res: Result<Self, Error>)
        requires
            !(radix_powers::<E>(name_bytes(name), bytes@) matches Err(ReadErrorModel::Defect(_))),
        ensures
            match res {
                Ok(accumulator) => radix_powers::<E>(name_bytes(name), bytes@) == Ok::<
                    AccumulatorModel<E>,
                    ReadErrorModel,
                >(accumulator@),
                Err(error) => radix_powers::<E>(name_bytes(name), bytes@) == Err::<
                    AccumulatorModel<E>,
                    ReadErrorModel,
                >(ReadErrorModel::Error(error@)),
            },
    {
        match Self::parse_radix(name, bytes) {
            Ok(accumulator) => Ok(accumulator),
            Err(ReadError::Error(error)) => Err(error),
            Err(ReadError::Defect(_)) => unreached(),
        }
    }
}

/// The size of the domain of a radix file is a power of two.
pub proof fn lemma_radix_size(name: Option<Seq<u8>>)
    ensures
        radix_size(name) matches Ok(size) ==> crate::math::power_of_two(size)
            && crate::math::power_at_least(size) == size,
{
    if let Ok(size) = radix_size(name) {
        let exponent = parsed_usize(after_marker(name->0, name->0.len()))->0;
        crate::math::lemma_pow2_is_power(exponent);
        crate::math::lemma_power_of_two_fixed(size);
    }
}

} // verus!
