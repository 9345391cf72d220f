use vstd::arithmetic::power2::pow2;
use vstd::prelude::*;
use vstd::slice::slice_subrange;
use vstd::string::StringExecFns;

use crate::curve::{GroupModel, Pairing};
use crate::error::{Error, ErrorModel};
use crate::math::{be_value, below, le_value, lemma_le_value_words, limbs_value, words};
use crate::text::{decimal, decimal_text};
use crate::writing::{big_endian_bytes, montgomery_bytes, swapped};

verus! {

/// An input that breaks what its format takes for granted.
#[derive(Clone, Copy, Debug, PartialEq, Eq)]
pub enum Defect {
    /// A point of the first group that is not on the curve.
    G1NotOnCurve,
    /// A point of the second group that is not on the curve.
    G2NotOnCurve,
    /// A file without a section of this type.
    MissingSection(u32),
    /// A power of two that cannot be counted to.
    PowerTooLarge,
}

/// Why an input cannot be read.
#[derive(Clone, Debug, PartialEq, Eq)]
pub enum ReadError {
    Error(Error),
    Defect(Defect),
}

/// A [`ReadError`] with its texts taken as character sequences.
pub enum ReadErrorModel {
    Error(ErrorModel),
    Defect(Defect),
}

impl View for ReadError {
    type V = ReadErrorModel;

    open spec fn view(&self) -> ReadErrorModel {
        match self {
            ReadError::Error(error) => ReadErrorModel::Error(error@),
            ReadError::Defect(defect) => ReadErrorModel::Defect(*defect),
        }
    }
}

/// Whether a result is the one described.
pub open spec fn reads<T>(res: Result<T, ReadError>, expected: Result<T, ReadErrorModel>) -> bool {
    match res {
        Ok(value) => expected == Ok::<T, ReadErrorModel>(value),
        Err(error) => expected == Err::<T, ReadErrorModel>(error@),
    }
}

/// The error of a read past the end of the input.
pub open spec fn end_of_input() -> ReadErrorModel {
    ReadErrorModel::Error(ErrorModel::IO("failed to fill whole buffer"@))
}

fn end_of_input_error() -> (res: ReadError)
    ensures
        res@ == end_of_input(),
{
    ReadError::Error(Error::IO("failed to fill whole buffer".to_owned()))
}

/// The contents of a file and the position of the next read.
pub struct ByteReader<'a> {
    pub bytes: &'a [u8],
    pub position: u64,
}

/// The `count` bytes at `position`.
pub open spec fn bytes_at(bytes: Seq<u8>, position: nat, count: nat) -> Result<
    Seq<u8>,
    ReadErrorModel,
> {
    if position + count <= bytes.len() {
        Ok(bytes.subrange(position as int, (position + count) as int))
    } else {
        Err(end_of_input())
    }
}

/// The little-endian number of `count` bytes at `position`.
pub open spec fn number_at(bytes: Seq<u8>, position: nat, count: nat) -> Result<
    nat,
    ReadErrorModel,
> {
    match bytes_at(bytes, position, count) {
        Ok(own) => Ok(le_value(own)),
        Err(error) => Err(error),
    }
}

impl<'a> ByteReader<'a> {
    /// Reads `count` bytes.
    pub fn read_exact(&mut self, count: usize) -> (res: Result<&'a [u8], ReadError>)
        ensures
            final(self).bytes == old(self).bytes,
            match res {
                Ok(own) => bytes_at(
                    old(self).bytes@,
                    old(self).position as nat,
                    count as nat,
                ) == Ok::<Seq<u8>, ReadErrorModel>(own@) && final(self).position
                    == old(self).position + count,
                Err(error) => bytes_at(
                    old(self).bytes@,
                    old(self).position as nat,
                    count as nat,
                ) == Err::<Seq<u8>, ReadErrorModel>(error@),
            },
    {
        let length: u64 = self.bytes.len() as u64;
        if self.position > length || (count as u64) > length - self.position {
            return Err(end_of_input_error());
        }
        let start: usize = self.position as usize;
        let own = slice_subrange(self.bytes, start, start + count);
        self.position = self.position + count as u64;
        Ok(own)
    }

    /// Reads a little-endian number of 4 bytes.
    pub fn read_u32(&mut self) -> (res: Result<u32, ReadError>)
        ensures
            final(self).bytes == old(self).bytes,
            match res {
                Ok(value) => number_at(old(self).bytes@, old(self).position as nat, 4) == Ok::<
                    nat,
                    ReadErrorModel,
                >(value as nat) && final(self).position == old(self).position + 4,
                Err(error) => number_at(old(self).bytes@, old(self).position as nat, 4) == Err::<
                    nat,
                    ReadErrorModel,
                >(error@),
            },
    {
        let own = self.read_exact(4)?;
        proof {
            reveal_with_fuel(le_value, 5);
        }
        Ok(
            own[0] as u32 + 256 * (own[1] as u32 + 256 * (own[2] as u32 + 256 * (
            own[3] as u32))),
        )
    }

    /// Reads a little-endian number of 8 bytes.
    pub fn read_u64(&mut self) -> (res: Result<u64, ReadError>)
        ensures
            final(self).bytes == old(self).bytes,
            match res {
                Ok(value) => number_at(old(self).bytes@, old(self).position as nat, 8) == Ok::<
                    nat,
                    ReadErrorModel,
                >(value as nat) && final(self).position == old(self).position + 8,
                Err(error) => number_at(old(self).bytes@, old(self).position as nat, 8) == Err::<
                    nat,
                    ReadErrorModel,
                >(error@),
            },
    {
        let own = self.read_exact(8)?;
        proof {
            assert(own@.subrange(0, 8) =~= own@);
        }
        Ok(word_from_le(own, 0))
    }
}

/// The little-endian number of 8 bytes at `start`.
fn word_from_le(bytes: &[u8], start: usize) -> (res: u64)
    requires
        start + 8 <= bytes@.len(),
    ensures
        res == le_value(bytes@.subrange(start as int, start + 8)),
{
    proof {
        reveal_with_fuel(le_value, 9);
    }
    let low: u64 = bytes[start] as u64 + 256 * (bytes[start + 1] as u64 + 256 * (
    bytes[start + 2] as u64 + 256 * (bytes[start + 3] as u64)));
    let high: u64 = bytes[start + 4] as u64 + 256 * (bytes[start + 5] as u64 + 256 * (
    bytes[start + 6] as u64 + 256 * (bytes[start + 7] as u64)));
    low + 0x1_0000_0000 * high
}

/// The limbs of the little-endian number that `bytes` are, written over `limbs`. Another number of
/// bytes than that of the limbs is an error.
pub fn read_bigint_le<const N: usize>(limbs: [u64; N], bytes: &[u8]) -> (res: Result<
    [u64; N],
    Error,
>)
    ensures
        match res {
            Ok(read) => bytes@.len() == 8 * N && limbs_value(read@) == le_value(bytes@),
            Err(error) => bytes@.len() != 8 * N && error@ == ErrorModel::Read(
                "Unexpected bigint size: "@ + decimal_text(bytes@.len()),
            ),
        },
{
    if bytes.len() % 8 != 0 || bytes.len() / 8 != N {
        let mut message = "Unexpected bigint size: ".to_owned();
        message.append(decimal(bytes.len()).as_str());
        return Err(Error::Read(message));
    }
    Ok(read_number(limbs, bytes))
}

/// The limbs of the little-endian number that `bytes` are.
fn read_number<const N: usize>(zero: [u64; N], bytes: &[u8]) -> (res: [u64; N])
    requires
        bytes@.len() == 8 * N,
    ensures
        limbs_value(res@) == le_value(bytes@),
{
    let mut limbs = zero;
    let length: usize = bytes.len();
    let mut i: usize = 0;
    while i < N
        invariant
            i <= N,
            bytes@.len() == 8 * N,
            length == 8 * N,
            forall|j: int| 0 <= j < i ==> limbs@[j] == #[trigger] words(bytes@)[j],
        decreases N - i,
    {
        limbs[i] = word_from_le(bytes, i * 8);
        proof {
            assert(words(bytes@)[i as int] == limbs@[i as int]);
        }
        i = i + 1;
    }
    proof {
        assert(limbs@ =~= words(bytes@));
        lemma_le_value_words(bytes@);
    }
    limbs
}

/// `bytes` with the two most significant bits of the first one cleared.
pub open spec fn masked(bytes: Seq<u8>) -> Seq<u8> {
    bytes.update(0, bytes[0] & 0x3f)
}

/// The values of the first `count` little-endian field elements of `length` bytes, or the error
/// for the first that is not below `order`.
pub open spec fn ptau_elements(
    bytes: Seq<u8>,
    length: nat,
    order: nat,
    texts: Seq<Seq<char>>,
    count: nat,
) -> Result<Seq<nat>, ReadErrorModel>
    decreases count,
{
    if count == 0 {
        Ok(Seq::empty())
    } else {
        let last = (count - 1) as nat;
        match ptau_elements(bytes, length, order, texts, last) {
            Err(error) => Err(error),
            Ok(values) => {
                let value = le_value(
                    bytes.subrange((last * length) as int, (last * length + length) as int),
                );
                if value < order {
                    Ok(values.push(value))
                } else {
                    Err(ReadErrorModel::Error(ErrorModel::Read(texts[last as int])))
                }
            },
        }
    }
}

/// The values of the field elements of one point in a ptau file.
pub open spec fn ptau_point(
    bytes: Seq<u8>,
    position: nat,
    length: nat,
    order: nat,
    texts: Seq<Seq<char>>,
) -> Result<Seq<nat>, ReadErrorModel> {
    match bytes_at(bytes, position, texts.len() * length) {
        Err(error) => Err(error),
        Ok(own) => ptau_elements(own, length, order, texts, texts.len()),
    }
}

/// The values of the first `count` big-endian field elements of one point in a radix file. The
/// one at `flagged` carries flags in its first byte, which do not count.
pub open spec fn radix_point(
    bytes: Seq<u8>,
    position: nat,
    length: nat,
    order: nat,
    texts: Seq<Seq<char>>,
    flagged: nat,
    count: nat,
) -> Result<Seq<nat>, ReadErrorModel>
    decreases count,
{
    if count == 0 {
        Ok(Seq::empty())
    } else {
        let last = (count - 1) as nat;
        match radix_point(bytes, position, length, order, texts, flagged, last) {
            Err(error) => Err(error),
            Ok(values) => match bytes_at(bytes, position + last * length, length) {
                Err(error) => Err(error),
                Ok(own) => {
                    let value = if last == flagged {
                        be_value(masked(own))
                    } else {
                        be_value(own)
                    };
                    if value < order {
                        Ok(values.push(value))
                    } else {
                        Err(ReadErrorModel::Error(ErrorModel::Read(texts[last as int])))
                    }
                },
            },
        }
    }
}

/// The texts as character sequences.
pub open spec fn text_views(texts: Seq<&'static str>) -> Seq<Seq<char>> {
    texts.map_values(|text: &'static str| text@)
}

/// The numbers that the limbs write.
pub open spec fn limb_values<const N: usize>(elements: Seq<[u64; N]>) -> Seq<nat> {
    elements.map_values(|limbs: [u64; N]| limbs_value(limbs@))
}

/// The elements that are read from a radix file lie within it, and are below the order.
pub proof fn lemma_radix_below(
    bytes: Seq<u8>,
    position: nat,
    length: nat,
    order: nat,
    texts: Seq<Seq<char>>,
    flagged: nat,
    count: nat,
)
    ensures
        radix_point(bytes, position, length, order, texts, flagged, count) matches Ok(values)
            ==> values.len() == count && (forall|k: int|
            0 <= k < count ==> #[trigger] values[k] < order) && (count > 0 ==> position + count
            * length <= bytes.len()),
    decreases count,
{
    if count > 0 {
        let last = (count - 1) as nat;
        lemma_radix_below(bytes, position, length, order, texts, flagged, last);
        assert(count * length == last * length + length) by (nonlinear_arith)
            requires
                count == last + 1,
        ;
    }
}

proof fn lemma_ptau_failure(
    bytes: Seq<u8>,
    length: nat,
    order: nat,
    texts: Seq<Seq<char>>,
    count: nat,
    more: nat,
)
    requires
        ptau_elements(bytes, length, order, texts, count) is Err,
        count <= more,
    ensures
        ptau_elements(bytes, length, order, texts, more) == ptau_elements(
            bytes,
            length,
            order,
            texts,
            count,
        ),
    decreases more,
{
    if count < more {
        lemma_ptau_failure(bytes, length, order, texts, count, (more - 1) as nat);
    }
}

proof fn lemma_radix_failure(
    bytes: Seq<u8>,
    position: nat,
    length: nat,
    order: nat,
    texts: Seq<Seq<char>>,
    flagged: nat,
    count: nat,
    more: nat,
)
    requires
        radix_point(bytes, position, length, order, texts, flagged, count) is Err,
        count <= more,
    ensures
        radix_point(bytes, position, length, order, texts, flagged, more) == radix_point(
            bytes,
            position,
            length,
            order,
            texts,
            flagged,
            count,
        ),
    decreases more,
{
    if count < more {
        lemma_radix_failure(
            bytes,
            position,
            length,
            order,
            texts,
            flagged,
            count,
            (more - 1) as nat,
        );
    }
}

/// Reads the field elements of one point of a ptau file, which are written in little-endian
/// order, all of them below `modulus`.
pub(crate) fn read_ptau_elements<const N: usize>(
    reader: &mut ByteReader<'_>,
    modulus: &[u64; N],
    texts: &Vec<&'static str>,
) -> (res: Result<Vec<[u64; N]>, ReadError>)
    requires
        N <= 8,
        texts@.len() <= 8,
    ensures
        final(reader).bytes == old(reader).bytes,
        res matches Ok(elements) ==> forall|i: int|
            0 <= i < elements@.len() ==> limbs_value(#[trigger] elements@[i]@) < limbs_value(
                modulus@,
            ),
        ({
            let expected = ptau_point(
                old(reader).bytes@,
                old(reader).position as nat,
                8 * N as nat,
                limbs_value(modulus@),
                text_views(texts@),
            );
            match res {
                Ok(elements) => expected == Ok::<Seq<nat>, ReadErrorModel>(limb_values(elements@))
                    && elements@.len() == texts@.len() && final(reader).position
                    == old(reader).position + texts@.len() * (8 * N),
                Err(error) => expected == Err::<Seq<nat>, ReadErrorModel>(error@),
            }
        }),
{
    let length: usize = 8 * N;
    proof {
        assert(texts@.len() * length <= 8 * 64) by (nonlinear_arith)
            requires
                texts@.len() <= 8,
                length <= 64,
        ;
    }
    let own = reader.read_exact(texts.len() * length)?;
    let ghost order = limbs_value(modulus@);
    let ghost views = text_views(texts@);
    let mut elements: Vec<[u64; N]> = Vec::new();
    let mut i: usize = 0;
    proof {
        assert(limb_values(elements@) =~= Seq::empty());
    }
    while i < texts.len()
        invariant
            i <= texts@.len(),
            texts@.len() <= 8,
            N <= 8,
            length == 8 * N,
            reader.bytes == old(reader).bytes,
            reader.position == old(reader).position + texts@.len() * (8 * N),
            bytes_at(
                old(reader).bytes@,
                old(reader).position as nat,
                texts@.len() * (8 * N as nat),
            ) == Ok::<Seq<u8>, ReadErrorModel>(own@),
            own@.len() == texts@.len() * length,
            order == limbs_value(modulus@),
            views == text_views(texts@),
            elements@.len() == i,
            forall|j: int| 0 <= j < i ==> limbs_value(#[trigger] elements@[j]@) < order,
            ptau_elements(own@, length as nat, order, views, i as nat) == Ok::<
                Seq<nat>,
                ReadErrorModel,
            >(limb_values(elements@)),
        decreases texts.len() - i,
    {
        proof {
            assert(i * length + length <= texts@.len() * length) by (nonlinear_arith)
                requires
                    i + 1 <= texts@.len(),
            ;
            assert(texts@.len() * length <= 8 * 64) by (nonlinear_arith)
                requires
                    texts@.len() <= 8,
                    length <= 64,
            ;
        }
        let start: usize = i * length;
        let limbs = match read_bigint_le(*modulus, slice_subrange(own, start, start + length)) {
            Ok(limbs) => limbs,
            Err(error) => {
                return Err(ReadError::Error(error));
            },
        };
        if !below(&limbs, modulus) {
            proof {
                lemma_ptau_failure(
                    own@,
                    length as nat,
                    order,
                    views,
                    (i + 1) as nat,
                    texts@.len(),
                );
            }
            return Err(ReadError::Error(Error::Read(texts[i].to_owned())));
        }
        let ghost previous = limb_values(elements@);
        elements.push(limbs);
        i = i + 1;
        proof {
            assert(limb_values(elements@) =~= previous.push(limbs_value(limbs@)));
        }
    }
    Ok(elements)
}

/// The bytes in reverse order, after the first has lost its two most significant bits if there
/// are flags in them.
fn reversed(bytes: &[u8], flagged: bool) -> (res: Vec<u8>)
    requires
        bytes@.len() > 0,
    ensures
        res@ == (if flagged {
            masked(bytes@)
        } else {
            bytes@
        }).reverse(),
{
    let ghost expected = if flagged {
        masked(bytes@)
    } else {
        bytes@
    };
    let mut res: Vec<u8> = Vec::new();
    let mut i: usize = bytes.len();
    while i > 0
        invariant
            i <= bytes@.len(),
            res@.len() == bytes@.len() - i,
            expected == (if flagged {
                masked(bytes@)
            } else {
                bytes@
            }),
            forall|j: int|
                0 <= j < res@.len() ==> res@[j] == expected[bytes@.len() - 1 - j],
        decreases i,
    {
        i = i - 1;
        if flagged && i == 0 {
            res.push(bytes[i] & 0x3f);
        } else {
            res.push(bytes[i]);
        }
    }
    proof {
        assert(res@ =~= expected.reverse());
    }
    res
}

/// Reads the field elements of one point of a radix file, which are written in big-endian order,
/// all of them below `modulus`. The one at `flagged` carries flags in its first byte.
pub(crate) fn read_radix_elements<const N: usize>(
    reader: &mut ByteReader<'_>,
    modulus: &[u64; N],
    texts: &Vec<&'static str>,
    flagged: usize,
) -> (res: Result<Vec<[u64; N]>, ReadError>)
    requires
        0 < N <= 8,
        texts@.len() <= 8,
    ensures
        final(reader).bytes == old(reader).bytes,
        ({
            let expected = radix_point(
                old(reader).bytes@,
                old(reader).position as nat,
                8 * N as nat,
                limbs_value(modulus@),
                text_views(texts@),
                flagged as nat,
                texts@.len(),
            );
            match res {
                Ok(elements) => expected == Ok::<Seq<nat>, ReadErrorModel>(limb_values(elements@))
                    && elements@.len() == texts@.len() && final(reader).position
                    == old(reader).position + texts@.len() * (8 * N),
                Err(error) => expected == Err::<Seq<nat>, ReadErrorModel>(error@),
            }
        }),
{
    let length: usize = 8 * N;
    let ghost order = limbs_value(modulus@);
    let ghost views = text_views(texts@);
    let ghost bytes = reader.bytes@;
    let ghost start = reader.position as nat;
    let mut elements: Vec<[u64; N]> = Vec::new();
    let mut i: usize = 0;
    proof {
        assert(limb_values(elements@) =~= Seq::empty());
    }
    while i < texts.len()
        invariant
            i <= texts@.len(),
            0 < N <= 8,
            length == 8 * N,
            order == limbs_value(modulus@),
            views == text_views(texts@),
            reader.bytes == old(reader).bytes,
            bytes == reader.bytes@,
            start == old(reader).position,
            reader.position == start + i * length,
            elements@.len() == i,
            radix_point(bytes, start, length as nat, order, views, flagged as nat, i as nat)
                == Ok::<Seq<nat>, ReadErrorModel>(limb_values(elements@)),
        decreases texts.len() - i,
    {
        let own = match reader.read_exact(length) {
            Ok(own) => own,
            Err(error) => {
                proof {
                    lemma_radix_failure(
                        bytes,
                        start,
                        length as nat,
                        order,
                        views,
                        flagged as nat,
                        (i + 1) as nat,
                        texts@.len(),
                    );
                }
                return Err(error);
            },
        };
        let digits = reversed(own, i == flagged);
        let limbs = match read_bigint_le(*modulus, &digits) {
            Ok(limbs) => limbs,
            Err(error) => {
                return Err(ReadError::Error(error));
            },
        };
        if !below(&limbs, modulus) {
            proof {
                lemma_radix_failure(
                    bytes,
                    start,
                    length as nat,
                    order,
                    views,
                    flagged as nat,
                    (i + 1) as nat,
                    texts@.len(),
                );
            }
            return Err(ReadError::Error(Error::Read(texts[i].to_owned())));
        }
        let ghost previous = limb_values(elements@);
        elements.push(limbs);
        proof {
            assert((i + 1) * length == i * length + length) by (nonlinear_arith);
        }
        i = i + 1;
        proof {
            assert(limb_values(elements@) =~= previous.push(limbs_value(limbs@)));
        }
    }
    Ok(elements)
}

/// The errors for the coordinates of a point of the first group.
pub open spec fn g1_texts_spec() -> Seq<Seq<char>> {
    seq!["Unable to read Fq x"@, "Unable to read Fq y"@]
}

/// The errors for the coordinates of a point of the second group in a ptau file.
pub open spec fn ptau_g2_texts_spec() -> Seq<Seq<char>> {
    seq![
        "Unable to read Fq x0"@,
        "Unable to read Fq x1"@,
        "Unable to read Fq y0"@,
        "Unable to read Fq y1"@,
    ]
}

/// The errors for the coordinates of a point of the second group in a radix file.
pub open spec fn radix_g2_texts_spec() -> Seq<Seq<char>> {
    seq![
        "Unable to read Fq x1"@,
        "Unable to read Fq x0"@,
        "Unable to read Fq y1"@,
        "Unable to read Fq y0"@,
    ]
}

pub(crate) fn g1_texts() -> (res: Vec<&'static str>)
    ensures
        text_views(res@) == g1_texts_spec(),
        res@.len() == 2,
{
    let res: Vec<&'static str> = vec!["Unable to read Fq x", "Unable to read Fq y"];
    proof {
        assert(text_views(res@) =~= g1_texts_spec());
    }
    res
}

pub(crate) fn ptau_g2_texts() -> (res: Vec<&'static str>)
    ensures
        text_views(res@) == ptau_g2_texts_spec(),
        res@.len() == 4,
{
    let res: Vec<&'static str> = vec![
        "Unable to read Fq x0",
        "Unable to read Fq x1",
        "Unable to read Fq y0",
        "Unable to read Fq y1",
    ];
    proof {
        assert(text_views(res@) =~= ptau_g2_texts_spec());
    }
    res
}

pub(crate) fn radix_g2_texts() -> (res: Vec<&'static str>)
    ensures
        text_views(res@) == radix_g2_texts_spec(),
        res@.len() == 4,
{
    let res: Vec<&'static str> = vec![
        "Unable to read Fq x1",
        "Unable to read Fq x0",
        "Unable to read Fq y1",
        "Unable to read Fq y0",
    ];
    proof {
        assert(text_views(res@) =~= radix_g2_texts_spec());
    }
    res
}

/// Whether a point was read as described, with `elements` field elements of `length` bytes.
pub open spec fn reads_point<T>(
    before: ByteReader<'_>,
    after: ByteReader<'_>,
    res: Result<T, ReadError>,
    expected: Result<T, ReadErrorModel>,
    length: nat,
) -> bool {
    &&& after.bytes == before.bytes
    &&& reads(res, expected)
    &&& res is Ok ==> after.position == before.position + length
}

/// Pairings whose points are read from the files of powers of tau ceremonies.
///
/// In ptau files the coordinates are little-endian and in Montgomery form. In radix files they are
/// big-endian, the second half of each coordinate of the second group first. The first byte of one
/// of the elements carries flags in its two most significant bits, which do not count: in the first
/// group it is that of `x`, in the second group that of `x0` on BN curves and that of `x1` on
/// BLS12 curves.
pub trait PairingReader: Pairing {
    /// The order of the base field.
    spec fn modulus() -> nat;

    /// The number of bytes of an element of the base field.
    spec fn element_length() -> nat;

    spec fn ptau_g1(bytes: Seq<u8>, position: nat) -> Result<Self::G1Affine, ReadErrorModel>;

    spec fn ptau_g2(bytes: Seq<u8>, position: nat) -> Result<Self::G2Affine, ReadErrorModel>;

    spec fn radix_g1(bytes: Seq<u8>, position: nat) -> Result<Self::G1Affine, ReadErrorModel>;

    spec fn radix_g2(bytes: Seq<u8>, position: nat) -> Result<Self::G2Affine, ReadErrorModel>;

    /// A point is read from its own bytes alone.
    proof fn lemma_ptau_g1(a: Seq<u8>, p: nat, b: Seq<u8>, q: nat)
        requires
            bytes_at(a, p, 2 * Self::element_length()) == bytes_at(
                b,
                q,
                2 * Self::element_length(),
            ),
        ensures
            Self::ptau_g1(a, p) == Self::ptau_g1(b, q),
    ;

    /// A point is read from its own bytes alone.
    proof fn lemma_ptau_g2(a: Seq<u8>, p: nat, b: Seq<u8>, q: nat)
        requires
            bytes_at(a, p, 4 * Self::element_length()) == bytes_at(
                b,
                q,
                4 * Self::element_length(),
            ),
        ensures
            Self::ptau_g2(a, p) == Self::ptau_g2(b, q),
    ;

    /// The coordinates of a point of the first group, `x` before `y`.
    spec fn g1_elements(point: Self::G1Affine) -> Seq<nat>;

    /// The coordinates of a point of the second group: `x0`, `x1`, `y0` and `y1`.
    spec fn g2_elements(point: Self::G2Affine) -> Seq<nat>;

    /// Which of the elements of a point of the second group carries the flags in a radix file.
    spec fn radix_g2_flagged() -> nat;

    /// The order of the base field leaves the two most significant bits of an element free.
    proof fn lemma_modulus()
        ensures
            0 < Self::element_length() <= 64,
            0 < Self::modulus(),
            4 * Self::modulus() <= pow2(8 * Self::element_length()),
            forall|point: Self::G1Affine| (#[trigger] Self::g1_elements(point)).len() == 2,
            forall|point: Self::G2Affine| (#[trigger] Self::g2_elements(point)).len() == 4,
    ;

    /// A point that is read from a ptau file lies within the file, is on the
    /// curve, and its coordinates are reduced.
    proof fn lemma_read_ptau_g1(bytes: Seq<u8>, position: nat)
        ensures
            Self::ptau_g1(bytes, position) matches Ok(point) ==> point.on_curve() && (forall|k: int|
                0 <= k < 2 ==> #[trigger] Self::g1_elements(point)[k] < Self::modulus()),
            Self::ptau_g1(bytes, position) is Ok ==> position + 2 * Self::element_length()
                <= bytes.len(),
    ;

    /// A point that is read from a ptau file lies within the file, is on the
    /// curve, and its coordinates are reduced.
    proof fn lemma_read_ptau_g2(bytes: Seq<u8>, position: nat)
        ensures
            Self::ptau_g2(bytes, position) matches Ok(point) ==> point.on_curve() && (forall|k: int|
                0 <= k < 4 ==> #[trigger] Self::g2_elements(point)[k] < Self::modulus()),
            Self::ptau_g2(bytes, position) is Ok ==> position + 4 * Self::element_length()
                <= bytes.len(),
    ;

    /// A point that is read from a radix file lies within the file, is on the
    /// curve, and its coordinates are reduced.
    proof fn lemma_read_radix_g1(bytes: Seq<u8>, position: nat)
        ensures
            Self::radix_g1(bytes, position) matches Ok(point) ==> point.on_curve() && (forall|k: int|
                0 <= k < 2 ==> #[trigger] Self::g1_elements(point)[k] < Self::modulus()),
            Self::radix_g1(bytes, position) is Ok ==> position + 2 * Self::element_length()
                <= bytes.len(),
    ;

    /// A point that is read from a radix file lies within the file, is on the
    /// curve, and its coordinates are reduced.
    proof fn lemma_read_radix_g2(bytes: Seq<u8>, position: nat)
        ensures
            Self::radix_g2(bytes, position) matches Ok(point) ==> point.on_curve() && (forall|k: int|
                0 <= k < 4 ==> #[trigger] Self::g2_elements(point)[k] < Self::modulus()),
            Self::radix_g2(bytes, position) is Ok ==> position + 4 * Self::element_length()
                <= bytes.len(),
    ;

    /// A point of the curve is read from the Montgomery forms of its coordinates.
    proof fn lemma_written_ptau_g1(point: Self::G1Affine, bytes: Seq<u8>, position: nat)
        requires
            point.on_curve(),
            forall|k: int|
                0 <= k < 2 ==> #[trigger] Self::g1_elements(point)[k] < Self::modulus(),
            bytes_at(bytes, position, 2 * Self::element_length()) == Ok::<
                Seq<u8>,
                ReadErrorModel,
            >(
                montgomery_bytes(
                    Self::g1_elements(point),
                    Self::element_length(),
                    Self::modulus(),
                ),
            ),
        ensures
            Self::ptau_g1(bytes, position) == Ok::<Self::G1Affine, ReadErrorModel>(point),
    ;

    /// A point of the twist is read from the Montgomery forms of its coordinates.
    proof fn lemma_written_ptau_g2(point: Self::G2Affine, bytes: Seq<u8>, position: nat)
        requires
            point.on_curve(),
            forall|k: int|
                0 <= k < 4 ==> #[trigger] Self::g2_elements(point)[k] < Self::modulus(),
            bytes_at(bytes, position, 4 * Self::element_length()) == Ok::<
                Seq<u8>,
                ReadErrorModel,
            >(
                montgomery_bytes(
                    Self::g2_elements(point),
                    Self::element_length(),
                    Self::modulus(),
                ),
            ),
        ensures
            Self::ptau_g2(bytes, position) == Ok::<Self::G2Affine, ReadErrorModel>(point),
    ;

    /// A point of the curve is read from its big-endian coordinates, whatever the flags.
    proof fn lemma_written_radix_g1(
        point: Self::G1Affine,
        flags: nat,
        bytes: Seq<u8>,
        position: nat,
    )
        requires
            flags < 4,
            point.on_curve(),
            forall|k: int|
                0 <= k < 2 ==> #[trigger] Self::g1_elements(point)[k] < Self::modulus(),
            bytes_at(bytes, position, 2 * Self::element_length()) == Ok::<
                Seq<u8>,
                ReadErrorModel,
            >(big_endian_bytes(Self::g1_elements(point), Self::element_length(), 0, flags)),
        ensures
            Self::radix_g1(bytes, position) == Ok::<Self::G1Affine, ReadErrorModel>(point),
    ;

    /// A point of the twist is read from its big-endian coordinates, whatever the flags.
    proof fn lemma_written_radix_g2(
        point: Self::G2Affine,
        flags: nat,
        bytes: Seq<u8>,
        position: nat,
    )
        requires
            flags < 4,
            point.on_curve(),
            forall|k: int|
                0 <= k < 4 ==> #[trigger] Self::g2_elements(point)[k] < Self::modulus(),
            bytes_at(bytes, position, 4 * Self::element_length()) == Ok::<
                Seq<u8>,
                ReadErrorModel,
            >(
                big_endian_bytes(
                    swapped(Self::g2_elements(point)),
                    Self::element_length(),
                    Self::radix_g2_flagged(),
                    flags,
                ),
            ),
        ensures
            Self::radix_g2(bytes, position) == Ok::<Self::G2Affine, ReadErrorModel>(point),
    ;

    fn element_bytes() -> (res: usize)
        ensures
            res == Self::element_length(),
            0 < res <= 64,
    ;

    /// Whether `bytes` are the little-endian order of the base field.
    fn is_modulus(bytes: &[u8]) -> (res: bool)
        ensures
            res == (bytes@.len() == Self::element_length() && le_value(bytes@) == Self::modulus()),
    ;

    /// Reads a point of the first group of a ptau file.
    fn read_ptau_g1(reader: &mut ByteReader<'_>) -> (res: Result<Self::G1Affine, ReadError>)
        ensures
            reads_point(
                *old(reader),
                *final(reader),
                res,
                Self::ptau_g1(old(reader).bytes@, old(reader).position as nat),
                2 * Self::element_length(),
            ),
    ;

    /// Reads a point of the second group of a ptau file.
    fn read_ptau_g2(reader: &mut ByteReader<'_>) -> (res: Result<Self::G2Affine, ReadError>)
        ensures
            reads_point(
                *old(reader),
                *final(reader),
                res,
                Self::ptau_g2(old(reader).bytes@, old(reader).position as nat),
                4 * Self::element_length(),
            ),
    ;

    /// Reads a point of the first group of a radix file.
    fn read_radix_g1(reader: &mut ByteReader<'_>) -> (res: Result<Self::G1Affine, ReadError>)
        ensures
            reads_point(
                *old(reader),
                *final(reader),
                res,
                Self::radix_g1(old(reader).bytes@, old(reader).position as nat),
                2 * Self::element_length(),
            ),
    ;

    /// Reads a point of the second group of a radix file.
    fn read_radix_g2(reader: &mut ByteReader<'_>) -> (res: Result<Self::G2Affine, ReadError>)
        ensures
            reads_point(
                *old(reader),
                *final(reader),
                res,
                Self::radix_g2(old(reader).bytes@, old(reader).position as nat),
                4 * Self::element_length(),
            ),
    ;
}

/// The first `count` of the points that `source` gives at every `step` from `start` on, or the
/// error for the first that cannot be read.
pub open spec fn points<T>(
    source: spec_fn(nat) -> Result<T, ReadErrorModel>,
    start: nat,
    step: nat,
    count: nat,
) -> Result<Seq<T>, ReadErrorModel>
    decreases count,
{
    if count == 0 {
        Ok(Seq::empty())
    } else {
        let last = (count - 1) as nat;
        match points(source, start, step, last) {
            Err(error) => Err(error),
            Ok(read) => match source(start + last * step) {
                Err(error) => Err(error),
                Ok(point) => Ok(read.push(point)),
            },
        }
    }
}

proof fn lemma_points_failure<T>(
    source: spec_fn(nat) -> Result<T, ReadErrorModel>,
    start: nat,
    step: nat,
    count: nat,
    more: nat,
)
    requires
        points(source, start, step, count) is Err,
        count <= more,
    ensures
        points(source, start, step, more) == points(source, start, step, count),
    decreases more,
{
    if count < more {
        lemma_points_failure(source, start, step, count, (more - 1) as nat);
    }
}

pub open spec fn ptau_g1_source<E: PairingReader>(bytes: Seq<u8>) -> spec_fn(nat) -> Result<
    E::G1Affine,
    ReadErrorModel,
> {
    |position: nat| E::ptau_g1(bytes, position)
}

pub open spec fn ptau_g2_source<E: PairingReader>(bytes: Seq<u8>) -> spec_fn(nat) -> Result<
    E::G2Affine,
    ReadErrorModel,
> {
    |position: nat| E::ptau_g2(bytes, position)
}

pub open spec fn radix_g1_source<E: PairingReader>(bytes: Seq<u8>) -> spec_fn(nat) -> Result<
    E::G1Affine,
    ReadErrorModel,
> {
    |position: nat| E::radix_g1(bytes, position)
}

pub open spec fn radix_g2_source<E: PairingReader>(bytes: Seq<u8>) -> spec_fn(nat) -> Result<
    E::G2Affine,
    ReadErrorModel,
> {
    |position: nat| E::radix_g2(bytes, position)
}

/// Reads `count` points of the first group of a ptau file.
pub(crate) fn read_ptau_g1_points<E: PairingReader>(
    reader: &mut ByteReader<'_>,
    count: usize,
) -> (res: Result<Vec<E::G1Affine>, ReadError>)
    ensures
        final(reader).bytes == old(reader).bytes,
        ({
            let expected = points(
                ptau_g1_source::<E>(old(reader).bytes@),
                old(reader).position as nat,
                2 * E::element_length(),
                count as nat,
            );
            match res {
                Ok(read) => expected == Ok::<Seq<E::G1Affine>, ReadErrorModel>(read@)
                    && read@.len() == count && final(reader).position == old(reader).position
                    + count * (2 * E::element_length()),
                Err(error) => expected == Err::<Seq<E::G1Affine>, ReadErrorModel>(error@),
            }
        }),
{
    let ghost start = reader.position as nat;
    let ghost source = ptau_g1_source::<E>(reader.bytes@);
    let ghost step = 2 * E::element_length();
    let mut read: Vec<E::G1Affine> = Vec::new();
    let mut i: usize = 0;
    proof {
        assert(read@ =~= Seq::empty());
        assert(0 * step == 0);
    }
    while i < count
        invariant
            i <= count,
            reader.bytes == old(reader).bytes,
            start == old(reader).position,
            source == ptau_g1_source::<E>(reader.bytes@),
            step == 2 * E::element_length(),
            reader.position == start + i * step,
            read@.len() == i,
            points(source, start, step, i as nat) == Ok::<Seq<E::G1Affine>, ReadErrorModel>(
                read@,
            ),
        decreases count - i,
    {
        match E::read_ptau_g1(reader) {
            Ok(point) => {
                read.push(point);
                proof {
                    assert((i + 1) * step == i * step + step) by (nonlinear_arith);
                }
                i = i + 1;
            },
            Err(error) => {
                proof {
                    lemma_points_failure(source, start, step, (i + 1) as nat, count as nat);
                }
                return Err(error);
            },
        }
    }
    Ok(read)
}

/// Reads `count` points of the second group of a ptau file.
pub(crate) fn read_ptau_g2_points<E: PairingReader>(
    reader: &mut ByteReader<'_>,
    count: usize,
) -> (res: Result<Vec<E::G2Affine>, ReadError>)
    ensures
        final(reader).bytes == old(reader).bytes,
        ({
            let expected = points(
                ptau_g2_source::<E>(old(reader).bytes@),
                old(reader).position as nat,
                4 * E::element_length(),
                count as nat,
            );
            match res {
                Ok(read) => expected == Ok::<Seq<E::G2Affine>, ReadErrorModel>(read@)
                    && read@.len() == count && final(reader).position == old(reader).position
                    + count * (4 * E::element_length()),
                Err(error) => expected == Err::<Seq<E::G2Affine>, ReadErrorModel>(error@),
            }
        }),
{
    let ghost start = reader.position as nat;
    let ghost source = ptau_g2_source::<E>(reader.bytes@);
    let ghost step = 4 * E::element_length();
    let mut read: Vec<E::G2Affine> = Vec::new();
    let mut i: usize = 0;
    proof {
        assert(read@ =~= Seq::empty());
        assert(0 * step == 0);
    }
    while i < count
        invariant
            i <= count,
            reader.bytes == old(reader).bytes,
            start == old(reader).position,
            source == ptau_g2_source::<E>(reader.bytes@),
            step == 4 * E::element_length(),
            reader.position == start + i * step,
            read@.len() == i,
            points(source, start, step, i as nat) == Ok::<Seq<E::G2Affine>, ReadErrorModel>(
                read@,
            ),
        decreases count - i,
    {
        match E::read_ptau_g2(reader) {
            Ok(point) => {
                read.push(point);
                proof {
                    assert((i + 1) * step == i * step + step) by (nonlinear_arith);
                }
                i = i + 1;
            },
            Err(error) => {
                proof {
                    lemma_points_failure(source, start, step, (i + 1) as nat, count as nat);
                }
                return Err(error);
            },
        }
    }
    Ok(read)
}

/// Reads `count` points of the first group of a radix file.
pub(crate) fn read_radix_g1_points<E: PairingReader>(
    reader: &mut ByteReader<'_>,
    count: usize,
) -> (res: Result<Vec<E::G1Affine>, ReadError>)
    ensures
        final(reader).bytes == old(reader).bytes,
        ({
            let expected = points(
                radix_g1_source::<E>(old(reader).bytes@),
                old(reader).position as nat,
                2 * E::element_length(),
                count as nat,
            );
            match res {
                Ok(read) => expected == Ok::<Seq<E::G1Affine>, ReadErrorModel>(read@)
                    && read@.len() == count && final(reader).position == old(reader).position
                    + count * (2 * E::element_length()),
                Err(error) => expected == Err::<Seq<E::G1Affine>, ReadErrorModel>(error@),
            }
        }),
{
    let ghost start = reader.position as nat;
    let ghost source = radix_g1_source::<E>(reader.bytes@);
    let ghost step = 2 * E::element_length();
    let mut read: Vec<E::G1Affine> = Vec::new();
    let mut i: usize = 0;
    proof {
        assert(read@ =~= Seq::empty());
        assert(0 * step == 0);
    }
    while i < count
        invariant
            i <= count,
            reader.bytes == old(reader).bytes,
            start == old(reader).position,
            source == radix_g1_source::<E>(reader.bytes@),
            step == 2 * E::element_length(),
            reader.position == start + i * step,
            read@.len() == i,
            points(source, start, step, i as nat) == Ok::<Seq<E::G1Affine>, ReadErrorModel>(
                read@,
            ),
        decreases count - i,
    {
        match E::read_radix_g1(reader) {
            Ok(point) => {
                read.push(point);
                proof {
                    assert((i + 1) * step == i * step + step) by (nonlinear_arith);
                }
                i = i + 1;
            },
            Err(error) => {
                proof {
                    lemma_points_failure(source, start, step, (i + 1) as nat, count as nat);
                }
                return Err(error);
            },
        }
    }
    Ok(read)
}

/// Reads `count` points of the second group of a radix file.
pub(crate) fn read_radix_g2_points<E: PairingReader>(
    reader: &mut ByteReader<'_>,
    count: usize,
) -> (res: Result<Vec<E::G2Affine>, ReadError>)
    ensures
        final(reader).bytes == old(reader).bytes,
        ({
            let expected = points(
                radix_g2_source::<E>(old(reader).bytes@),
                old(reader).position as nat,
                4 * E::element_length(),
                count as nat,
            );
            match res {
                Ok(read) => expected == Ok::<Seq<E::G2Affine>, ReadErrorModel>(read@)
                    && read@.len() == count && final(reader).position == old(reader).position
                    + count * (4 * E::element_length()),
                Err(error) => expected == Err::<Seq<E::G2Affine>, ReadErrorModel>(error@),
            }
        }),
{
    let ghost start = reader.position as nat;
    let ghost source = radix_g2_source::<E>(reader.bytes@);
    let ghost step = 4 * E::element_length();
    let mut read: Vec<E::G2Affine> = Vec::new();
    let mut i: usize = 0;
    proof {
        assert(read@ =~= Seq::empty());
        assert(0 * step == 0);
    }
    while i < count
        invariant
            i <= count,
            reader.bytes == old(reader).bytes,
            start == old(reader).position,
            source == radix_g2_source::<E>(reader.bytes@),
            step == 4 * E::element_length(),
            reader.position == start + i * step,
            read@.len() == i,
            points(source, start, step, i as nat) == Ok::<Seq<E::G2Affine>, ReadErrorModel>(
                read@,
            ),
        decreases count - i,
    {
        match E::read_radix_g2(reader) {
            Ok(point) => {
                read.push(point);
                proof {
                    assert((i + 1) * step == i * step + step) by (nonlinear_arith);
                }
                i = i + 1;
            },
            Err(error) => {
                proof {
                    lemma_points_failure(source, start, step, (i + 1) as nat, count as nat);
                }
                return Err(error);
            },
        }
    }
    Ok(read)
}

} // verus!
