use vstd::arithmetic::power2::{lemma2_to64, lemma_pow2_adds, pow2};
use vstd::prelude::*;

use crate::math::{be_value, le_value};
use crate::reader::{bytes_at, masked, ptau_elements, radix_point, ReadErrorModel};

verus! {

/// The `length` bytes of a number, least significant first.
pub open spec fn to_le(value: nat, length: nat) -> Seq<u8>
    decreases length,
{
    if length == 0 {
        Seq::empty()
    } else {
        seq![(value % 256) as u8] + to_le(value / 256, (length - 1) as nat)
    }
}

/// The `length` bytes of a number, most significant first.
pub open spec fn to_be(value: nat, length: nat) -> Seq<u8> {
    to_le(value, length).reverse()
}

/// Bytes with flags in the two most significant bits of the first one.
pub open spec fn flagged(bytes: Seq<u8>, flags: nat) -> Seq<u8> {
    bytes.update(0, (bytes[0] + 64 * flags) as u8)
}

/// The first `count` pieces, one behind the other.
pub open spec fn concatenated(piece: spec_fn(nat) -> Seq<u8>, count: nat) -> Seq<u8>
    decreases count,
{
    if count == 0 {
        Seq::empty()
    } else {
        concatenated(piece, (count - 1) as nat) + piece((count - 1) as nat)
    }
}

/// Field elements in Montgomery form, least significant byte first.
pub open spec fn montgomery_bytes(elements: Seq<nat>, length: nat, modulus: nat) -> Seq<u8> {
    concatenated(
        |k: nat| to_le((elements[k as int] * pow2(8 * length)) % modulus, length),
        elements.len(),
    )
}

/// The bytes of each of the field elements, most significant first, one of them with flags in its
/// first byte.
pub open spec fn big_endian_pieces(
    elements: Seq<nat>,
    length: nat,
    flagged_at: nat,
    flags: nat,
) -> spec_fn(nat) -> Seq<u8> {
    |k: nat|
        if k == flagged_at {
            flagged(to_be(elements[k as int], length), flags)
        } else {
            to_be(elements[k as int], length)
        }
}

/// Field elements, most significant byte first, one of them with flags in its first byte.
pub open spec fn big_endian_bytes(
    elements: Seq<nat>,
    length: nat,
    flagged_at: nat,
    flags: nat,
) -> Seq<u8> {
    concatenated(big_endian_pieces(elements, length, flagged_at, flags), elements.len())
}

/// The elements of two coordinates, the second half of each first.
pub open spec fn swapped(elements: Seq<nat>) -> Seq<nat> {
    seq![elements[1], elements[0], elements[3], elements[2]]
}

pub proof fn lemma_concatenated_equal(
    f: spec_fn(nat) -> Seq<u8>,
    g: spec_fn(nat) -> Seq<u8>,
    count: nat,
)
    requires
        forall|k: nat| k < count ==> #[trigger] f(k) == g(k),
    ensures
        concatenated(f, count) == concatenated(g, count),
    decreases count,
{
    if count > 0 {
        lemma_concatenated_equal(f, g, (count - 1) as nat);
    }
}

/// A piece of pieces of one length lies where it has to.
pub proof fn lemma_piece(piece: spec_fn(nat) -> Seq<u8>, count: nat, step: nat, k: nat)
    requires
        k < count,
        forall|j: nat| j < count ==> (#[trigger] piece(j)).len() == step,
    ensures
        concatenated(piece, count).len() == count * step,
        k * step + step <= count * step,
        concatenated(piece, count).subrange((k * step) as int, (k * step + step) as int) == piece(
            k,
        ),
    decreases count,
{
    let last = (count - 1) as nat;
    let before = concatenated(piece, last);
    lemma_concatenated_length(piece, last, step);
    assert(count * step == last * step + step) by (nonlinear_arith)
        requires
            count == last + 1,
    ;
    assert(k * step + step <= count * step) by (nonlinear_arith)
        requires
            k + 1 <= count,
    ;
    let own = concatenated(piece, count);
    assert(piece(last).len() == step);
    if k == last {
        assert(own.subrange((k * step) as int, (k * step + step) as int) =~= piece(last));
    } else {
        lemma_piece(piece, last, step, k);
        assert(own.subrange((k * step) as int, (k * step + step) as int) =~= before.subrange(
            (k * step) as int,
            (k * step + step) as int,
        ));
    }
}

pub proof fn lemma_concatenated_length(piece: spec_fn(nat) -> Seq<u8>, count: nat, step: nat)
    requires
        forall|j: nat| j < count ==> (#[trigger] piece(j)).len() == step,
    ensures
        concatenated(piece, count).len() == count * step,
    decreases count,
{
    if count > 0 {
        let last = (count - 1) as nat;
        lemma_concatenated_length(piece, last, step);
        assert(piece(last).len() == step);
        assert(count * step == last * step + step) by (nonlinear_arith)
            requires
                count == last + 1,
        ;
    } else {
        assert(0 * step == 0);
    }
}

/// A number is read from the bytes it is written as.
pub proof fn lemma_to_le(value: nat, length: nat)
    ensures
        to_le(value, length).len() == length,
        value < pow2(8 * length) ==> le_value(to_le(value, length)) == value,
    decreases length,
{
    lemma2_to64();
    if length > 0 {
        let last = (length - 1) as nat;
        lemma_to_le(value / 256, last);
        lemma_pow2_adds(8, 8 * last);
        let rest = to_le(value / 256, last);
        let own = to_le(value, length);
        assert(own.skip(1) =~= rest);
        assert(own[0] == (value % 256) as u8);
        if value < pow2(8 * length) {
            assert(value / 256 < pow2(8 * last)) by (nonlinear_arith)
                requires
                    value < 256 * pow2(8 * last),
            ;
        }
    }
}

pub proof fn lemma_to_be(value: nat, length: nat)
    ensures
        to_be(value, length).len() == length,
        value < pow2(8 * length) ==> be_value(to_be(value, length)) == value,
{
    lemma_to_le(value, length);
    assert(to_be(value, length).reverse() =~= to_le(value, length));
}

/// The last of the bytes of a number that leaves the two most significant bits free.
proof fn lemma_top_byte(value: nat, length: nat)
    requires
        length > 0,
        4 * value < pow2(8 * length),
    ensures
        to_le(value, length)[length - 1] < 64,
    decreases length,
{
    lemma2_to64();
    let last = (length - 1) as nat;
    lemma_pow2_adds(8, 8 * last);
    lemma_to_le(value / 256, last);
    if last == 0 {
        assert(to_le(value, length)[0] == (value % 256) as u8);
    } else {
        assert(4 * (value / 256) < pow2(8 * last)) by (nonlinear_arith)
            requires
                4 * value < 256 * pow2(8 * last),
        ;
        lemma_top_byte(value / 256, last);
        assert(to_le(value, length)[length - 1] == to_le(value / 256, last)[last - 1]);
    }
}

/// Flags do not count.
pub proof fn lemma_flagged(value: nat, length: nat, flags: nat)
    requires
        length > 0,
        flags < 4,
        4 * value < pow2(8 * length),
    ensures
        flagged(to_be(value, length), flags).len() == length,
        masked(flagged(to_be(value, length), flags)) == to_be(value, length),
        be_value(to_be(value, length)) == value,
{
    lemma_to_be(value, length);
    lemma_to_le(value, length);
    lemma_top_byte(value, length);
    let own = to_be(value, length);
    let first = own[0];
    assert(first == to_le(value, length)[length - 1]);
    let f = flags as u8;
    assert(first < 64 && f < 4 ==> ((first + 64 * f) as u8) & 0x3f == first) by (bit_vector);
    assert(masked(flagged(own, flags)) =~= own);
}

/// Field elements are read from the bytes that they are written as in a ptau file.
pub proof fn lemma_ptau_written(
    values: Seq<nat>,
    own: Seq<u8>,
    length: nat,
    order: nat,
    texts: Seq<Seq<char>>,
    count: nat,
)
    requires
        count <= values.len(),
        own == concatenated(|k: nat| to_le(values[k as int], length), values.len()),
        order <= pow2(8 * length),
        forall|k: int| 0 <= k < values.len() ==> #[trigger] values[k] < order,
    ensures
        ptau_elements(own, length, order, texts, count) == Ok::<Seq<nat>, ReadErrorModel>(
            values.take(count as int),
        ),
    decreases count,
{
    if count == 0 {
        assert(values.take(0) =~= Seq::empty());
    } else {
        let last = (count - 1) as nat;
        let piece = |k: nat| to_le(values[k as int], length);
        lemma_ptau_written(values, own, length, order, texts, last);
        assert forall|k: nat| k < values.len() implies (#[trigger] piece(k)).len() == length by {
            lemma_to_le(values[k as int], length);
        }
        lemma_piece(piece, values.len(), length, last);
        lemma_to_le(values[last as int], length);
        assert(values[last as int] < order);
        assert(values.take(last as int).push(values[last as int]) =~= values.take(count as int));
    }
}

/// Field elements are read from the bytes that they are written as in a radix file.
pub proof fn lemma_radix_written(
    values: Seq<nat>,
    flags: nat,
    flagged_at: nat,
    bytes: Seq<u8>,
    position: nat,
    length: nat,
    order: nat,
    texts: Seq<Seq<char>>,
    count: nat,
)
    requires
        count <= values.len(),
        length > 0,
        flags < 4,
        bytes_at(bytes, position, values.len() * length) == Ok::<Seq<u8>, ReadErrorModel>(
            big_endian_bytes(values, length, flagged_at, flags),
        ),
        4 * order <= pow2(8 * length),
        forall|k: int| 0 <= k < values.len() ==> #[trigger] values[k] < order,
    ensures
        radix_point(bytes, position, length, order, texts, flagged_at, count) == Ok::<
            Seq<nat>,
            ReadErrorModel,
        >(values.take(count as int)),
    decreases count,
{
    if count == 0 {
        assert(values.take(0) =~= Seq::empty());
    } else {
        let last = (count - 1) as nat;
        lemma_radix_written(
            values,
            flags,
            flagged_at,
            bytes,
            position,
            length,
            order,
            texts,
            last,
        );
        let piece = big_endian_pieces(values, length, flagged_at, flags);
        assert forall|k: nat| k < values.len() implies (#[trigger] piece(k)).len() == length by {
            assert(values[k as int] < order);
            lemma_flagged(values[k as int], length, flags);
            lemma_to_be(values[k as int], length);
        }
        lemma_piece(piece, values.len(), length, last);
        assert(values[last as int] < order);
        lemma_flagged(values[last as int], length, flags);
        let own = big_endian_bytes(values, length, flagged_at, flags);
        let part = own.subrange((last * length) as int, (last * length + length) as int);
        assert(bytes.subrange(
            (position + last * length) as int,
            (position + last * length + length) as int,
        ) =~= part);
        assert(bytes_at(bytes, position + last * length, length) == Ok::<
            Seq<u8>,
            ReadErrorModel,
        >(piece(last)));
        assert(values.take(last as int).push(values[last as int]) =~= values.take(count as int));
    }
}

} // verus!
