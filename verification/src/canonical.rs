use vstd::bytes::{
    lemma_auto_spec_u64_to_from_le_bytes, spec_u64_from_le_bytes, spec_u64_to_le_bytes,
    u64_from_le_bytes, u64_to_le_bytes,
};
use vstd::prelude::*;
use vstd::slice::slice_subrange;

verus! {

/// The canonical byte encoding of values, in which points are written compressed or in full.
pub trait CanonicalModel: Sized {
    /// What a value is, apart from how it is held.
    type Value;

    spec fn value_of(self) -> Self::Value;

    /// Whether every point of the value lies in its group.
    spec fn valid(value: Self::Value) -> bool;

    spec fn encoding(value: Self::Value, compress: bool) -> Seq<u8>;

    /// The number of bytes of the encoding.
    spec fn encoded_length(value: Self::Value, compress: bool) -> nat;

    /// What is read at the start of `bytes`, and how many bytes that takes, or the message of
    /// the failure. Only with `validate` are the points tested to lie in their groups.
    spec fn decoding(bytes: Seq<u8>, compress: bool, validate: bool) -> Result<
        (Self::Value, nat),
        Seq<char>,
    >;
}

/// Whether what is written of `value` is read back as `value`, whatever follows it, and is not
/// read at all where its end is missing.
pub open spec fn reads_back<T: CanonicalModel>(value: T::Value, compress: bool) -> bool {
    let bytes = T::encoding(value, compress);
    &&& forall|tail: Seq<u8>, validate: bool|
        #[trigger] T::decoding(bytes + tail, compress, validate) == Ok::<
            (T::Value, nat),
            Seq<char>,
        >((value, bytes.len()))
    &&& forall|count: nat, validate: bool|
        count < bytes.len() ==> #[trigger] T::decoding(
            bytes.take(count as int),
            compress,
            validate,
        ) is Err
}

/// Values with a canonical byte encoding.
pub trait Canonical: CanonicalModel {
    /// Appends the encoding to `out`.
    fn serialize_with_mode(&self, compress: bool, out: &mut Vec<u8>) -> (res: Result<(), String>)
        ensures
            res is Ok,
            final(out)@ == old(out)@ + Self::encoding(self.value_of(), compress),
            Self::encoding(self.value_of(), compress).len() == Self::encoded_length(
                self.value_of(),
                compress,
            ),
            Self::valid(self.value_of()) ==> reads_back::<Self>(self.value_of(), compress),
    ;

    /// Reads a value at the start of `bytes`.
    fn deserialize_with_mode(bytes: &[u8], compress: bool, validate: bool) -> (res: Result<
        (Self, usize),
        String,
    >)
        ensures
            match res {
                Ok((value, length)) => Self::decoding(bytes@, compress, validate) == Ok::<
                    (Self::Value, nat),
                    Seq<char>,
                >((value.value_of(), length as nat)) && length <= bytes@.len(),
                Err(message) => Self::decoding(bytes@, compress, validate) == Err::<
                    (Self::Value, nat),
                    Seq<char>,
                >(message@),
            },
    ;

    /// Whether every point of the value lies in its group.
    fn check(&self) -> (res: bool)
        ensures
            res == Self::valid(self.value_of()),
    ;
}

/// The message of a read past the end of the input.
pub open spec fn short_input() -> Seq<char> {
    "I/O error: Error { kind: UnexpectedEof, message: \"failed to fill whole buffer\" }"@
}

/// The message for input that encodes no value, or no valid one.
pub open spec fn invalid_data() -> Seq<char> {
    "the input buffer contained invalid data"@
}

/// The message for a length that does not fit.
pub open spec fn not_enough_space() -> Seq<char> {
    "the last byte does not have enough space to encode the extra info bits"@
}

fn short_input_message() -> (res: String)
    ensures
        res@ == short_input(),
{
    "I/O error: Error { kind: UnexpectedEof, message: \"failed to fill whole buffer\" }".to_owned()
}

fn invalid_data_message() -> (res: String)
    ensures
        res@ == invalid_data(),
{
    "the input buffer contained invalid data".to_owned()
}

fn not_enough_space_message() -> (res: String)
    ensures
        res@ == not_enough_space(),
{
    "the last byte does not have enough space to encode the extra info bits".to_owned()
}

/// One value behind the other.
impl<A: CanonicalModel, B: CanonicalModel> CanonicalModel for (A, B) {
    type Value = (A::Value, B::Value);

    open spec fn value_of(self) -> (A::Value, B::Value) {
        (self.0.value_of(), self.1.value_of())
    }

    open spec fn valid(value: (A::Value, B::Value)) -> bool {
        A::valid(value.0) && B::valid(value.1)
    }

    open spec fn encoding(value: (A::Value, B::Value), compress: bool) -> Seq<u8> {
        A::encoding(value.0, compress) + B::encoding(value.1, compress)
    }

    open spec fn encoded_length(value: (A::Value, B::Value), compress: bool) -> nat {
        A::encoded_length(value.0, compress) + B::encoded_length(value.1, compress)
    }

    open spec fn decoding(bytes: Seq<u8>, compress: bool, validate: bool) -> Result<
        ((A::Value, B::Value), nat),
        Seq<char>,
    > {
        match A::decoding(bytes, compress, validate) {
            Err(message) => Err(message),
            Ok((a, n)) => match B::decoding(bytes.skip(n as int), compress, validate) {
                Err(message) => Err(message),
                Ok((b, k)) => Ok(((a, b), n + k)),
            },
        }
    }
}

impl<A: Canonical, B: Canonical> Canonical for (A, B) {
    fn serialize_with_mode(&self, compress: bool, out: &mut Vec<u8>) -> (res: Result<(), String>) {
        let ghost before = out@;
        self.0.serialize_with_mode(compress, out)?;
        self.1.serialize_with_mode(compress, out)?;
        proof {
            assert(out@ =~= before + Self::encoding(self.value_of(), compress));
            lemma_pair_reads_back::<A, B>(self.0.value_of(), self.1.value_of(), compress);
        }
        Ok(())
    }

    fn deserialize_with_mode(bytes: &[u8], compress: bool, validate: bool) -> (res: Result<
        (Self, usize),
        String,
    >) {
        let (a, n) = A::deserialize_with_mode(bytes, compress, validate)?;
        let rest = slice_subrange(bytes, n, bytes.len());
        proof {
            assert(rest@ =~= bytes@.skip(n as int));
        }
        let (b, k) = B::deserialize_with_mode(rest, compress, validate)?;
        Ok(((a, b), n + k))
    }

    fn check(&self) -> (res: bool) {
        self.0.check() && self.1.check()
    }
}

/// Writing two values behind `before`, one behind the other, is writing the pair of them, and the
/// pair is read back if both are.
pub proof fn lemma_written<A: CanonicalModel, B: CanonicalModel>(
    before: Seq<u8>,
    a: A::Value,
    b: B::Value,
    compress: bool,
)
    ensures
        before + A::encoding(a, compress) + B::encoding(b, compress) == before + <(
            A,
            B,
        ) as CanonicalModel>::encoding((a, b), compress),
        A::encoding(a, compress).len() == A::encoded_length(a, compress) && B::encoding(
            b,
            compress,
        ).len() == B::encoded_length(b, compress) ==> <(A, B) as CanonicalModel>::encoding(
            (a, b),
            compress,
        ).len() == <(A, B) as CanonicalModel>::encoded_length((a, b), compress),
        reads_back::<A>(a, compress) && reads_back::<B>(b, compress) ==> reads_back::<(A, B)>(
            (a, b),
            compress,
        ),
{
    assert(before + A::encoding(a, compress) + B::encoding(b, compress) =~= before + <(
        A,
        B,
    ) as CanonicalModel>::encoding((a, b), compress));
    lemma_pair_reads_back::<A, B>(a, b, compress);
}

/// What is written of two values, one behind the other, is read back.
pub proof fn lemma_pair_reads_back<A: CanonicalModel, B: CanonicalModel>(
    a: A::Value,
    b: B::Value,
    compress: bool,
)
    ensures
        reads_back::<A>(a, compress) && reads_back::<B>(b, compress) ==> reads_back::<(A, B)>(
            (a, b),
            compress,
        ),
{
    let first = A::encoding(a, compress);
    let second = B::encoding(b, compress);
    if reads_back::<A>(a, compress) && reads_back::<B>(b, compress) {
        assert forall|tail: Seq<u8>, validate: bool|
            #[trigger] <(A, B) as CanonicalModel>::decoding(
                (first + second) + tail,
                compress,
                validate,
            ) == Ok::<((A::Value, B::Value), nat), Seq<char>>(((a, b), (first + second).len())) by {
            assert((first + second) + tail =~= first + (second + tail));
            assert((first + (second + tail)).skip(first.len() as int) =~= second + tail);
            assert(A::decoding(first + (second + tail), compress, validate) == Ok::<
                (A::Value, nat),
                Seq<char>,
            >((a, first.len())));
            assert(B::decoding(second + tail, compress, validate) == Ok::<
                (B::Value, nat),
                Seq<char>,
            >((b, second.len())));
        }
        assert forall|count: nat, validate: bool| count < (first + second).len() implies
            #[trigger] <(A, B) as CanonicalModel>::decoding(
            (first + second).take(count as int),
            compress,
            validate,
        ) is Err by {
            let cut = (first + second).take(count as int);
            if count < first.len() {
                assert(cut =~= first.take(count as int));
                assert(A::decoding(first.take(count as int), compress, validate) is Err);
            } else {
                let rest = second.take(count - first.len());
                assert(cut =~= first + rest);
                assert(A::decoding(first + rest, compress, validate) == Ok::<
                    (A::Value, nat),
                    Seq<char>,
                >((a, first.len())));
                assert((first + rest).skip(first.len() as int) =~= rest);
                assert(B::decoding(
                    second.take((count - first.len()) as nat as int),
                    compress,
                    validate,
                ) is Err);
            }
        }
    }
}

/// The encodings of the first `count` values.
pub open spec fn items_encoding<T: CanonicalModel>(
    values: Seq<T::Value>,
    count: nat,
    compress: bool,
) -> Seq<u8>
    decreases count,
{
    if count == 0 {
        Seq::empty()
    } else {
        items_encoding::<T>(values, (count - 1) as nat, compress) + T::encoding(
            values[count - 1],
            compress,
        )
    }
}

/// The number of bytes of the encodings of the first `count` values.
pub open spec fn items_length<T: CanonicalModel>(
    values: Seq<T::Value>,
    count: nat,
    compress: bool,
) -> nat
    decreases count,
{
    if count == 0 {
        0
    } else {
        items_length::<T>(values, (count - 1) as nat, compress) + T::encoded_length(
            values[count - 1],
            compress,
        )
    }
}

/// What is read of `count` values, not yet validated.
pub open spec fn items_decoding<T: CanonicalModel>(
    bytes: Seq<u8>,
    count: nat,
    compress: bool,
) -> Result<(Seq<T::Value>, nat), Seq<char>>
    decreases count,
{
    if count == 0 {
        Ok((Seq::empty(), 0))
    } else {
        match items_decoding::<T>(bytes, (count - 1) as nat, compress) {
            Err(message) => Err(message),
            Ok((values, n)) => match T::decoding(bytes.skip(n as int), compress, false) {
                Err(message) => Err(message),
                Ok((value, k)) => Ok((values.push(value), n + k)),
            },
        }
    }
}

proof fn lemma_items_failure<T: CanonicalModel>(
    bytes: Seq<u8>,
    count: nat,
    more: nat,
    compress: bool,
)
    requires
        items_decoding::<T>(bytes, count, compress) is Err,
        count <= more,
    ensures
        items_decoding::<T>(bytes, more, compress) == items_decoding::<T>(bytes, count, compress),
    decreases more,
{
    if count < more {
        lemma_items_failure::<T>(bytes, count, (more - 1) as nat, compress);
    }
}

proof fn lemma_items_read_back<T: CanonicalModel>(
    values: Seq<T::Value>,
    count: nat,
    compress: bool,
    tail: Seq<u8>,
)
    requires
        count <= values.len(),
        forall|i: int|
            0 <= i < count ==> reads_back::<T>(#[trigger] values[i], compress),
    ensures
        items_decoding::<T>(
            items_encoding::<T>(values, count, compress) + tail,
            count,
            compress,
        ) == Ok::<(Seq<T::Value>, nat), Seq<char>>(
            (values.take(count as int), items_encoding::<T>(values, count, compress).len()),
        ),
    decreases count,
{
    if count == 0 {
        assert(values.take(0) =~= Seq::empty());
    } else {
        let last = (count - 1) as nat;
        let before = items_encoding::<T>(values, last, compress);
        let own = T::encoding(values[last as int], compress);
        lemma_items_read_back::<T>(values, last, compress, own + tail);
        assert((before + own) + tail =~= before + (own + tail));
        assert((before + (own + tail)).skip(before.len() as int) =~= own + tail);
        assert(reads_back::<T>(values[last as int], compress));
        assert(T::decoding(own + tail, compress, false) == Ok::<(T::Value, nat), Seq<char>>(
            (values[last as int], own.len()),
        ));
        assert(values.take(last as int).push(values[last as int]) =~= values.take(count as int));
    }
}

proof fn lemma_items_cut<T: CanonicalModel>(
    values: Seq<T::Value>,
    count: nat,
    compress: bool,
    length: nat,
)
    requires
        count <= values.len(),
        forall|i: int| 0 <= i < count ==> reads_back::<T>(#[trigger] values[i], compress),
        length < items_encoding::<T>(values, count, compress).len(),
    ensures
        items_decoding::<T>(
            items_encoding::<T>(values, count, compress).take(length as int),
            count,
            compress,
        ) is Err,
    decreases count,
{
    let last = (count - 1) as nat;
    let before = items_encoding::<T>(values, last, compress);
    let own = T::encoding(values[last as int], compress);
    let cut = (before + own).take(length as int);
    assert(reads_back::<T>(values[last as int], compress));
    if length < before.len() {
        lemma_items_cut::<T>(values, last, compress, length);
        assert(cut =~= before.take(length as int));
    } else {
        let rest = (length - before.len()) as nat;
        lemma_items_read_back::<T>(values, last, compress, own.take(rest as int));
        assert(cut =~= before + own.take(rest as int));
        assert((before + own.take(rest as int)).skip(before.len() as int) =~= own.take(
            rest as int,
        ));
        assert(T::decoding(own.take(rest as int), compress, false) is Err);
    }
}

/// The number of the values, and then the values.
impl<T: CanonicalModel> CanonicalModel for Vec<T> {
    type Value = Seq<T::Value>;

    open spec fn value_of(self) -> Seq<T::Value> {
        Seq::new(self@.len(), |i: int| self@[i].value_of())
    }

    open spec fn valid(value: Seq<T::Value>) -> bool {
        forall|i: int| 0 <= i < value.len() ==> T::valid(#[trigger] value[i])
    }

    open spec fn encoding(value: Seq<T::Value>, compress: bool) -> Seq<u8> {
        spec_u64_to_le_bytes(value.len() as u64) + items_encoding::<T>(
            value,
            value.len(),
            compress,
        )
    }

    open spec fn encoded_length(value: Seq<T::Value>, compress: bool) -> nat {
        8 + items_length::<T>(value, value.len(), compress)
    }

    open spec fn decoding(bytes: Seq<u8>, compress: bool, validate: bool) -> Result<
        (Seq<T::Value>, nat),
        Seq<char>,
    > {
        if bytes.len() < 8 {
            Err(short_input())
        } else {
            let count = spec_u64_from_le_bytes(bytes.take(8)) as nat;
            if count > usize::MAX {
                Err(not_enough_space())
            } else {
                match items_decoding::<T>(bytes.skip(8), count, compress) {
                    Err(message) => Err(message),
                    Ok((values, n)) => if validate && !Self::valid(values) {
                        Err(invalid_data())
                    } else {
                        Ok((values, 8 + n))
                    },
                }
            }
        }
    }
}

impl<T: Canonical> Canonical for Vec<T> {
    fn serialize_with_mode(&self, compress: bool, out: &mut Vec<u8>) -> (res: Result<(), String>) {
        let ghost before = out@;
        let ghost values = self.value_of();
        let mut length = u64_to_le_bytes(self.len() as u64);
        let ghost prefix = length@;
        out.append(&mut length);
        let mut i: usize = 0;
        while i < self.len()
            invariant
                i <= self.len(),
                values == self.value_of(),
                out@ == before + prefix + items_encoding::<T>(values, i as nat, compress),
                items_encoding::<T>(values, i as nat, compress).len() == items_length::<T>(
                    values,
                    i as nat,
                    compress,
                ),
                forall|j: int|
                    0 <= j < i && T::valid(values[j]) ==> reads_back::<T>(
                        #[trigger] values[j],
                        compress,
                    ),
            decreases self.len() - i,
        {
            self[i].serialize_with_mode(compress, out)?;
            i = i + 1;
            proof {
                assert(out@ =~= before + prefix + items_encoding::<T>(values, i as nat, compress));
            }
        }
        proof {
            let body = items_encoding::<T>(values, values.len(), compress);
            assert(out@ =~= before + Self::encoding(values, compress));
            if Self::valid(values) {
                assert forall|tail: Seq<u8>, validate: bool|
                    #[trigger] Self::decoding(
                        (prefix + body) + tail,
                        compress,
                        validate,
                    ) == Ok::<(Seq<T::Value>, nat), Seq<char>>(
                    (values, (prefix + body).len()),
                ) by {
                    lemma_auto_spec_u64_to_from_le_bytes();
                    assert(((prefix + body) + tail).take(8) =~= prefix);
                    assert(((prefix + body) + tail).skip(8) =~= body + tail);
                    lemma_items_read_back::<T>(values, values.len(), compress, tail);
                    assert(values.take(values.len() as int) =~= values);
                }
                assert forall|count: nat, validate: bool| count < (prefix + body).len() implies
                    #[trigger] Self::decoding(
                    (prefix + body).take(count as int),
                    compress,
                    validate,
                ) is Err by {
                    let cut = (prefix + body).take(count as int);
                    if count >= 8 {
                        lemma_auto_spec_u64_to_from_le_bytes();
                        assert(cut.take(8) =~= prefix);
                        assert(cut.skip(8) =~= body.take(count - 8));
                        lemma_items_cut::<T>(values, values.len(), compress, (count - 8) as nat);
                    }
                }
            }
        }
        Ok(())
    }

    fn deserialize_with_mode(bytes: &[u8], compress: bool, validate: bool) -> (res: Result<
        (Self, usize),
        String,
    >) {
        if bytes.len() < 8 {
            return Err(short_input_message());
        }
        let head = slice_subrange(bytes, 0, 8);
        proof {
            assert(head@ =~= bytes@.take(8));
        }
        let count: u64 = u64_from_le_bytes(head);
        if count > usize::MAX as u64 {
            return Err(not_enough_space_message());
        }
        let ghost body = bytes@.skip(8);
        let mut values: Vec<T> = Vec::new();
        let mut position: usize = 8;
        proof {
            assert(values.value_of() =~= Seq::empty());
        }
        let mut i: u64 = 0;
        while i < count
            invariant
                i <= count,
                8 <= position <= bytes@.len(),
                body == bytes@.skip(8),
                items_decoding::<T>(body, i as nat, compress) == Ok::<
                    (Seq<T::Value>, nat),
                    Seq<char>,
                >((values.value_of(), (position - 8) as nat)),
                bytes@.len() >= 8,
                count == spec_u64_from_le_bytes(bytes@.take(8)),
                count <= usize::MAX,
            decreases count - i,
        {
            let rest = slice_subrange(bytes, position, bytes.len());
            proof {
                assert(rest@ =~= body.skip(position - 8));
            }
            match T::deserialize_with_mode(rest, compress, false) {
                Ok((value, n)) => {
                    let ghost previous = values.value_of();
                    values.push(value);
                    position = position + n;
                    i = i + 1;
                    proof {
                        assert(values.value_of() =~= previous.push(value.value_of()));
                    }
                },
                Err(message) => {
                    proof {
                        lemma_items_failure::<T>(body, (i + 1) as nat, count as nat, compress);
                    }
                    return Err(message);
                },
            }
        }
        if validate && !values.check() {
            return Err(invalid_data_message());
        }
        Ok((values, position))
    }

    fn check(&self) -> (res: bool) {
        let mut i: usize = 0;
        while i < self.len()
            invariant
                i <= self.len(),
                forall|j: int| 0 <= j < i ==> T::valid(#[trigger] self.value_of()[j]),
            decreases self.len() - i,
        {
            if !self[i].check() {
                proof {
                    assert(!T::valid(self.value_of()[i as int]));
                }
                return false;
            }
            i = i + 1;
        }
        true
    }
}

/// The bytes as they are.
fn append_bytes(bytes: &[u8], out: &mut Vec<u8>)
    ensures
        final(out)@ == old(out)@ + bytes@,
{
    let ghost before = out@;
    let mut i: usize = 0;
    while i < bytes.len()
        invariant
            i <= bytes@.len(),
            out@ == before + bytes@.take(i as int),
        decreases bytes.len() - i,
    {
        out.push(bytes[i]);
        i = i + 1;
        proof {
            assert(out@ =~= before + bytes@.take(i as int));
        }
    }
    proof {
        assert(bytes@.take(i as int) =~= bytes@);
    }
}

/// `array` with the first bytes of `bytes` written into it.
fn fill<const N: usize>(array: [u8; N], bytes: &[u8]) -> (res: [u8; N])
    requires
        bytes@.len() >= N,
    ensures
        res@ == bytes@.take(N as int),
{
    let mut res = array;
    let mut i: usize = 0;
    while i < N
        invariant
            i <= N,
            bytes@.len() >= N,
            forall|j: int| 0 <= j < i ==> res@[j] == bytes@[j],
        decreases N - i,
    {
        res[i] = bytes[i];
        i = i + 1;
    }
    proof {
        assert(res@ =~= bytes@.take(N as int));
    }
    res
}

/// What is read of `count` bytes.
pub open spec fn bytes_decoding(bytes: Seq<u8>, count: nat) -> Result<
    (Seq<u8>, nat),
    Seq<char>,
> {
    if bytes.len() < count {
        Err(short_input())
    } else {
        Ok((bytes.take(count as int), count))
    }
}

proof fn lemma_bytes_read_back(bytes: Seq<u8>)
    ensures
        forall|tail: Seq<u8>|
            #[trigger] bytes_decoding(bytes + tail, bytes.len()) == Ok::<
                (Seq<u8>, nat),
                Seq<char>,
            >((bytes, bytes.len())),
        forall|count: nat|
            count < bytes.len() ==> #[trigger] bytes_decoding(
                bytes.take(count as int),
                bytes.len(),
            ) is Err,
{
    assert forall|tail: Seq<u8>|
        #[trigger] bytes_decoding(bytes + tail, bytes.len()) == Ok::<(Seq<u8>, nat), Seq<char>>(
            (bytes, bytes.len()),
        ) by {
        assert((bytes + tail).take(bytes.len() as int) =~= bytes);
    }
}

impl CanonicalModel for [u8; 20] {
    type Value = Seq<u8>;

    open spec fn value_of(self) -> Seq<u8> {
        self@
    }

    open spec fn valid(value: Seq<u8>) -> bool {
        value.len() == 20
    }

    open spec fn encoding(value: Seq<u8>, compress: bool) -> Seq<u8> {
        value
    }

    open spec fn encoded_length(value: Seq<u8>, compress: bool) -> nat {
        20
    }

    open spec fn decoding(bytes: Seq<u8>, compress: bool, validate: bool) -> Result<
        (Seq<u8>, nat),
        Seq<char>,
    > {
        bytes_decoding(bytes, 20)
    }
}

impl Canonical for [u8; 20] {
    fn serialize_with_mode(&self, compress: bool, out: &mut Vec<u8>) -> (res: Result<(), String>) {
        append_bytes(self, out);
        proof {
            lemma_bytes_read_back(self@);
        }
        Ok(())
    }

    fn deserialize_with_mode(bytes: &[u8], compress: bool, validate: bool) -> (res: Result<
        (Self, usize),
        String,
    >) {
        if bytes.len() < 20 {
            return Err(short_input_message());
        }
        Ok((fill([0u8; 20], bytes), 20))
    }

    fn check(&self) -> (res: bool) {
        true
    }
}

impl CanonicalModel for [u8; 65] {
    type Value = Seq<u8>;

    open spec fn value_of(self) -> Seq<u8> {
        self@
    }

    open spec fn valid(value: Seq<u8>) -> bool {
        value.len() == 65
    }

    open spec fn encoding(value: Seq<u8>, compress: bool) -> Seq<u8> {
        value
    }

    open spec fn encoded_length(value: Seq<u8>, compress: bool) -> nat {
        65
    }

    open spec fn decoding(bytes: Seq<u8>, compress: bool, validate: bool) -> Result<
        (Seq<u8>, nat),
        Seq<char>,
    > {
        bytes_decoding(bytes, 65)
    }
}

impl Canonical for [u8; 65] {
    fn serialize_with_mode(&self, compress: bool, out: &mut Vec<u8>) -> (res: Result<(), String>) {
        append_bytes(self, out);
        proof {
            lemma_bytes_read_back(self@);
        }
        Ok(())
    }

    fn deserialize_with_mode(bytes: &[u8], compress: bool, validate: bool) -> (res: Result<
        (Self, usize),
        String,
    >) {
        if bytes.len() < 65 {
            return Err(short_input_message());
        }
        Ok((fill([0u8; 65], bytes), 65))
    }

    fn check(&self) -> (res: bool) {
        true
    }
}

} // verus!
