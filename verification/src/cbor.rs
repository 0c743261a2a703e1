//! A small CBOR codec (RFC 7049): unsigned integers, byte strings and text
//! strings, which is all that a table holds.
//!
//! Writers append the shortest encoding of a value to a buffer. Readers take
//! one value of an expected kind from a [`Cursor`] and leave the cursor
//! untouched when they fail.

use crate::cbor_types::{
    be_bytes, be_to_u64, be_value, cbor_head, embedded_value_for, lemma_be_bytes_len,
    lemma_be_value_of_be_bytes, lemma_pow256_of_8, num_bytes_for, pow256,
};
use crate::error::{Error, ErrorKind};
use crate::read::{take_byte, take_byte_array, take_byte_slice, Cursor, CursorView};
use vstd::prelude::*;
use vstd::utf8::{decode_utf8, encode_utf8, valid_utf8};

pub use crate::canonical::{
    cbor_binary_search_first, cbor_byte_cmp, cbor_sort, is_cbor_sorted, step_back_for_duplicates,
};
pub use crate::cbor_types::{
    get_embedded_value, get_embedded_value_for_u64, get_num_bytes_for_u64, ExtendedSize, MajorType,
};

verus! {

/// A value that a table can hold, as a specification sees it.
pub enum Scalar {
    /// An unsigned integer.
    U64(u64),
    /// A string of bytes.
    Bytes(Seq<u8>),
    /// A string of text.
    Text(Seq<char>),
}

impl Scalar {
    /// The major type under which the value is encoded.
    pub open spec fn major_type(self) -> MajorType {
        match self {
            Scalar::U64(_) => MajorType::UnsignedInteger,
            Scalar::Bytes(_) => MajorType::Bytes,
            Scalar::Text(_) => MajorType::Text,
        }
    }

    /// The bytes that follow the head: none for an integer, the bytes of a
    /// byte string, the UTF-8 bytes of a text.
    pub open spec fn payload(self) -> Seq<u8> {
        match self {
            Scalar::U64(_) => Seq::empty(),
            Scalar::Bytes(b) => b,
            Scalar::Text(t) => encode_utf8(t),
        }
    }

    /// The number that the head announces: the integer itself, or the
    /// length of the payload.
    pub open spec fn head_value(self) -> nat {
        match self {
            Scalar::U64(v) => v as nat,
            _ => self.payload().len(),
        }
    }

    /// Whether a head can announce the value: the payload of a string is at
    /// most `u64::MAX` bytes long.
    pub open spec fn fits(self) -> bool {
        self.head_value() <= u64::MAX
    }

    /// The encoding of the value: the shortest head, then the payload.
    pub open spec fn encoding(self) -> Seq<u8> {
        cbor_head(self.major_type(), self.head_value() as u64) + self.payload()
    }
}

/// The number of bytes that follow an initial byte to make up the head.
pub open spec fn head_extra(initial: u8) -> nat {
    ExtendedSize::of_info(initial as nat % 32).num_bytes()
}

/// The number that a head announces, given its initial byte and the bytes
/// after it. Additional information above 27 is malformed; a head whose
/// bytes are not all there ends early.
pub open spec fn decode_head_value(initial: u8, rest: Seq<u8>) -> Result<u64, ErrorKind> {
    let info = initial % 32;
    if info > 27 {
        Err(ErrorKind::InvalidData)
    } else if info <= 23 {
        Ok(info as u64)
    } else if rest.len() < head_extra(initial) {
        Err(ErrorKind::UnexpectedEof)
    } else {
        Ok(be_value(rest.take(head_extra(initial) as int)) as u64)
    }
}

/// The head at the start of `bytes`, read as one of `major_type`: the number
/// it announces and its length.
pub open spec fn decode_header(major_type: MajorType, bytes: Seq<u8>) -> Result<
    (u64, nat),
    ErrorKind,
> {
    if bytes.len() == 0 {
        Err(ErrorKind::UnexpectedEof)
    } else if MajorType::of_number(bytes[0] as nat / 32) != major_type {
        Err(ErrorKind::InvalidData)
    } else {
        match decode_head_value(bytes[0], bytes.skip(1)) {
            Ok(v) => Ok((v, 1 + head_extra(bytes[0]))),
            Err(k) => Err(k),
        }
    }
}

/// The value of `major_type` at the start of `bytes` and the number of bytes
/// it takes, or the reason why there is none.
pub open spec fn decode(major_type: MajorType, bytes: Seq<u8>) -> Result<(Scalar, nat), ErrorKind> {
    match decode_header(major_type, bytes) {
        Err(k) => Err(k),
        Ok((v, h)) => {
            let payload = bytes.subrange(h as int, h + v);
            match major_type {
                MajorType::UnsignedInteger => Ok((Scalar::U64(v), h)),
                MajorType::Bytes => if bytes.len() - h < v {
                    Err(ErrorKind::UnexpectedEof)
                } else {
                    Ok((Scalar::Bytes(payload), h + v as nat))
                },
                MajorType::Text => if bytes.len() - h < v {
                    Err(ErrorKind::UnexpectedEof)
                } else if !valid_utf8(payload) {
                    Err(ErrorKind::InvalidData)
                } else {
                    Ok((Scalar::Text(decode_utf8(payload)), h + v as nat))
                },
                _ => Err(ErrorKind::InvalidData),
            }
        },
    }
}

/// What a read of one value of `major_type` does: on success it gives the
/// decoded value and moves the cursor past it; on failure it gives the
/// reason and leaves the cursor as it was.
pub open spec fn read_outcome(
    major_type: MajorType,
    before: CursorView,
    after: CursorView,
    r: Result<Scalar, ErrorKind>,
) -> bool {
    match decode(major_type, before.remaining()) {
        Ok((s, n)) => r == Ok::<Scalar, ErrorKind>(s) && after == before.advance(n),
        Err(k) => r == Err::<Scalar, ErrorKind>(k) && after == before,
    }
}

/// Appends to `writer` the shortest head that announces `value` under
/// `major_type`.
pub fn write_cbor_head(writer: &mut Vec<u8>, major_type: MajorType, value: u64)
    ensures
        final(writer)@ == old(writer)@ + cbor_head(major_type, value),
{
    crate::cbor_types::write_cbor_head(major_type, value, writer);
}

/// Appends every byte of `bytes` to `writer`.
fn push_all(writer: &mut Vec<u8>, bytes: &[u8])
    ensures
        final(writer)@ == old(writer)@ + bytes@,
{
    let mut i: usize = 0;
    while i < bytes.len()
        invariant
            i <= bytes@.len(),
            writer@ == old(writer)@ + bytes@.take(i as int),
        decreases bytes@.len() - i,
    {
        writer.push(bytes[i]);
        assert(bytes@.take(i + 1) =~= bytes@.take(i as int).push(bytes@[i as int]));
        i += 1;
    }
    assert(bytes@.take(i as int) =~= bytes@);
}

/// Appends the encoding of `text` to `writer`: a text head with the length
/// of its UTF-8 bytes, then those bytes.
pub fn write_cbor_text(writer: &mut Vec<u8>, text: &str)
    ensures
        Scalar::Text(text@).fits(),
        final(writer)@ == old(writer)@ + Scalar::Text(text@).encoding(),
{
    let bytes: &[u8] = text.as_bytes();
    write_cbor_head(writer, MajorType::Text, bytes.len() as u64);
    push_all(writer, bytes);
    assert(writer@ =~= old(writer)@ + Scalar::Text(text@).encoding());
}

/// Appends the encoding of `bytes` to `writer`: a byte string head with
/// their number, then the bytes.
pub fn write_cbor_bytes(writer: &mut Vec<u8>, bytes: &[u8])
    ensures
        Scalar::Bytes(bytes@).fits(),
        final(writer)@ == old(writer)@ + Scalar::Bytes(bytes@).encoding(),
{
    write_cbor_head(writer, MajorType::Bytes, bytes.len() as u64);
    push_all(writer, bytes);
    assert(writer@ =~= old(writer)@ + Scalar::Bytes(bytes@).encoding());
}

/// Appends the encoding of `value` to `writer`: an unsigned integer head.
pub fn write_cbor_unsigned_integer(writer: &mut Vec<u8>, value: u64)
    ensures
        final(writer)@ == old(writer)@ + Scalar::U64(value).encoding(),
{
    write_cbor_head(writer, MajorType::UnsignedInteger, value);
    assert(writer@ =~= old(writer)@ + Scalar::U64(value).encoding());
}

/// Reads the number that a head announces, given its initial byte `byte`,
/// which was taken from `b` already. Takes up to eight more bytes.
///
/// Fails with `InvalidData` on additional information above 27 and with
/// `UnexpectedEof` where the head's bytes are not all there; `b` is then
/// left as it was.
pub fn read_cbor_head_u64(b: &mut Cursor, byte: u8) -> (r: Result<u64, Error>)
    ensures
        match decode_head_value(byte, old(b)@.remaining()) {
            Ok(v) => r == Ok::<u64, Error>(v) && final(b)@ == old(b)@.advance(head_extra(byte)),
            Err(k) => r is Err && r->Err_0.kind == k && final(b)@ == old(b)@,
        },
{
    let info: u8 = get_embedded_value(byte);
    if info > 27 {
        return Err(Error::new(ErrorKind::InvalidData));
    }
    match ExtendedSize::from_u8(byte) {
        ExtendedSize::Embedded => Ok(info as u64),
        ExtendedSize::U8 => match take_byte_array::<1>(b) {
            Ok(a) => Ok(be_to_u64(a.as_slice())),
            Err(e) => Err(e),
        },
        ExtendedSize::U16 => match take_byte_array::<2>(b) {
            Ok(a) => Ok(be_to_u64(a.as_slice())),
            Err(e) => Err(e),
        },
        ExtendedSize::U32 => match take_byte_array::<4>(b) {
            Ok(a) => Ok(be_to_u64(a.as_slice())),
            Err(e) => Err(e),
        },
        ExtendedSize::U64 => match take_byte_array::<8>(b) {
            Ok(a) => Ok(be_to_u64(a.as_slice())),
            Err(e) => Err(e),
        },
    }
}

/// Reads a head of `major_type` from `b` and gives the number it announces.
fn read_header(b: &mut Cursor, major_type: MajorType) -> (r: Result<u64, Error>)
    ensures
        match decode_header(major_type, old(b)@.remaining()) {
            Ok((v, h)) => r == Ok::<u64, Error>(v) && final(b)@ == old(b)@.advance(h),
            Err(k) => r is Err && r->Err_0.kind == k && final(b)@ == old(b)@,
        },
{
    let start: u64 = b.position();
    let byte: u8 = match take_byte(b) {
        Ok(byte) => byte,
        Err(e) => { return Err(e); },
    };
    if MajorType::from_u8(byte) != major_type {
        b.set_position(start);
        return Err(Error::new(ErrorKind::InvalidData));
    }
    assert(b@.remaining() =~= old(b)@.remaining().skip(1));
    match read_cbor_head_u64(b, byte) {
        Ok(v) => Ok(v),
        Err(e) => {
            b.set_position(start);
            Err(e)
        },
    }
}

/// Reads one unsigned integer from `b`. Takes one to nine bytes.
pub fn read_cbor_u64(b: &mut Cursor) -> (r: Result<u64, Error>)
    ensures
        read_outcome(
            MajorType::UnsignedInteger,
            old(b)@,
            final(b)@,
            match r {
                Ok(v) => Ok(Scalar::U64(v)),
                Err(e) => Err(e.kind),
            },
        ),
{
    read_header(b, MajorType::UnsignedInteger)
}

/// Reads the payload that a string head of length `len` announces; on
/// failure moves `b` back to `start`.
fn read_payload(b: &mut Cursor, len: u64, start: u64) -> (r: Result<Vec<u8>, Error>)
    ensures
        r is Ok <==> old(b)@.remaining().len() >= len,
        r is Ok ==> r->Ok_0@ == old(b)@.remaining().take(len as int) && final(b)@
            == old(b)@.advance(len as nat),
        r is Err ==> r->Err_0.kind == ErrorKind::UnexpectedEof && final(b)@ == old(b)@.at(
            start as nat,
        ),
{
    if len > b.remaining_len() as u64 {
        b.set_position(start);
        return Err(Error::new(ErrorKind::UnexpectedEof));
    }
    match take_byte_slice(b, len as usize) {
        Ok(v) => Ok(v),
        Err(e) => {
            b.set_position(start);
            Err(e)
        },
    }
}

/// Reads one byte string from `b`.
pub fn read_cbor_bytes(b: &mut Cursor) -> (r: Result<Vec<u8>, Error>)
    ensures
        read_outcome(
            MajorType::Bytes,
            old(b)@,
            final(b)@,
            match r {
                Ok(v) => Ok(Scalar::Bytes(v@)),
                Err(e) => Err(e.kind),
            },
        ),
{
    let start: u64 = b.position();
    let len: u64 = match read_header(b, MajorType::Bytes) {
        Ok(len) => len,
        Err(e) => { return Err(e); },
    };
    let ghost h = (b@.pos - old(b)@.pos) as nat;
    assert(b@.remaining() =~= old(b)@.remaining().skip(h as int));
    match read_payload(b, len, start) {
        Ok(v) => {
            assert(v@ =~= old(b)@.remaining().subrange(h as int, h + len));
            Ok(v)
        },
        Err(e) => Err(e),
    }
}

/// The text that `bytes` hold as UTF-8, if they are UTF-8.
///
/// Calls `String::from_utf8`, which succeeds exactly on valid UTF-8 and then
/// gives the string whose bytes are the ones handed in.
#[verifier::external_body]
fn string_from_utf8(bytes: Vec<u8>) -> (r: Option<String>)
    ensures
        r is Some <==> valid_utf8(bytes@),
        r is Some ==> encode_utf8(r->Some_0@) == bytes@,
{
    String::from_utf8(bytes).ok()
}

/// Reads one text string from `b`. Fails with `InvalidData` where the
/// payload is not UTF-8.
pub fn read_cbor_text(b: &mut Cursor) -> (r: Result<String, Error>)
    ensures
        read_outcome(
            MajorType::Text,
            old(b)@,
            final(b)@,
            match r {
                Ok(v) => Ok(Scalar::Text(v@)),
                Err(e) => Err(e.kind),
            },
        ),
{
    let start: u64 = b.position();
    let len: u64 = match read_header(b, MajorType::Text) {
        Ok(len) => len,
        Err(e) => { return Err(e); },
    };
    let ghost h = (b@.pos - old(b)@.pos) as nat;
    assert(b@.remaining() =~= old(b)@.remaining().skip(h as int));
    let bytes: Vec<u8> = match read_payload(b, len, start) {
        Ok(v) => v,
        Err(e) => { return Err(e); },
    };
    assert(bytes@ =~= old(b)@.remaining().subrange(h as int, h + len));
    match string_from_utf8(bytes) {
        Some(text) => {
            proof {
                vstd::utf8::encode_utf8_decode_utf8(text@);
            }
            Ok(text)
        },
        None => {
            b.set_position(start);
            Err(Error::new(ErrorKind::InvalidData))
        },
    }
}

/// The shortest head reads back as the number it was written for, whatever
/// follows it.
pub proof fn lemma_head_round_trip(major_type: MajorType, value: u64, rest: Seq<u8>)
    ensures
        decode_header(major_type, cbor_head(major_type, value) + rest) == Ok::<
            (u64, nat),
            ErrorKind,
        >((value, cbor_head(major_type, value).len())),
        cbor_head(major_type, value).len() == 1 + num_bytes_for(value),
{
    let n = num_bytes_for(value);
    let head = cbor_head(major_type, value);
    let bytes = head + rest;
    lemma_be_bytes_len(value as nat, n);
    let initial = bytes[0];
    assert(initial == head[0]);
    assert(initial as nat == major_type.number() * 32 + embedded_value_for(value));
    assert(initial as nat / 32 == major_type.number());
    assert(initial as nat % 32 == embedded_value_for(value));
    assert(MajorType::of_number(major_type.number()) == major_type);
    assert(head_extra(initial) == n);
    if value > 23 {
        assert(bytes.skip(1).take(n as int) =~= be_bytes(value as nat, n));
        lemma_be_value_of_be_bytes(value as nat, n);
        lemma_pow256_of_8();
        assert(value < pow256(n)) by {
            if n == 1 {
            } else if n == 2 {
            } else if n == 4 {
            } else {
            }
        }
        vstd::arithmetic::div_mod::lemma_small_mod(value as nat, pow256(n));
    }
}

/// Reading gives back what was written: the encoding of a value, followed
/// by any bytes at all, decodes under the value's major type to that same
/// value and to the length of the encoding.
pub proof fn lemma_round_trip(s: Scalar, rest: Seq<u8>)
    requires
        s.fits(),
    ensures
        decode(s.major_type(), s.encoding() + rest) == Ok::<(Scalar, nat), ErrorKind>(
            (s, s.encoding().len()),
        ),
        s.encoding().len() >= 1,
{
    let v = s.head_value() as u64;
    let head = cbor_head(s.major_type(), v);
    let bytes = s.encoding() + rest;
    assert(bytes =~= head + (s.payload() + rest));
    lemma_head_round_trip(s.major_type(), v, s.payload() + rest);
    let h = head.len();
    match s {
        Scalar::U64(_) => {
            assert(s.encoding() =~= head);
        },
        Scalar::Bytes(b) => {
            assert(bytes.subrange(h as int, h + v) =~= b);
        },
        Scalar::Text(t) => {
            assert(bytes.subrange(h as int, h + v) =~= encode_utf8(t));
            vstd::utf8::encode_utf8_valid_utf8(t);
            vstd::utf8::encode_utf8_decode_utf8(t);
        },
    }
}

/// Two values with the same encoding are the same value.
pub proof fn lemma_encoding_injective(a: Scalar, b: Scalar)
    requires
        a.fits(),
        b.fits(),
        a.encoding() == b.encoding(),
    ensures
        a == b,
{
    lemma_round_trip(a, Seq::empty());
    lemma_round_trip(b, Seq::empty());
    lemma_head_round_trip(a.major_type(), a.head_value() as u64, a.payload());
    lemma_head_round_trip(b.major_type(), b.head_value() as u64, b.payload());
    let ea = a.encoding() + Seq::<u8>::empty();
    assert(ea =~= cbor_head(a.major_type(), a.head_value() as u64) + a.payload());
    assert(ea =~= cbor_head(b.major_type(), b.head_value() as u64) + b.payload());
    assert(a.major_type() == b.major_type());
}

/// A value that can be written as one CBOR data item.
pub trait CborWrite {
    /// The value that this stands for.
    spec fn scalar(&self) -> Scalar;

    /// Appends the encoding of the value to `writer`.
    fn cbor_write(&self, writer: &mut Vec<u8>)
        ensures
            self.scalar().fits(),
            final(writer)@ == old(writer)@ + self.scalar().encoding(),
    ;
}

impl<const N: usize> CborWrite for &[u8; N] {
    open spec fn scalar(&self) -> Scalar {
        Scalar::Bytes(self@)
    }

    fn cbor_write(&self, writer: &mut Vec<u8>) {
        write_cbor_bytes(writer, self.as_slice())
    }
}

impl CborWrite for &[u8] {
    open spec fn scalar(&self) -> Scalar {
        Scalar::Bytes(self@)
    }

    fn cbor_write(&self, writer: &mut Vec<u8>) {
        write_cbor_bytes(writer, self)
    }
}

impl CborWrite for Vec<u8> {
    open spec fn scalar(&self) -> Scalar {
        Scalar::Bytes(self@)
    }

    fn cbor_write(&self, writer: &mut Vec<u8>) {
        write_cbor_bytes(writer, self.as_slice())
    }
}

impl CborWrite for &str {
    open spec fn scalar(&self) -> Scalar {
        Scalar::Text(self@)
    }

    fn cbor_write(&self, writer: &mut Vec<u8>) {
        write_cbor_text(writer, self)
    }
}

impl CborWrite for String {
    open spec fn scalar(&self) -> Scalar {
        Scalar::Text(self@)
    }

    fn cbor_write(&self, writer: &mut Vec<u8>) {
        write_cbor_text(writer, self.as_str())
    }
}

impl CborWrite for u64 {
    open spec fn scalar(&self) -> Scalar {
        Scalar::U64(*self)
    }

    fn cbor_write(&self, writer: &mut Vec<u8>) {
        write_cbor_unsigned_integer(writer, *self)
    }
}

/// What a read gave, as a specification sees it: the value that was read,
/// or the kind of the error.
pub open spec fn read_result<R: CborWrite>(r: Result<R, Error>) -> Result<Scalar, ErrorKind> {
    match r {
        Ok(v) => Ok(v.scalar()),
        Err(e) => Err(e.kind),
    }
}

/// A kind of value that a table holds and hands out again: it can be
/// written, and read back from a cursor.
pub trait CborItem: CborWrite + Sized {
    /// The major type of every value of the kind.
    spec fn kind() -> MajorType;

    /// Every value of the kind is encoded under the kind's major type.
    proof fn lemma_kind(&self)
        ensures
            self.scalar().major_type() == Self::kind(),
    ;

    /// Reads one value of the kind from `b`.
    fn read_from(b: &mut Cursor) -> (r: Result<Self, Error>)
        ensures
            read_outcome(Self::kind(), old(b)@, final(b)@, read_result::<Self>(r)),
    ;
}

impl CborItem for u64 {
    open spec fn kind() -> MajorType {
        MajorType::UnsignedInteger
    }

    proof fn lemma_kind(&self) {
    }

    fn read_from(b: &mut Cursor) -> (r: Result<Self, Error>) {
        read_cbor_u64(b)
    }
}

impl CborItem for Vec<u8> {
    open spec fn kind() -> MajorType {
        MajorType::Bytes
    }

    proof fn lemma_kind(&self) {
    }

    fn read_from(b: &mut Cursor) -> (r: Result<Self, Error>) {
        read_cbor_bytes(b)
    }
}

impl CborItem for String {
    open spec fn kind() -> MajorType {
        MajorType::Text
    }

    proof fn lemma_kind(&self) {
    }

    fn read_from(b: &mut Cursor) -> (r: Result<Self, Error>) {
        read_cbor_text(b)
    }
}

/// A source from which values of kind `R` can be read.
pub trait CborRead<R> {
    /// Reads one value from the source.
    fn cbor_read(&mut self) -> Result<R, Error>;
}

impl<R: CborItem> CborRead<R> for Cursor {
    fn cbor_read(&mut self) -> (r: Result<R, Error>)
        ensures
            read_outcome(R::kind(), old(self)@, final(self)@, read_result::<R>(r)),
    {
        R::read_from(self)
    }
}

/// A value that decodes takes at least one byte and no more bytes than
/// there are.
pub proof fn lemma_decode_len(major_type: MajorType, bytes: Seq<u8>)
    requires
        decode(major_type, bytes) is Ok,
    ensures
        1 <= decode(major_type, bytes)->Ok_0.1 <= bytes.len(),
        decode(major_type, bytes)->Ok_0.0.major_type() == major_type,
{
}

} // verus!
