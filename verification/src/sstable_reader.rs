//! Reading a table: its records from the bytes of the data file, and its
//! index from the bytes of the index file.
//!
//! A data file is a run of records, each the encoding of a key followed by
//! the encoding of a value. An index file is a run of entries, each the
//! encoding of a key followed by the encoded offset at which that key's
//! record starts in the data file.

use crate::cbor::{decode, lemma_decode_len, read_result, CborItem, CborWrite, Scalar};
use crate::cbor_types::MajorType;
use crate::error::{Error, ErrorKind};
use crate::read::{Cursor, CursorView, SeekFrom};
use core::marker::PhantomData;
use vstd::prelude::*;

verus! {

/// The two values at the start of `bytes`, the first of kind `first` and
/// the second of kind `second`, and the number of bytes they take together.
#[verifier::opaque]
pub open spec fn decode_pair(first: MajorType, second: MajorType, bytes: Seq<u8>) -> Result<
    (Scalar, Scalar, nat),
    ErrorKind,
> {
    match decode(first, bytes) {
        Err(k) => Err(k),
        Ok((a, n)) => match decode(second, bytes.skip(n as int)) {
            Err(k) => Err(k),
            Ok((b, m)) => Ok((a, b, n + m)),
        },
    }
}

/// The records that `bytes` hold from start to end, with keys of kind
/// `key` and values of kind `value`; the error of the first record that
/// does not decode, if there is one.
pub open spec fn decode_records(key: MajorType, value: MajorType, bytes: Seq<u8>) -> Result<
    Seq<(Scalar, Scalar)>,
    ErrorKind,
>
    decreases bytes.len(),
{
    if bytes.len() == 0 {
        Ok(Seq::empty())
    } else {
        match decode_pair(key, value, bytes) {
            Err(k) => Err(k),
            Ok((a, b, n)) => if 0 < n <= bytes.len() {
                match decode_records(key, value, bytes.skip(n as int)) {
                    Err(k) => Err(k),
                    Ok(rest) => Ok(seq![(a, b)] + rest),
                }
            } else {
                Err(ErrorKind::InvalidData)
            },
        }
    }
}

/// The offset that an index entry holds.
pub open spec fn offset_of(s: Scalar) -> u64 {
    match s {
        Scalar::U64(v) => v,
        _ => 0,
    }
}

/// The entries that `bytes` hold from start to end, with keys of kind
/// `key`; the error of the first entry that does not decode, if there is
/// one.
pub open spec fn decode_index(key: MajorType, bytes: Seq<u8>) -> Result<Seq<(Scalar, u64)>, ErrorKind>
    decreases bytes.len(),
{
    if bytes.len() == 0 {
        Ok(Seq::empty())
    } else {
        match decode_pair(key, MajorType::UnsignedInteger, bytes) {
            Err(k) => Err(k),
            Ok((a, b, n)) => if 0 < n <= bytes.len() {
                match decode_index(key, bytes.skip(n as int)) {
                    Err(k) => Err(k),
                    Ok(rest) => Ok(seq![(a, offset_of(b))] + rest),
                }
            } else {
                Err(ErrorKind::InvalidData)
            },
        }
    }
}

/// What was decoded so far, followed by what the rest decodes to.
pub open spec fn after<A>(done: Seq<A>, rest: Result<Seq<A>, ErrorKind>) -> Result<Seq<A>, ErrorKind> {
    match rest {
        Ok(more) => Ok(done + more),
        Err(k) => Err(k),
    }
}

/// Two values that decode one after the other take at least two bytes and
/// no more bytes than there are.
pub proof fn lemma_decode_pair_len(first: MajorType, second: MajorType, bytes: Seq<u8>)
    requires
        decode_pair(first, second, bytes) is Ok,
    ensures
        2 <= decode_pair(first, second, bytes)->Ok_0.2 <= bytes.len(),
{
    reveal(decode_pair);
    lemma_decode_len(first, bytes);
    let n = decode(first, bytes)->Ok_0.1;
    lemma_decode_len(second, bytes.skip(n as int));
}

/// The entries of an index as a specification sees them: each key as the
/// value it stands for, with its offset.
pub open spec fn index_entries<K: CborWrite>(s: Seq<(K, u64)>) -> Seq<(Scalar, u64)> {
    s.map_values(|e: (K, u64)| (e.0.scalar(), e.1))
}

/// Reads two values from `b`, one after the other; leaves `b` as it was
/// when either fails.
pub fn read_pair<A: CborItem, B: CborItem>(b: &mut Cursor) -> (r: Result<(A, B), Error>)
    ensures
        match decode_pair(A::kind(), B::kind(), old(b)@.remaining()) {
            Ok((x, y, n)) => r is Ok && r->Ok_0.0.scalar() == x && r->Ok_0.1.scalar() == y
                && final(b)@ == old(b)@.advance(n),
            Err(k) => r is Err && r->Err_0.kind == k && final(b)@ == old(b)@,
        },
{
    proof {
        reveal(decode_pair);
    }
    let start: u64 = b.position();
    let first: A = match A::read_from(b) {
        Ok(first) => first,
        Err(e) => { return Err(e); },
    };
    proof {
        lemma_decode_len(A::kind(), old(b)@.remaining());
        let n = decode(A::kind(), old(b)@.remaining())->Ok_0.1;
        assert(b@.remaining() =~= old(b)@.remaining().skip(n as int));
    }
    match B::read_from(b) {
        Ok(second) => Ok((first, second)),
        Err(e) => {
            b.set_position(start);
            Err(e)
        },
    }
}

/// The index of a table, held in memory: its entries in the order in which
/// the index file holds them. Nothing is assumed of that order.
#[derive(Debug)]
pub struct SSTableIndex<K> {
    pub indices: Vec<(K, u64)>,
}

impl<K: CborItem> SSTableIndex<K> {
    /// Loads an index from the bytes of an index file.
    ///
    /// Succeeds exactly when the bytes are a run of entries from start to
    /// end, and then holds those entries in their order; no bytes give an
    /// empty index. Otherwise fails with the error of the first entry that
    /// does not decode.
    pub fn from_bytes(buffer: Vec<u8>) -> (r: Result<Self, Error>)
        ensures
            match decode_index(K::kind(), buffer@) {
                Ok(entries) => r is Ok && index_entries(r->Ok_0.indices@) == entries,
                Err(k) => r is Err && r->Err_0.kind == k,
            },
    {
        let ghost all = buffer@;
        let mut cursor: Cursor = Cursor::new(buffer);
        let mut indices: Vec<(K, u64)> = Vec::new();
        assert(cursor@.remaining() =~= all);
        assert(index_entries(indices@) =~= Seq::<(Scalar, u64)>::empty());
        assert(decode_index(K::kind(), all) is Ok ==> index_entries(indices@) + decode_index(
            K::kind(),
            all,
        )->Ok_0 =~= decode_index(K::kind(), all)->Ok_0);
        while cursor.remaining_len() > 0
            invariant
                all == buffer@,
                cursor@.bytes == all,
                cursor@.pos <= all.len(),
                decode_index(K::kind(), all) == after(
                    index_entries(indices@),
                    decode_index(K::kind(), cursor@.remaining()),
                ),
            decreases all.len() - cursor@.pos,
        {
            let ghost before = cursor@;
            let ghost done = index_entries(indices@);
            match read_pair::<K, u64>(&mut cursor) {
                Ok(entry) => {
                    proof {
                        let bytes = before.remaining();
                        lemma_decode_pair_len(K::kind(), MajorType::UnsignedInteger, bytes);
                        let n = decode_pair(K::kind(), MajorType::UnsignedInteger, bytes)->Ok_0.2;
                        assert(cursor@.remaining() =~= bytes.skip(n as int));
                        assert(index_entries(indices@.push(entry)) =~= done.push(
                            (entry.0.scalar(), entry.1),
                        ));
                        let rest = decode_index(K::kind(), bytes.skip(n as int));
                        if rest is Ok {
                            assert(done + (seq![(entry.0.scalar(), entry.1)] + rest->Ok_0) =~= done.push(
                                (entry.0.scalar(), entry.1),
                            ) + rest->Ok_0);
                        }
                    }
                    indices.push(entry);
                },
                Err(e) => {
                    assert(before.remaining().len() > 0);
                    assert(decode_index(K::kind(), before.remaining()) is Err);
                    assert(decode_index(K::kind(), before.remaining())->Err_0 == e.kind);
                    return Err(e);
                },
            }
        }
        assert(index_entries(indices@) + Seq::<(Scalar, u64)>::empty() =~= index_entries(indices@));
        Ok(SSTableIndex { indices })
    }
}

/// A reader over the bytes of a data file. `T` says what it reads: pairs
/// of a key and a value, or single values.
#[derive(Debug)]
pub struct SSTableReader<T> {
    pub data_reader: Cursor,
    phantom: PhantomData<T>,
}

impl<T> View for SSTableReader<T> {
    type V = CursorView;

    closed spec fn view(&self) -> CursorView {
        self.data_reader@
    }
}

impl<T> SSTableReader<T> {
    /// A reader at the start of `data`.
    pub fn from_bytes(data: Vec<u8>) -> (r: Self)
        ensures
            r@.bytes == data@,
            r@.pos == 0,
    {
        SSTableReader { data_reader: Cursor::new(data), phantom: PhantomData }
    }

    /// Moves the reader; see [`Cursor::seek`]. What is read next is read at
    /// the new position, whether or not a record starts there.
    pub fn seek(&mut self, pos: SeekFrom) -> (r: Result<u64, Error>)
        ensures
            r is Ok <==> 0 <= old(self)@.seek_target(pos) <= u64::MAX,
            r is Ok ==> r->Ok_0 == old(self)@.seek_target(pos) && final(self)@ == old(self)@.at(
                r->Ok_0 as nat,
            ),
            r is Err ==> r->Err_0.kind == ErrorKind::InvalidInput && final(self)@ == old(self)@,
    {
        self.data_reader.seek(pos)
    }

    /// The position at which the next read starts.
    pub fn stream_position(&self) -> (p: u64)
        ensures
            p == self@.pos,
    {
        self.data_reader.position()
    }
}

/// What the next read of a record gives, as a specification sees it: the
/// key and the value, or the kind of the error, or nothing at the end.
pub open spec fn next_result<K: CborWrite, V: CborWrite>(r: Option<Result<(K, V), Error>>) -> Option<
    Result<(Scalar, Scalar), ErrorKind>,
> {
    match r {
        None => None,
        Some(Ok(kv)) => Some(Ok((kv.0.scalar(), kv.1.scalar()))),
        Some(Err(e)) => Some(Err(e.kind)),
    }
}

/// What reading a record at the position of `before` does: nothing where no
/// byte is left; else the record that starts there, with the position moved
/// past it; else the error, with the position left where it was.
pub open spec fn next_outcome(
    key: MajorType,
    value: MajorType,
    before: CursorView,
    after: CursorView,
    r: Option<Result<(Scalar, Scalar), ErrorKind>>,
) -> bool {
    if before.remaining().len() == 0 {
        r is None && after == before
    } else {
        match decode_pair(key, value, before.remaining()) {
            Ok((k, v, n)) => r == Some(Ok::<(Scalar, Scalar), ErrorKind>((k, v))) && after
                == before.advance(n),
            Err(e) => r == Some(Err::<(Scalar, Scalar), ErrorKind>(e)) && after == before,
        }
    }
}

impl<K: CborItem, V: CborItem> SSTableReader<(K, V)> {
    /// Reads the record at the position and moves past it.
    ///
    /// Gives `None` where no byte is left. A record that breaks off or does
    /// not decode gives its error, and the reader stays where it was.
    pub fn next(&mut self) -> (r: Option<Result<(K, V), Error>>)
        ensures
            next_outcome(K::kind(), V::kind(), old(self)@, final(self)@, next_result(r)),
    {
        if self.data_reader.remaining_len() == 0 {
            return None;
        }
        Some(read_pair::<K, V>(&mut self.data_reader))
    }
}

impl SSTableReader<Vec<u8>> {
    /// Reads the byte string at the position and moves past it; `None`
    /// where no byte is left.
    pub fn next(&mut self) -> (r: Option<Result<Vec<u8>, Error>>)
        ensures
            old(self)@.remaining().len() == 0 ==> r is None && final(self)@ == old(self)@,
            old(self)@.remaining().len() > 0 ==> r is Some && crate::cbor::read_outcome(
                MajorType::Bytes,
                old(self)@,
                final(self)@,
                read_result(r->Some_0),
            ),
    {
        if self.data_reader.remaining_len() == 0 {
            return None;
        }
        Some(crate::cbor::read_cbor_bytes(&mut self.data_reader))
    }
}

impl SSTableReader<String> {
    /// Reads the text at the position and moves past it; `None` where no
    /// byte is left.
    pub fn next(&mut self) -> (r: Option<Result<String, Error>>)
        ensures
            old(self)@.remaining().len() == 0 ==> r is None && final(self)@ == old(self)@,
            old(self)@.remaining().len() > 0 ==> r is Some && crate::cbor::read_outcome(
                MajorType::Text,
                old(self)@,
                final(self)@,
                read_result(r->Some_0),
            ),
    {
        if self.data_reader.remaining_len() == 0 {
            return None;
        }
        Some(crate::cbor::read_cbor_text(&mut self.data_reader))
    }
}

} // verus!
