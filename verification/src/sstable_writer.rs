//! Writing a table: the bytes for its data file and for its index file.
//!
//! A record is appended to the data as the encoding of its key followed by
//! the encoding of its value. For each record the index gets an entry: the
//! encoding of the key followed by the encoded offset at which the record
//! starts in the data file.
//!
//! The writer collects the bytes; putting them into files is left to the
//! caller, who takes them out with [`SSTableWriter::flush`] or
//! [`SSTableWriter::into_files`].

use crate::cbor::{CborWrite, Scalar};
use crate::error::{Error, ErrorKind};
use crate::read::create_index_path;
use vstd::prelude::*;
use vstd::string::StringExecFns;

verus! {

/// The buffer size that a builder proposes where none is set: 8 KiB.
pub const DEFAULT_BUFFER_SIZE: usize = 8192;

/// The bytes of one record: the encoding of the key, then that of the
/// value.
pub open spec fn record_bytes(r: (Scalar, Scalar)) -> Seq<u8> {
    r.0.encoding() + r.1.encoding()
}

/// The bytes of a data file that holds `records` in their order.
pub open spec fn data_bytes(records: Seq<(Scalar, Scalar)>) -> Seq<u8>
    decreases records.len(),
{
    if records.len() == 0 {
        Seq::empty()
    } else {
        data_bytes(records.drop_last()) + record_bytes(records.last())
    }
}

/// The bytes of one index entry: the encoding of the key, then the encoded
/// offset.
pub open spec fn entry_bytes(key: Scalar, offset: nat) -> Seq<u8> {
    key.encoding() + Scalar::U64(offset as u64).encoding()
}

/// The bytes of the index file that goes with a data file holding
/// `records` from byte `start` on: for each record its key and the offset
/// at which the record starts.
pub open spec fn index_bytes(records: Seq<(Scalar, Scalar)>, start: nat) -> Seq<u8>
    decreases records.len(),
{
    if records.len() == 0 {
        Seq::empty()
    } else {
        index_bytes(records.drop_last(), start) + entry_bytes(
            records.last().0,
            start + data_bytes(records.drop_last()).len(),
        )
    }
}

/// What a writer is to a specification.
pub struct WriterView {
    /// The path of the data file.
    pub data_path: Seq<char>,
    /// The path of the index file.
    pub index_path: Seq<char>,
    /// The buffer size proposed for the two files.
    pub buffer_size: usize,
    /// The offset in the data file at which the collected data will stand.
    pub data_start: nat,
    /// The bytes collected for the data file.
    pub data: Seq<u8>,
    /// The bytes collected for the index file.
    pub index: Seq<u8>,
}

impl WriterView {
    /// Whether the collected bytes are those of `records`, written in
    /// their order, and of nothing else.
    pub open spec fn holds(self, records: Seq<(Scalar, Scalar)>) -> bool {
        &&& self.data == data_bytes(records)
        &&& self.index == index_bytes(records, self.data_start)
    }

    /// The offset in the data file at which the next record will start.
    pub open spec fn next_offset(self) -> nat {
        self.data_start + self.data.len()
    }

    /// The writer after a record of `key` and `value` was written: the
    /// record behind the data, and its entry behind the index.
    pub open spec fn with_record(self, key: Scalar, value: Scalar) -> WriterView {
        WriterView {
            data: self.data + record_bytes((key, value)),
            index: self.index + entry_bytes(key, self.next_offset()),
            ..self
        }
    }
}

/// Collects the bytes of a table's data file and index file as records are
/// written.
#[derive(Debug)]
pub struct SSTableWriter {
    data_writer_path: String,
    index_writer_path: String,
    buffer_size: usize,
    data_start: u64,
    data: Vec<u8>,
    index: Vec<u8>,
}

impl View for SSTableWriter {
    type V = WriterView;

    closed spec fn view(&self) -> WriterView {
        WriterView {
            data_path: self.data_writer_path@,
            index_path: self.index_writer_path@,
            buffer_size: self.buffer_size,
            data_start: self.data_start as nat,
            data: self.data@,
            index: self.index@,
        }
    }
}

impl SSTableWriter {
    /// Appends the record `entry`, a key and a value, to the data, and its
    /// entry to the index. The offset in the entry is the place in the
    /// data file at which the record starts.
    ///
    /// Fails with `InvalidInput`, and changes nothing, exactly when the
    /// data file would grow beyond what an offset can hold.
    pub fn write<K: CborWrite, V: CborWrite>(&mut self, entry: (K, V)) -> (r: Result<(), Error>)
        ensures
            r is Ok <==> old(self)@.next_offset() + record_bytes(
                (entry.0.scalar(), entry.1.scalar()),
            ).len() <= u64::MAX,
            r is Ok ==> final(self)@ == old(self)@.with_record(entry.0.scalar(), entry.1.scalar()),
            r is Ok ==> forall|records: Seq<(Scalar, Scalar)>| #[trigger]
                old(self)@.holds(records) ==> final(self)@.holds(
                    records.push((entry.0.scalar(), entry.1.scalar())),
                ),
            r is Ok ==> entry.0.scalar().fits() && entry.1.scalar().fits(),
            r is Err ==> r->Err_0.kind == ErrorKind::InvalidInput && final(self)@ == old(self)@,
    {
        let mut record: Vec<u8> = Vec::new();
        entry.0.cbor_write(&mut record);
        let key_len: usize = record.len();
        entry.1.cbor_write(&mut record);
        let ghost key_bytes = entry.0.scalar().encoding();
        let ghost pair = (entry.0.scalar(), entry.1.scalar());
        assert(record@ =~= record_bytes(pair));
        assert(record@.take(key_len as int) =~= key_bytes);
        let end: Option<u64> = match self.data_start.checked_add(self.data.len() as u64) {
            Some(offset) => offset.checked_add(record.len() as u64),
            None => None,
        };
        if end.is_none() {
            return Err(Error::new(ErrorKind::InvalidInput));
        }
        let offset: u64 = self.data_start + self.data.len() as u64;
        let mut i: usize = 0;
        while i < record.len()
            invariant
                i <= record@.len(),
                key_len <= record@.len(),
                self.data@ == old(self).data@ + record@.take(i as int),
                self.index@ == old(self).index@ + record@.take(
                    if i <= key_len {
                        i as int
                    } else {
                        key_len as int
                    },
                ),
                self.data_start == old(self).data_start,
                self.buffer_size == old(self).buffer_size,
                self.data_writer_path == old(self).data_writer_path,
                self.index_writer_path == old(self).index_writer_path,
            decreases record@.len() - i,
        {
            self.data.push(record[i]);
            if i < key_len {
                self.index.push(record[i]);
            }
            assert(record@.take(i + 1) =~= record@.take(i as int).push(record@[i as int]));
            i += 1;
        }
        assert(record@.take(i as int) =~= record@);
        offset.cbor_write(&mut self.index);
        proof {
            assert(self.index@ =~= old(self).index@ + entry_bytes(
                entry.0.scalar(),
                old(self)@.next_offset(),
            ));
            assert forall|records: Seq<(Scalar, Scalar)>| #[trigger]
                old(self)@.holds(records) implies self@.holds(records.push(pair)) by {
                assert(records.push(pair).drop_last() =~= records);
            }
        }
        Ok(())
    }

    /// Hands out the bytes collected for the data file and for the index
    /// file, in that order, and starts collecting anew behind them.
    ///
    /// Fails with `InvalidInput`, and changes nothing, exactly when the
    /// data would end beyond what an offset can hold.
    pub fn flush(&mut self) -> (r: Result<(Vec<u8>, Vec<u8>), Error>)
        ensures
            r is Ok <==> old(self)@.next_offset() <= u64::MAX,
            r is Ok ==> r->Ok_0.0@ == old(self)@.data && r->Ok_0.1@ == old(self)@.index,
            r is Ok ==> final(self)@ == (WriterView {
                data_start: old(self)@.next_offset(),
                data: Seq::empty(),
                index: Seq::empty(),
                ..old(self)@
            }),
            r is Err ==> r->Err_0.kind == ErrorKind::InvalidInput && final(self)@ == old(self)@,
    {
        let next: u64 = match self.data_start.checked_add(self.data.len() as u64) {
            Some(next) => next,
            None => { return Err(Error::new(ErrorKind::InvalidInput)); },
        };
        let mut data: Vec<u8> = Vec::new();
        let mut index: Vec<u8> = Vec::new();
        core::mem::swap(&mut self.data, &mut data);
        core::mem::swap(&mut self.index, &mut index);
        self.data_start = next;
        Ok((data, index))
    }

    /// Gives up the writer for the two files it stands for: the path of
    /// the data file with the bytes collected for it, then the path of the
    /// index file with the bytes collected for it.
    pub fn into_files(self) -> (r: Vec<(String, Vec<u8>)>)
        ensures
            r@.len() == 2,
            r@[0].0@ == self@.data_path,
            r@[0].1@ == self@.data,
            r@[1].0@ == self@.index_path,
            r@[1].1@ == self@.index,
    {
        let mut files: Vec<(String, Vec<u8>)> = Vec::new();
        files.push((self.data_writer_path, self.data));
        files.push((self.index_writer_path, self.index));
        files
    }

    /// The path of the data file.
    pub fn data_writer_path(&self) -> (p: &String)
        ensures
            p@ == self@.data_path,
    {
        &self.data_writer_path
    }

    /// The path of the index file.
    pub fn index_writer_path(&self) -> (p: &String)
        ensures
            p@ == self@.index_path,
    {
        &self.index_writer_path
    }

    /// The offset in the data file at which the collected data will stand.
    pub fn data_start(&self) -> (n: u64)
        ensures
            n == self@.data_start,
    {
        self.data_start
    }

    /// The buffer size proposed for the two files.
    pub fn buffer_size(&self) -> (n: usize)
        ensures
            n == self@.buffer_size,
    {
        self.buffer_size
    }

    /// The bytes collected for the data file.
    pub fn data(&self) -> (d: &Vec<u8>)
        ensures
            d@ == self@.data,
    {
        &self.data
    }

    /// The bytes collected for the index file.
    pub fn index(&self) -> (d: &Vec<u8>)
        ensures
            d@ == self@.index,
    {
        &self.index
    }
}

/// Builds an [`SSTableWriter`] from the path of the data file and, where
/// they are set, the path of the index file, a buffer size and the offset
/// at which writing starts.
#[derive(Debug)]
pub struct SSTableWriterBuilder {
    data_writer_path: String,
    index_writer_path: Option<String>,
    buffer_size: usize,
    data_start: u64,
}

/// What a builder is to a specification.
pub struct BuilderView {
    pub data_path: Seq<char>,
    pub index_path: Option<Seq<char>>,
    pub buffer_size: usize,
    pub data_start: nat,
}

impl View for SSTableWriterBuilder {
    type V = BuilderView;

    closed spec fn view(&self) -> BuilderView {
        BuilderView {
            data_path: self.data_writer_path@,
            index_path: match self.index_writer_path {
                Some(p) => Some(p@),
                None => None,
            },
            buffer_size: self.buffer_size,
            data_start: self.data_start as nat,
        }
    }
}

impl SSTableWriterBuilder {
    /// A builder for the table at `data_writer_path`, with the index path
    /// yet to be derived, the default buffer size, and writing from the
    /// start of the data file.
    pub fn new(data_writer_path: &str) -> (b: Self)
        ensures
            b@ == (BuilderView {
                data_path: data_writer_path@,
                index_path: None,
                buffer_size: DEFAULT_BUFFER_SIZE,
                data_start: 0,
            }),
    {
        SSTableWriterBuilder {
            data_writer_path: String::from_str(data_writer_path),
            index_writer_path: None,
            buffer_size: DEFAULT_BUFFER_SIZE,
            data_start: 0,
        }
    }

    /// Sets the path of the index file, in place of the one derived from
    /// the path of the data file.
    pub fn index_writer_path(self, path: &str) -> (b: Self)
        ensures
            b@ == (BuilderView { index_path: Some(path@), ..self@ }),
    {
        let mut b = self;
        b.index_writer_path = Some(String::from_str(path));
        b
    }

    /// Sets the buffer size proposed for the two files.
    pub fn buffer_size(self, size: usize) -> (b: Self)
        ensures
            b@ == (BuilderView { buffer_size: size, ..self@ }),
    {
        let mut b = self;
        b.buffer_size = size;
        b
    }

    /// Sets the offset in the data file at which writing starts: the
    /// length of the data file where it exists already.
    pub fn data_start(self, offset: u64) -> (b: Self)
        ensures
            b@ == (BuilderView { data_start: offset as nat, ..self@ }),
    {
        let mut b = self;
        b.data_start = offset;
        b
    }

    /// The writer that was asked for, with nothing collected yet. Where no
    /// index path was set, it is derived from the path of the data file.
    pub fn build(self) -> (w: SSTableWriter)
        ensures
            w@ == (WriterView {
                data_path: self@.data_path,
                index_path: match self@.index_path {
                    Some(p) => p,
                    None => crate::read::index_path_of(self@.data_path),
                },
                buffer_size: self@.buffer_size,
                data_start: self@.data_start,
                data: Seq::empty(),
                index: Seq::empty(),
            }),
            w@.holds(Seq::empty()),
    {
        let index_writer_path: String = match self.index_writer_path {
            Some(p) => p,
            None => create_index_path(self.data_writer_path.as_str()),
        };
        SSTableWriter {
            data_writer_path: self.data_writer_path,
            index_writer_path,
            buffer_size: self.buffer_size,
            data_start: self.data_start,
            data: Vec::new(),
            index: Vec::new(),
        }
    }
}

} // verus!
