//! The sinks that a merge writes to: a new table, or key/value text for
//! the standard output or for a buffer.
//!
//! A text sink gets one line for each record: the key, a tab, the value,
//! and a line feed. Text is written as it is, an integer in decimal, and
//! bytes as a list of hexadecimal numbers.

use crate::cbor::Scalar;
use crate::error::{Error, ErrorKind};
use crate::sstable_writer::{record_bytes, SSTableWriter, SSTableWriterBuilder, WriterView};
use crate::text::{text_of, ToText};
use vstd::prelude::*;
use vstd::utf8::encode_utf8;

verus! {

/// Where the output is to go.
#[derive(Debug)]
pub enum OutputDestination {
    /// Into the table whose data file is at this path.
    File(String),
    /// To the standard output, as text.
    Stdout,
    /// Into this buffer, as text behind what it holds.
    Cursor(Vec<u8>),
}

/// Builds an [`OutputWriter`] for a destination.
#[derive(Debug)]
pub struct OutputWriterBuilder {
    destination: OutputDestination,
}

/// A sink for records.
#[derive(Debug)]
pub enum OutputWriter {
    /// Collects the records for a table.
    SSTable(SSTableWriter),
    /// Collects text for the standard output; putting it there is left to
    /// the caller.
    Stdout(Vec<u8>),
    /// Collects text in a buffer.
    Cursor(Vec<u8>),
}

/// What a sink is to a specification.
pub enum OutputView {
    SSTable(WriterView),
    Stdout(Seq<u8>),
    Cursor(Seq<u8>),
}

/// The line that a text sink gets for a record: the key, a tab, the value,
/// a line feed.
pub open spec fn text_line(key: Scalar, value: Scalar) -> Seq<char> {
    text_of(key) + "\t"@ + text_of(value) + "\n"@
}

impl OutputView {
    /// Whether the sink can take the record: a table can as long as its
    /// data file stays within what an offset can hold; text always can.
    pub open spec fn can_emit(self, key: Scalar, value: Scalar) -> bool {
        match self {
            OutputView::SSTable(w) => w.next_offset() + record_bytes((key, value)).len() <= u64::MAX,
            _ => true,
        }
    }

    /// The sink after it took the record.
    pub open spec fn after_emit(self, key: Scalar, value: Scalar) -> OutputView {
        match self {
            OutputView::SSTable(w) => OutputView::SSTable(w.with_record(key, value)),
            OutputView::Stdout(b) => OutputView::Stdout(b + encode_utf8(text_line(key, value))),
            OutputView::Cursor(b) => OutputView::Cursor(b + encode_utf8(text_line(key, value))),
        }
    }
}

impl View for OutputWriter {
    type V = OutputView;

    open spec fn view(&self) -> OutputView {
        match self {
            OutputWriter::SSTable(w) => OutputView::SSTable(w@),
            OutputWriter::Stdout(b) => OutputView::Stdout(b@),
            OutputWriter::Cursor(b) => OutputView::Cursor(b@),
        }
    }
}

impl OutputWriterBuilder {
    /// The destination that the builder was made for.
    pub closed spec fn destination(self) -> OutputDestination {
        self.destination
    }

    /// A builder for a sink at `destination`.
    pub fn new(destination: OutputDestination) -> (b: Self)
        ensures
            b.destination() == destination,
    {
        OutputWriterBuilder { destination }
    }

    /// The sink that was asked for: a new table with nothing written yet,
    /// or a text sink, empty for the standard output and holding what the
    /// buffer held for a buffer.
    pub fn build(self) -> (w: OutputWriter)
        ensures
            match self.destination() {
                OutputDestination::File(path) => w is SSTable && w->SSTable_0@ == (WriterView {
                    data_path: path@,
                    index_path: crate::read::index_path_of(path@),
                    buffer_size: crate::sstable_writer::DEFAULT_BUFFER_SIZE,
                    data_start: 0,
                    data: Seq::empty(),
                    index: Seq::empty(),
                }),
                OutputDestination::Stdout => w@ == OutputView::Stdout(Seq::empty()),
                OutputDestination::Cursor(buffer) => w@ == OutputView::Cursor(buffer@),
            },
    {
        match self.destination {
            OutputDestination::File(path) => OutputWriter::SSTable(
                SSTableWriterBuilder::new(path.as_str()).build(),
            ),
            OutputDestination::Stdout => OutputWriter::Stdout(Vec::new()),
            OutputDestination::Cursor(buffer) => OutputWriter::Cursor(buffer),
        }
    }
}

impl OutputWriter {
    /// The buffer of a sink that writes to a buffer; nothing for the
    /// others.
    pub fn into_cursor(self) -> (r: Option<Vec<u8>>)
        ensures
            match self {
                OutputWriter::Cursor(buffer) => r == Some(buffer),
                _ => r is None,
            },
    {
        match self {
            OutputWriter::SSTable(_) => None,
            OutputWriter::Stdout(_) => None,
            OutputWriter::Cursor(buffer) => Some(buffer),
        }
    }
}

/// Something that takes what a merge gives out.
pub trait Emit<T> {
    /// Takes `target`.
    fn emit(&mut self, target: T) -> Result<(), Error>;
}

/// Something that takes records of text.
pub trait KeyValueWriter {
    /// Takes the record of `key` and `value`.
    fn write(&mut self, key: &str, value: &str) -> Result<(), Error>;
}

/// Appends the text line for a record to `buffer`.
fn push_text_line<K: ToText, V: ToText>(buffer: &mut Vec<u8>, key: &K, value: &V)
    ensures
        final(buffer)@ == old(buffer)@ + encode_utf8(text_line(key.scalar(), value.scalar())),
{
    let mut line: String = key.to_text();
    vstd::string::StringExecFns::append(&mut line, "\t");
    let value_text: String = value.to_text();
    vstd::string::StringExecFns::append(&mut line, value_text.as_str());
    vstd::string::StringExecFns::append(&mut line, "\n");
    assert(line@ =~= text_line(key.scalar(), value.scalar()));
    let bytes: &[u8] = line.as_str().as_bytes();
    let mut i: usize = 0;
    while i < bytes.len()
        invariant
            i <= bytes@.len(),
            buffer@ == old(buffer)@ + bytes@.take(i as int),
        decreases bytes@.len() - i,
    {
        buffer.push(bytes[i]);
        assert(bytes@.take(i + 1) =~= bytes@.take(i as int).push(bytes@[i as int]));
        i += 1;
    }
    assert(bytes@.take(i as int) =~= bytes@);
}

impl<K: ToText, V: ToText> Emit<(K, V)> for OutputWriter {
    /// Takes the record `target`: a table appends it, a text sink appends
    /// its line.
    ///
    /// Fails with `InvalidInput`, and changes nothing, exactly when the
    /// sink is a table whose data file would grow beyond what an offset
    /// can hold.
    fn emit(&mut self, target: (K, V)) -> (r: Result<(), Error>)
        ensures
            r is Ok <==> old(self)@.can_emit(target.0.scalar(), target.1.scalar()),
            r is Ok ==> final(self)@ == old(self)@.after_emit(target.0.scalar(), target.1.scalar()),
            r is Err ==> r->Err_0.kind == ErrorKind::InvalidInput && final(self)@ == old(self)@,
    {
        match self {
            OutputWriter::SSTable(sstable_writer) => sstable_writer.write(target),
            OutputWriter::Stdout(buffer) => {
                push_text_line(buffer, &target.0, &target.1);
                Ok(())
            },
            OutputWriter::Cursor(buffer) => {
                push_text_line(buffer, &target.0, &target.1);
                Ok(())
            },
        }
    }
}

impl KeyValueWriter for OutputWriter {
    /// Takes the record of `key` and `value`, both text.
    fn write(&mut self, key: &str, value: &str) -> (r: Result<(), Error>)
        ensures
            r is Ok <==> old(self)@.can_emit(Scalar::Text(key@), Scalar::Text(value@)),
            r is Ok ==> final(self)@ == old(self)@.after_emit(
                Scalar::Text(key@),
                Scalar::Text(value@),
            ),
            r is Err ==> r->Err_0.kind == ErrorKind::InvalidInput && final(self)@ == old(self)@,
    {
        self.emit((key, value))
    }
}

} // verus!
