//! Where output goes: a terminal that collects lines, a table, or either.

use crate::cbor::{CborWrite, Scalar};
use crate::error::{Error, ErrorKind};
use crate::order::ByteOrder;
use crate::natural::{natural_key, natural_lt, Key, Natural};
use core::cmp::Ordering;
use crate::sstable_writer::{record_bytes, SSTableWriter, SSTableWriterBuilder, WriterView};
use crate::text::{text_of, ToText};
use vstd::prelude::*;
use vstd::std_specs::cmp::PartialEqSpecImpl;
use vstd::std_specs::cmp::PartialOrdSpecImpl;
use vstd::string::StringExecFns;

verus! {

/// Something that values of type `T` can be written to.
pub trait TypeWrite<T> {
    /// Writes `target`.
    fn write(&mut self, target: T) -> Result<(), Error>;
}

/// A key with its value.
#[derive(Debug)]
pub struct KeyValue<K, V>(pub K, pub V);

impl<K: Key, V> PartialEq for KeyValue<K, V> {
    /// Whether the two have the same key; the values do not count.
    fn eq(&self, other: &Self) -> (r: bool) {
        Natural::sign_of(&self.0, &other.0) == 0
    }
}

impl<K: Key, V> PartialEqSpecImpl for KeyValue<K, V> {
    open spec fn obeys_eq_spec() -> bool {
        true
    }

    open spec fn eq_spec(&self, other: &Self) -> bool {
        natural_key(self.0.scalar()) == natural_key(other.0.scalar())
    }
}

impl<K: Key, V> PartialOrd for KeyValue<K, V> {
    /// How the two stand in the natural order of their keys; the values
    /// do not count.
    fn partial_cmp(&self, other: &Self) -> (r: Option<Ordering>) {
        proof {
            Natural::lemma_trichotomy(
                natural_key(self.0.scalar()),
                natural_key(other.0.scalar()),
            );
        }
        let sign: i8 = Natural::sign_of(&self.0, &other.0);
        if sign < 0 {
            Some(Ordering::Less)
        } else if sign == 0 {
            Some(Ordering::Equal)
        } else {
            Some(Ordering::Greater)
        }
    }
}

impl<K: Key, V> PartialOrdSpecImpl for KeyValue<K, V> {
    open spec fn obeys_partial_cmp_spec() -> bool {
        true
    }

    open spec fn partial_cmp_spec(&self, other: &Self) -> Option<Ordering> {
        if natural_lt(self.0.scalar(), other.0.scalar()) {
            Some(Ordering::Less)
        } else if natural_lt(other.0.scalar(), self.0.scalar()) {
            Some(Ordering::Greater)
        } else {
            Some(Ordering::Equal)
        }
    }
}

/// A key and a value shown as a pair: `(key, value)`.
pub open spec fn pair_text(key: Scalar, value: Scalar) -> Seq<char> {
    "("@ + text_of(key) + ", "@ + text_of(value) + ")"@
}

impl<K: ToText, V: ToText> KeyValue<K, V> {
    /// The pair as text: `(key, value)`.
    pub fn to_text(&self) -> (r: String)
        ensures
            r@ == pair_text(self.0.scalar(), self.1.scalar()),
    {
        let mut r: String = String::from_str("(");
        let key: String = self.0.to_text();
        r.append(key.as_str());
        r.append(", ");
        let value: String = self.1.to_text();
        r.append(value.as_str());
        r.append(")");
        r
    }
}

/// The lines that were written for the terminal, in their order. Showing
/// them is left to the caller.
#[derive(Debug)]
pub struct Terminal {
    pub lines: Vec<String>,
}

/// The lines of a terminal as a specification sees them.
pub open spec fn lines_of(lines: Seq<String>) -> Seq<Seq<char>> {
    lines.map_values(|s: String| s@)
}

impl View for Terminal {
    type V = Seq<Seq<char>>;

    open spec fn view(&self) -> Seq<Seq<char>> {
        lines_of(self.lines@)
    }
}

impl Terminal {
    /// A terminal with no lines.
    pub fn new() -> (t: Terminal)
        ensures
            t@ == Seq::<Seq<char>>::empty(),
    {
        let t = Terminal { lines: Vec::new() };
        assert(t@ =~= Seq::<Seq<char>>::empty());
        t
    }

    /// Adds `line` behind the lines that are there.
    pub fn write_line(&mut self, line: String)
        ensures
            final(self)@ == old(self)@.push(line@),
    {
        self.lines.push(line);
        assert(self@ =~= old(self)@.push(line@));
    }
}

impl TypeWrite<String> for Terminal {
    /// Adds `target` as a line. This cannot fail.
    fn write(&mut self, target: String) -> (r: Result<(), Error>)
        ensures
            r is Ok,
            final(self)@ == old(self)@.push(target@),
    {
        self.write_line(target);
        Ok(())
    }
}

impl<K: ToText, V: ToText> TypeWrite<KeyValue<K, V>> for Terminal {
    /// Adds the pair as a line, `(key, value)`. This cannot fail.
    fn write(&mut self, target: KeyValue<K, V>) -> (r: Result<(), Error>)
        ensures
            r is Ok,
            final(self)@ == old(self)@.push(pair_text(target.0.scalar(), target.1.scalar())),
    {
        self.write_line(target.to_text());
        Ok(())
    }
}

impl<K: CborWrite, V: CborWrite> TypeWrite<(K, V)> for SSTableWriter {
    /// Appends the pair as a record to the data, and its entry to the
    /// index; see [`SSTableWriter::write`].
    ///
    /// Fails with `InvalidInput`, and changes nothing, exactly when the
    /// data file would grow beyond what an offset can hold.
    fn write(&mut self, target: (K, V)) -> (r: Result<(), Error>)
        ensures
            r is Ok <==> old(self)@.next_offset() + record_bytes(
                (target.0.scalar(), target.1.scalar()),
            ).len() <= u64::MAX,
            r is Ok ==> final(self)@ == old(self)@.with_record(target.0.scalar(), target.1.scalar()),
            r is Ok ==> forall|records: Seq<(Scalar, Scalar)>| #[trigger]
                old(self)@.holds(records) ==> final(self)@.holds(
                    records.push((target.0.scalar(), target.1.scalar())),
                ),
            r is Err ==> r->Err_0.kind == ErrorKind::InvalidInput && final(self)@ == old(self)@,
    {
        SSTableWriter::write(self, target)
    }
}

/// A table or a terminal.
#[derive(Debug)]
pub enum TypeWriter {
    SSTable(SSTableWriter),
    Terminal(Terminal),
}

impl TypeWriter {
    /// A writer for the table at `output_path`, or a terminal where there
    /// is no path.
    pub fn new(output_path: Option<&str>) -> (w: TypeWriter)
        ensures
            match output_path {
                Some(path) => w is SSTable && w->SSTable_0@ == (WriterView {
                    data_path: path@,
                    index_path: crate::read::index_path_of(path@),
                    buffer_size: crate::sstable_writer::DEFAULT_BUFFER_SIZE,
                    data_start: 0,
                    data: Seq::empty(),
                    index: Seq::empty(),
                }),
                None => w is Terminal && w->Terminal_0@ == Seq::<Seq<char>>::empty(),
            },
    {
        match output_path {
            Some(path) => TypeWriter::SSTable(SSTableWriterBuilder::new(path).build()),
            None => TypeWriter::Terminal(Terminal::new()),
        }
    }
}

impl<K: ToText, V: ToText> TypeWrite<(K, V)> for TypeWriter {
    /// Appends the pair as a record to the table, or adds it as a line,
    /// `(key, value)`, to the terminal.
    ///
    /// A terminal takes every pair. A table fails with `InvalidInput`, and
    /// changes nothing, exactly when its data file would grow beyond what
    /// an offset can hold.
    fn write(&mut self, target: (K, V)) -> (r: Result<(), Error>)
        ensures
            match *old(self) {
                TypeWriter::SSTable(before) => {
                    &&& *final(self) is SSTable
                    &&& r is Ok <==> before@.next_offset() + record_bytes(
                        (target.0.scalar(), target.1.scalar()),
                    ).len() <= u64::MAX
                    &&& r is Ok ==> final(self)->SSTable_0@ == before@.with_record(
                        target.0.scalar(),
                        target.1.scalar(),
                    )
                    &&& r is Err ==> r->Err_0.kind == ErrorKind::InvalidInput
                        && final(self)->SSTable_0@ == before@
                },
                TypeWriter::Terminal(before) => {
                    &&& r is Ok
                    &&& *final(self) is Terminal
                    &&& final(self)->Terminal_0@ == before@.push(
                        pair_text(target.0.scalar(), target.1.scalar()),
                    )
                },
            },
    {
        match self {
            TypeWriter::SSTable(sstable_writer) => sstable_writer.write(target),
            TypeWriter::Terminal(terminal) => terminal.write(KeyValue(target.0, target.1)),
        }
    }
}

} // verus!
