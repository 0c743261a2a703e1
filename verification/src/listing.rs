//! Listing what tables hold: their records, their keys, their values, or
//! the entries of their indexes, one line for each.

use crate::cbor::{CborItem, Scalar};
use crate::cbor_types::MajorType;
use crate::error::{Error, ErrorKind};
use crate::get::{inputs_of, missing_line, TableInput, TableInputView};
use crate::natural::Key;
use crate::sstable_reader::{
    decode_index, decode_pair, index_entries, lemma_decode_pair_len, SSTableIndex, SSTableReader,
};
use crate::text::{decimal, push_decimal, text_of, ToText};
use crate::traits::Terminal;
use vstd::prelude::*;
use vstd::string::StringExecFns;

verus! {

/// How a record is shown.
#[derive(Debug, Clone, Copy, PartialEq, Eq, Structural)]
pub enum Style {
    /// The offset of the record in brackets, then key, colon, value.
    Dump,
    /// Key, colon, value.
    Pairs,
    /// The key alone.
    Keys,
    /// The value alone.
    Values,
    /// As a JSON member in braces, followed by a comma. Nothing is escaped.
    Json,
    /// Key, comma, value. Nothing is escaped.
    Csv,
}

/// The line for the record of `key` and `value` that starts at `offset`.
pub open spec fn styled_line(style: Style, offset: nat, key: Scalar, value: Scalar) -> Seq<char> {
    match style {
        Style::Dump => "("@ + decimal(offset) + ") "@ + text_of(key) + ": "@ + text_of(value),
        Style::Pairs => text_of(key) + ": "@ + text_of(value),
        Style::Keys => text_of(key),
        Style::Values => text_of(value),
        Style::Json => "{\""@ + text_of(key) + "\": \""@ + text_of(value) + "\"},"@,
        Style::Csv => text_of(key) + ","@ + text_of(value),
    }
}

/// The lines for the records in `bytes`, which start at `offset` in their
/// file, the error of the first record that does not decode, if there is
/// one, and the number of bytes that the records before it take.
pub open spec fn record_listing(
    key_kind: MajorType,
    value_kind: MajorType,
    bytes: Seq<u8>,
    offset: nat,
    style: Style,
) -> (Seq<Seq<char>>, Option<ErrorKind>, nat)
    decreases bytes.len(),
{
    if bytes.len() == 0 {
        (Seq::empty(), None, 0)
    } else {
        match decode_pair(key_kind, value_kind, bytes) {
            Err(e) => (Seq::empty(), Some(e), 0),
            Ok((k, v, n)) => {
                let line = styled_line(style, offset, k, v);
                if 0 < n <= bytes.len() {
                    let rest = record_listing(
                        key_kind,
                        value_kind,
                        bytes.skip(n as int),
                        offset + n,
                        style,
                    );
                    (seq![line] + rest.0, rest.1, n + rest.2)
                } else {
                    (seq![line], None, n)
                }
            },
        }
    }
}

/// The lines for one table: the line that says so where it has no data
/// file, and else the lines for its records.
pub open spec fn table_listing(
    key_kind: MajorType,
    value_kind: MajorType,
    input: TableInputView,
    style: Style,
) -> (Seq<Seq<char>>, Option<ErrorKind>) {
    match input.data {
        None => (seq![missing_line(input.path)], None),
        Some(bytes) => {
            let listing = record_listing(key_kind, value_kind, bytes, 0, style);
            (listing.0, listing.1)
        },
    }
}

/// The lines for the tables from the `i`th on, up to and with the first
/// table whose listing ends in an error.
pub open spec fn listing_from(
    key_kind: MajorType,
    value_kind: MajorType,
    inputs: Seq<TableInputView>,
    style: Style,
    i: int,
) -> (Seq<Seq<char>>, Option<ErrorKind>)
    decreases inputs.len() - i,
{
    if i < 0 || i >= inputs.len() {
        (Seq::empty(), None)
    } else {
        let first = table_listing(key_kind, value_kind, inputs[i], style);
        if first.1 is Some {
            first
        } else {
            let rest = listing_from(key_kind, value_kind, inputs, style, i + 1);
            (first.0 + rest.0, rest.1)
        }
    }
}

/// The line for one record.
fn line_for<K: ToText, V: ToText>(style: Style, offset: u64, key: &K, value: &V) -> (r: String)
    ensures
        r@ == styled_line(style, offset as nat, key.scalar(), value.scalar()),
{
    let key_text: String = key.to_text();
    let value_text: String = value.to_text();
    let mut r: String = String::new();
    match style {
        Style::Dump => {
            r.append("(");
            push_decimal(&mut r, offset);
            r.append(") ");
            r.append(key_text.as_str());
            r.append(": ");
            r.append(value_text.as_str());
        },
        Style::Pairs => {
            r.append(key_text.as_str());
            r.append(": ");
            r.append(value_text.as_str());
        },
        Style::Keys => {
            r.append(key_text.as_str());
        },
        Style::Values => {
            r.append(value_text.as_str());
        },
        Style::Json => {
            r.append("{\"");
            r.append(key_text.as_str());
            r.append("\": \"");
            r.append(value_text.as_str());
            r.append("\"},");
        },
        Style::Csv => {
            r.append(key_text.as_str());
            r.append(",");
            r.append(value_text.as_str());
        },
    }
    assert(r@ =~= styled_line(style, offset as nat, key.scalar(), value.scalar()));
    r
}

/// Writes a line for each record from the position of `reader` on.
pub fn write_records<K: CborItem + ToText, V: CborItem + ToText>(
    reader: &mut SSTableReader<(K, V)>,
    style: Style,
    writer: &mut Terminal,
) -> (r: Result<(), Error>)
    ensures
        ({
            let listing = record_listing(
                K::kind(),
                V::kind(),
                old(reader)@.remaining(),
                old(reader)@.pos,
                style,
            );
            &&& final(writer)@ == old(writer)@ + listing.0
            &&& final(reader)@ == old(reader)@.advance(listing.2)
            &&& match listing.1 {
                None => r is Ok,
                Some(e) => r is Err && r->Err_0.kind == e,
            }
        }),
{
    let ghost all = record_listing(
        K::kind(),
        V::kind(),
        old(reader)@.remaining(),
        old(reader)@.pos,
        style,
    );
    let ghost mut done: Seq<Seq<char>> = Seq::empty();
    assert(writer@ + done =~= writer@);
    assert(done + all.0 =~= all.0);
    loop
        invariant
            all == record_listing(
                K::kind(),
                V::kind(),
                old(reader)@.remaining(),
                old(reader)@.pos,
                style,
            ),
            reader@.bytes == old(reader)@.bytes,
            reader@.pos >= old(reader)@.pos,
            writer@ == old(writer)@ + done,
            all.0 == done + record_listing(
                K::kind(),
                V::kind(),
                reader@.remaining(),
                reader@.pos,
                style,
            ).0,
            all.1 == record_listing(K::kind(), V::kind(), reader@.remaining(), reader@.pos, style).1,
            all.2 == (reader@.pos - old(reader)@.pos) + record_listing(
                K::kind(),
                V::kind(),
                reader@.remaining(),
                reader@.pos,
                style,
            ).2,
        ensures
            writer@ == old(writer)@ + all.0,
            reader@ == old(reader)@.advance(all.2),
            all.1 is None,
        decreases reader@.remaining().len(),
    {
        let ghost bytes = reader@.remaining();
        let ghost before = reader@;
        let at: u64 = reader.stream_position();
        match reader.next() {
            None => {
                assert(done + Seq::<Seq<char>>::empty() =~= done);
                break ;
            },
            Some(Err(e)) => {
                assert(done + Seq::<Seq<char>>::empty() =~= done);
                return Err(e);
            },
            Some(Ok(kv)) => {
                proof {
                    lemma_decode_pair_len(K::kind(), V::kind(), bytes);
                    let n = decode_pair(K::kind(), V::kind(), bytes)->Ok_0.2;
                    assert(reader@.remaining() =~= bytes.skip(n as int));
                }
                let line: String = line_for(style, at, &kv.0, &kv.1);
                proof {
                    let rest = record_listing(
                        K::kind(),
                        V::kind(),
                        reader@.remaining(),
                        reader@.pos,
                        style,
                    );
                    assert(done + (seq![line@] + rest.0) =~= done.push(line@) + rest.0);
                    done = done.push(line@);
                }
                writer.write_line(line);
            },
        }
    }
    Ok(())
}

/// Writes the lines for the records of `inputs` in the style `style`: for
/// a table without a data file the line that says so, for the others a
/// line for each record.
///
/// The listing ends with the first record that does not decode, in its
/// error, after the lines of the records before it.
pub fn list_records<K: CborItem + ToText, V: CborItem + ToText>(
    inputs: Vec<TableInput>,
    style: Style,
    writer: &mut Terminal,
) -> (r: Result<(), Error>)
    ensures
        final(writer)@ == old(writer)@ + listing_from(
            K::kind(),
            V::kind(),
            inputs_of(inputs@),
            style,
            0,
        ).0,
        match listing_from(K::kind(), V::kind(), inputs_of(inputs@), style, 0).1 {
            None => r is Ok,
            Some(e) => r is Err && r->Err_0.kind == e,
        },
{
    let ghost all = inputs_of(inputs@);
    let ghost total = listing_from(K::kind(), V::kind(), all, style, 0);
    let mut left: Vec<TableInput> = inputs;
    let count: usize = left.len();
    let mut i: usize = 0;
    let ghost mut done: Seq<Seq<char>> = Seq::empty();
    assert(writer@ + done =~= writer@);
    assert(left@.skip(0) =~= left@);
    assert(done + total.0 =~= total.0);
    while i < count
        invariant
            i <= count,
            count == all.len(),
            all == inputs_of(inputs@),
            left@ == inputs@.skip(i as int),
            total == listing_from(K::kind(), V::kind(), all, style, 0),
            writer@ == old(writer)@ + done,
            total.0 == done + listing_from(K::kind(), V::kind(), all, style, i as int).0,
            total.1 == listing_from(K::kind(), V::kind(), all, style, i as int).1,
        decreases count - i,
    {
        let ghost before = writer@;
        let input: TableInput = left.remove(0);
        assert(input@ == all[i as int]) by {
            assert(input == inputs@[i as int]);
        }
        assert(left@ =~= inputs@.skip(i + 1));
        let ghost first = table_listing(K::kind(), V::kind(), all[i as int], style);
        let result: Result<(), Error> = match input.data {
            None => {
                let mut line: String = String::from_str("File does not exist: ");
                line.append(input.path.as_str());
                writer.write_line(line);
                assert(writer@ =~= before + first.0);
                Ok(())
            },
            Some(data) => {
                let mut reader: SSTableReader<(K, V)> = SSTableReader::from_bytes(data);
                assert(reader@.remaining() =~= all[i as int].data->Some_0);
                write_records(&mut reader, style, writer)
            },
        };
        proof {
            let rest = listing_from(K::kind(), V::kind(), all, style, i + 1);
            assert(before + first.0 =~= old(writer)@ + (done + first.0));
            if first.1 is None {
                assert(done + (first.0 + rest.0) =~= (done + first.0) + rest.0);
            }
            done = done + first.0;
        }
        match result {
            Ok(_) => {},
            Err(e) => {
                return Err(e);
            },
        }
        i += 1;
    }
    assert(done + Seq::<Seq<char>>::empty() =~= done);
    Ok(())
}

/// The line for an index entry: the key, a colon and the offset.
pub open spec fn entry_line(e: (Scalar, u64)) -> Seq<char> {
    text_of(e.0) + ": "@ + decimal(e.1 as nat)
}

/// The lines for the index of one table: the line that says so where the
/// table has no data file, else a line for each entry of its index. A table
/// with data and without an index file ends the listing in `NotFound`, and
/// an index file that does not load ends it in its error.
pub open spec fn index_listing(key_kind: MajorType, input: TableInputView) -> (
    Seq<Seq<char>>,
    Option<ErrorKind>,
) {
    match input.data {
        None => (seq![missing_line(input.path)], None),
        Some(_) => match input.index {
            None => (Seq::empty(), Some(ErrorKind::NotFound)),
            Some(bytes) => match decode_index(key_kind, bytes) {
                Err(e) => (Seq::empty(), Some(e)),
                Ok(entries) => (entries.map_values(|e: (Scalar, u64)| entry_line(e)), None),
            },
        },
    }
}

/// The lines for the indexes of the tables from the `i`th on, up to and
/// with the first table whose listing ends in an error.
pub open spec fn index_listing_from(key_kind: MajorType, inputs: Seq<TableInputView>, i: int) -> (
    Seq<Seq<char>>,
    Option<ErrorKind>,
)
    decreases inputs.len() - i,
{
    if i < 0 || i >= inputs.len() {
        (Seq::empty(), None)
    } else {
        let first = index_listing(key_kind, inputs[i]);
        if first.1 is Some {
            first
        } else {
            let rest = index_listing_from(key_kind, inputs, i + 1);
            (first.0 + rest.0, rest.1)
        }
    }
}

/// Writes a line for each entry of `sstable_index`: the key, a colon and
/// the offset.
pub fn write_index_entries<K: Key>(sstable_index: &SSTableIndex<K>, writer: &mut Terminal)
    ensures
        final(writer)@ == old(writer)@ + index_entries(sstable_index.indices@).map_values(
            |e: (Scalar, u64)| entry_line(e),
        ),
{
    let ghost entries = index_entries(sstable_index.indices@);
    let ghost lines = entries.map_values(|e: (Scalar, u64)| entry_line(e));
    let mut i: usize = 0;
    assert(writer@ + lines.take(0) =~= writer@);
    while i < sstable_index.indices.len()
        invariant
            i <= sstable_index.indices@.len(),
            entries == index_entries(sstable_index.indices@),
            lines == entries.map_values(|e: (Scalar, u64)| entry_line(e)),
            writer@ == old(writer)@ + lines.take(i as int),
        decreases sstable_index.indices@.len() - i,
    {
        let entry: &(K, u64) = &sstable_index.indices[i];
        let mut line: String = entry.0.to_text();
        line.append(": ");
        push_decimal(&mut line, entry.1);
        assert(line@ =~= entry_line(entries[i as int]));
        writer.write_line(line);
        assert(lines.take(i + 1) =~= lines.take(i as int).push(lines[i as int]));
        i += 1;
    }
    assert(lines.take(i as int) =~= lines);
}

/// Writes the lines for the indexes of `inputs`: for a table without a
/// data file the line that says so, for the others a line for each entry of
/// the index, in the order of the index file.
///
/// The listing ends in `NotFound` at a table that has data and no index
/// file, and in the error of an index file that does not load.
pub fn list_index<K: Key>(inputs: Vec<TableInput>, writer: &mut Terminal) -> (r: Result<(), Error>)
    ensures
        final(writer)@ == old(writer)@ + index_listing_from(K::kind(), inputs_of(inputs@), 0).0,
        match index_listing_from(K::kind(), inputs_of(inputs@), 0).1 {
            None => r is Ok,
            Some(e) => r is Err && r->Err_0.kind == e,
        },
{
    let ghost all = inputs_of(inputs@);
    let ghost total = index_listing_from(K::kind(), all, 0);
    let mut left: Vec<TableInput> = inputs;
    let count: usize = left.len();
    let mut i: usize = 0;
    let ghost mut done: Seq<Seq<char>> = Seq::empty();
    assert(writer@ + done =~= writer@);
    assert(left@.skip(0) =~= left@);
    assert(done + total.0 =~= total.0);
    while i < count
        invariant
            i <= count,
            count == all.len(),
            all == inputs_of(inputs@),
            left@ == inputs@.skip(i as int),
            total == index_listing_from(K::kind(), all, 0),
            writer@ == old(writer)@ + done,
            total.0 == done + index_listing_from(K::kind(), all, i as int).0,
            total.1 == index_listing_from(K::kind(), all, i as int).1,
        decreases count - i,
    {
        let ghost before = writer@;
        let input: TableInput = left.remove(0);
        assert(input@ == all[i as int]) by {
            assert(input == inputs@[i as int]);
        }
        assert(left@ =~= inputs@.skip(i + 1));
        let ghost first = index_listing(K::kind(), all[i as int]);
        let result: Result<(), Error> = if input.data.is_none() {
            let mut line: String = String::from_str("File does not exist: ");
            line.append(input.path.as_str());
            writer.write_line(line);
            assert(writer@ =~= before + first.0);
            Ok(())
        } else {
            match input.index {
                None => {
                    assert(writer@ =~= before + first.0);
                    Err(Error::new(ErrorKind::NotFound))
                },
                Some(bytes) => match SSTableIndex::<K>::from_bytes(bytes) {
                    Err(e) => {
                        assert(writer@ =~= before + first.0);
                        Err(e)
                    },
                    Ok(sstable_index) => {
                        write_index_entries(&sstable_index, writer);
                        Ok(())
                    },
                },
            }
        };
        proof {
            let rest = index_listing_from(K::kind(), all, i + 1);
            assert(before + first.0 =~= old(writer)@ + (done + first.0));
            if first.1 is None {
                assert(done + (first.0 + rest.0) =~= (done + first.0) + rest.0);
            }
            done = done + first.0;
        }
        match result {
            Ok(_) => {},
            Err(e) => {
                return Err(e);
            },
        }
        i += 1;
    }
    assert(done + Seq::<Seq<char>>::empty() =~= done);
    Ok(())
}

} // verus!
