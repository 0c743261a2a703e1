//! Looking up the values of one key in a list of tables.
//!
//! Where a table has an index that loads, the index is searched for the
//! first entry with the key, and the records are read from its offset on
//! for as long as they have that key. Where it has none, the data is read
//! from start to end. A cap bounds the number of values taken from each
//! table.

use crate::cbor::{CborItem, Scalar};
use crate::cbor_types::MajorType;
use crate::error::{Error, ErrorKind};
use crate::natural::{first_with_key, natural_binary_search_first, Key, Natural};
use crate::order::keys_sorted;
use crate::read::{CursorView, SeekFrom};
use crate::sstable_reader::{
    decode_index, decode_pair, index_entries, lemma_decode_pair_len, SSTableIndex, SSTableReader,
};
use crate::text::{text_of, ToText};
use crate::traits::Terminal;
use vstd::prelude::*;
use vstd::string::StringExecFns;

verus! {

/// What a scan of records for one key gives: the records that matched, the
/// number of bytes that were read, and the error that ended the scan, if
/// one did.
pub struct Scan {
    pub records: Seq<(Scalar, Scalar)>,
    pub consumed: nat,
    pub error: Option<ErrorKind>,
}

/// The cap that is left after one more match.
pub open spec fn cap_after_match(cap: Option<nat>) -> Option<nat> {
    match cap {
        Some(c) => Some((c - 1) as nat),
        None => None,
    }
}

/// The scan of the records in `bytes` for `key`.
///
/// Records are read one after the other. One with the key is a match; the
/// scan ends with the match that reaches `cap`, and a cap of zero lets
/// nothing be read. One with another key ends the scan where `run_only` is
/// set, and is passed over where it is not. The end of the bytes ends the
/// scan, and so does a record that does not decode, whose error the scan
/// then carries.
pub open spec fn scan_for(
    key_kind: MajorType,
    value_kind: MajorType,
    bytes: Seq<u8>,
    key: Scalar,
    cap: Option<nat>,
    run_only: bool,
) -> Scan
    decreases bytes.len(),
{
    if bytes.len() == 0 || cap == Some(0nat) {
        Scan { records: Seq::empty(), consumed: 0, error: None }
    } else {
        match decode_pair(key_kind, value_kind, bytes) {
            Err(e) => Scan { records: Seq::empty(), consumed: 0, error: Some(e) },
            Ok((k, v, n)) => {
                let stops = if k == key {
                    cap == Some(1nat)
                } else {
                    run_only
                };
                let found = if k == key {
                    seq![(k, v)]
                } else {
                    Seq::empty()
                };
                if stops || !(0 < n <= bytes.len()) {
                    Scan { records: found, consumed: n, error: None }
                } else {
                    let rest = scan_for(
                        key_kind,
                        value_kind,
                        bytes.skip(n as int),
                        key,
                        if k == key {
                            cap_after_match(cap)
                        } else {
                            cap
                        },
                        run_only,
                    );
                    Scan {
                        records: found + rest.records,
                        consumed: n + rest.consumed,
                        error: rest.error,
                    }
                }
            },
        }
    }
}

/// The line for a record: the key, a colon and the value where `with_key`
/// is set, else the value alone.
pub open spec fn record_line(r: (Scalar, Scalar), with_key: bool) -> Seq<char> {
    if with_key {
        text_of(r.0) + ": "@ + text_of(r.1)
    } else {
        text_of(r.1)
    }
}

/// The lines for a run of records.
pub open spec fn record_lines(records: Seq<(Scalar, Scalar)>, with_key: bool) -> Seq<Seq<char>> {
    records.map_values(|r: (Scalar, Scalar)| record_line(r, with_key))
}

/// A cap as a specification sees it.
pub open spec fn cap_of(n: Option<usize>) -> Option<nat> {
    match n {
        Some(c) => Some(c as nat),
        None => None,
    }
}

/// Scans the records from the position of `reader` on for `key` and writes
/// a line for each match.
fn scan_records<K: Key, V: CborItem + ToText>(
    reader: &mut SSTableReader<(K, V)>,
    key: &K,
    n: Option<usize>,
    writer: &mut Terminal,
    run_only: bool,
    with_key: bool,
) -> (r: Result<(), Error>)
    ensures
        ({
            let scan = scan_for(
                K::kind(),
                V::kind(),
                old(reader)@.remaining(),
                key.scalar(),
                cap_of(n),
                run_only,
            );
            &&& final(writer)@ == old(writer)@ + record_lines(scan.records, with_key)
            &&& final(reader)@ == old(reader)@.advance(scan.consumed)
            &&& match scan.error {
                None => r is Ok,
                Some(e) => r is Err && r->Err_0.kind == e,
            }
        }),
{
    let ghost all = scan_for(
        K::kind(),
        V::kind(),
        old(reader)@.remaining(),
        key.scalar(),
        cap_of(n),
        run_only,
    );
    let ghost start = old(reader)@;
    let mut left: Option<usize> = n;
    let mut done: bool = match n {
        Some(c) => c == 0,
        None => false,
    };
    let mut result: Result<(), Error> = Ok(());
    let ghost found: Seq<(Scalar, Scalar)> = Seq::empty();
    assert(record_lines(found, with_key) =~= Seq::<Seq<char>>::empty());
    assert(writer@ + record_lines(found, with_key) =~= writer@);
    assert(reader@ == start.advance(0));
    assert(found + all.records =~= all.records);
    while !done
        invariant
            !done ==> left != Some(0usize),
            reader@.bytes == start.bytes,
            reader@.pos >= start.pos,
            writer@ == old(writer)@ + record_lines(found, with_key),
            !done ==> result is Ok && ({
                let rest = scan_for(
                    K::kind(),
                    V::kind(),
                    reader@.remaining(),
                    key.scalar(),
                    cap_of(left),
                    run_only,
                );
                &&& all.records == found + rest.records
                &&& all.consumed == (reader@.pos - start.pos) + rest.consumed
                &&& all.error == rest.error
            }),
            done ==> {
                &&& all.records == found
                &&& all.consumed == reader@.pos - start.pos
                &&& match all.error {
                    None => result is Ok,
                    Some(e) => result is Err && result->Err_0.kind == e,
                }
            },
        decreases
                if done {
                    0
                } else {
                    1 + reader@.remaining().len()
                },
    {
        let ghost before = reader@;
        let ghost bytes = before.remaining();
        match reader.next() {
            None => {
                done = true;
            },
            Some(Err(e)) => {
                result = Err(e);
                done = true;
            },
            Some(Ok(kv)) => {
                proof {
                    lemma_decode_pair_len(K::kind(), V::kind(), bytes);
                    let m = decode_pair(K::kind(), V::kind(), bytes)->Ok_0.2;
                    assert(reader@.remaining() =~= bytes.skip(m as int));
                    kv.0.lemma_kind();
                    key.lemma_kind();
                }
                let same: bool = Natural::sign_of(&kv.0, key) == 0;
                proof {
                    if same {
                        crate::natural::lemma_natural_key_injective(kv.0.scalar(), key.scalar());
                    }
                }
                if same {
                    let ghost pair = (kv.0.scalar(), kv.1.scalar());
                    let mut line: String = String::new();
                    if with_key {
                        let key_text: String = kv.0.to_text();
                        line.append(key_text.as_str());
                        line.append(": ");
                    }
                    let value_text: String = kv.1.to_text();
                    line.append(value_text.as_str());
                    assert(line@ =~= record_line(pair, with_key));
                    writer.write_line(line);
                    proof {
                        assert(record_lines(found.push(pair), with_key) =~= record_lines(
                            found,
                            with_key,
                        ).push(record_line(pair, with_key)));
                        assert(found + (seq![pair] + scan_for(
                            K::kind(),
                            V::kind(),
                            reader@.remaining(),
                            key.scalar(),
                            cap_after_match(cap_of(left)),
                            run_only,
                        ).records) =~= found.push(pair) + scan_for(
                            K::kind(),
                            V::kind(),
                            reader@.remaining(),
                            key.scalar(),
                            cap_after_match(cap_of(left)),
                            run_only,
                        ).records);
                        assert(found + seq![pair] =~= found.push(pair));
                        found = found.push(pair);
                    }
                    match left {
                        Some(c) => {
                            if c == 1 {
                                done = true;
                            } else {
                                left = Some(c - 1);
                            }
                        },
                        None => {},
                    }
                } else {
                    proof {
                        assert(found + Seq::<(Scalar, Scalar)>::empty() =~= found);
                        assert(Seq::<(Scalar, Scalar)>::empty() + scan_for(
                            K::kind(),
                            V::kind(),
                            reader@.remaining(),
                            key.scalar(),
                            cap_of(left),
                            run_only,
                        ).records =~= scan_for(
                            K::kind(),
                            V::kind(),
                            reader@.remaining(),
                            key.scalar(),
                            cap_of(left),
                            run_only,
                        ).records);
                    }
                    if run_only {
                        done = true;
                    }
                }
            },
        }
    }
    result
}

/// The first entry of `sstable_index` with the key `key`, as a copy, where
/// the keys of the index stand in natural order; nothing where no entry
/// has the key.
///
/// Whatever the order of the index, an entry that is given has the key
/// `key`, and its predecessor in the index, if it has one, has another.
pub fn get_index_entry_by_key<K: Key>(sstable_index: &SSTableIndex<K>, key: &K) -> (r: Option<
    (K, u64),
>)
    ensures
        r is Some ==> r->Some_0.0.scalar() == key.scalar() && exists|i: int|
            {
                &&& 0 <= i < sstable_index.indices@.len()
                &&& (#[trigger] sstable_index.indices@[i]).0.scalar() == key.scalar()
                &&& sstable_index.indices@[i].1 == r->Some_0.1
                &&& i > 0 ==> sstable_index.indices@[i - 1].0.scalar() != key.scalar()
            },
        keys_sorted::<K, Natural>(sstable_index.indices@) ==> match first_with_key(
            index_entries(sstable_index.indices@),
            key.scalar(),
        ) {
            Some(i) => r is Some && r->Some_0.1 == sstable_index.indices@[i].1,
            None => r is None,
        },
{
    match natural_binary_search_first(sstable_index.indices.as_slice(), key) {
        Ok(x) => {
            let entry: &(K, u64) = &sstable_index.indices[x];
            Some((entry.0.duplicate(), entry.1))
        },
        Err(_) => None,
    }
}

/// Reads records from the position of `iterator` on for as long as their
/// key is `index_key`, and writes a line for each: the key, a colon and the
/// value. At most `n` lines are written where `n` is set; with a cap of
/// zero nothing is read.
///
/// The record that ends the run, being of another key, is read as well.
/// A record that does not decode ends the run with its error, after the
/// lines of the records before it.
pub fn write_next_n_with_key<K: Key, V: CborItem + ToText>(
    iterator: &mut SSTableReader<(K, V)>,
    index_key: K,
    n: Option<usize>,
    writer: &mut Terminal,
) -> (r: Result<(), Error>)
    ensures
        ({
            let scan = scan_for(
                K::kind(),
                V::kind(),
                old(iterator)@.remaining(),
                index_key.scalar(),
                cap_of(n),
                true,
            );
            &&& final(writer)@ == old(writer)@ + record_lines(scan.records, true)
            &&& final(iterator)@ == old(iterator)@.advance(scan.consumed)
            &&& match scan.error {
                None => r is Ok,
                Some(e) => r is Err && r->Err_0.kind == e,
            }
        }),
{
    scan_records(iterator, &index_key, n, writer, true, true)
}

/// Reads the records from the position of `iterator` on to the end, and
/// writes the value of each record whose key is `key` as a line. The scan
/// ends with the `n`th such record where `n` is set; with a cap of zero
/// nothing is read.
///
/// A record that does not decode ends the scan with its error, after the
/// lines of the records before it.
pub fn get_kv_by_linear_search<K: Key, V: CborItem + ToText>(
    iterator: &mut SSTableReader<(K, V)>,
    key: &K,
    n: Option<usize>,
    writer: &mut Terminal,
) -> (r: Result<(), Error>)
    ensures
        ({
            let scan = scan_for(
                K::kind(),
                V::kind(),
                old(iterator)@.remaining(),
                key.scalar(),
                cap_of(n),
                false,
            );
            &&& final(writer)@ == old(writer)@ + record_lines(scan.records, false)
            &&& final(iterator)@ == old(iterator)@.advance(scan.consumed)
            &&& match scan.error {
                None => r is Ok,
                Some(e) => r is Err && r->Err_0.kind == e,
            }
        }),
{
    scan_records(iterator, key, n, writer, false, false)
}

/// What is known of one table when it is looked into: its path, the bytes
/// of its data file if that file exists, and the bytes of its index file if
/// that file could be read.
#[derive(Debug)]
pub struct TableInput {
    pub path: String,
    pub data: Option<Vec<u8>>,
    pub index: Option<Vec<u8>>,
}

/// A table to look into, as a specification sees it.
pub struct TableInputView {
    pub path: Seq<char>,
    pub data: Option<Seq<u8>>,
    pub index: Option<Seq<u8>>,
}

impl View for TableInput {
    type V = TableInputView;

    open spec fn view(&self) -> TableInputView {
        TableInputView {
            path: self.path@,
            data: match self.data {
                Some(d) => Some(d@),
                None => None,
            },
            index: match self.index {
                Some(d) => Some(d@),
                None => None,
            },
        }
    }
}

/// The tables to look into, as a specification sees them.
pub open spec fn inputs_of(inputs: Seq<TableInput>) -> Seq<TableInputView> {
    inputs.map_values(|t: TableInput| t@)
}

/// The line that stands for a table whose data file does not exist.
pub open spec fn missing_line(path: Seq<char>) -> Seq<char> {
    "File does not exist: "@ + path
}

/// The index of a table, where it has one that loads.
pub open spec fn loaded_index(key_kind: MajorType, input: TableInputView) -> Option<Seq<(Scalar, u64)>> {
    match input.index {
        Some(bytes) => match decode_index(key_kind, bytes) {
            Ok(entries) => Some(entries),
            Err(_) => None,
        },
        None => None,
    }
}

/// The lines that a lookup of `key` in one table gives, and the error that
/// ended it, if one did.
///
/// A table without a data file gives the line that says so. A table with
/// an index that loads gives nothing where the index does not hold the
/// key, and else the run of records with the key from the offset of the
/// first entry with the key on, each as key, colon and value. A table
/// without such an index gives the value of each record with the key.
pub open spec fn input_lines(
    key_kind: MajorType,
    value_kind: MajorType,
    input: TableInputView,
    key: Scalar,
    cap: Option<nat>,
) -> (Seq<Seq<char>>, Option<ErrorKind>) {
    match input.data {
        None => (seq![missing_line(input.path)], None),
        Some(data) => match loaded_index(key_kind, input) {
            Some(entries) => match first_with_key(entries, key) {
                None => (Seq::empty(), None),
                Some(i) => {
                    let at = CursorView { bytes: data, pos: entries[i].1 as nat };
                    let scan = scan_for(key_kind, value_kind, at.remaining(), key, cap, true);
                    (record_lines(scan.records, true), scan.error)
                },
            },
            None => {
                let scan = scan_for(key_kind, value_kind, data, key, cap, false);
                (record_lines(scan.records, false), scan.error)
            },
        },
    }
}

/// The lines that a lookup of `key` gives in the tables from the `i`th on,
/// and the error that ended it, if one did: the lines of each table in
/// turn, up to and with the first table whose lookup ends in an error.
pub open spec fn get_lines_from(
    key_kind: MajorType,
    value_kind: MajorType,
    inputs: Seq<TableInputView>,
    key: Scalar,
    cap: Option<nat>,
    i: int,
) -> (Seq<Seq<char>>, Option<ErrorKind>)
    decreases inputs.len() - i,
{
    if i < 0 || i >= inputs.len() {
        (Seq::empty(), None)
    } else {
        let first = input_lines(key_kind, value_kind, inputs[i], key, cap);
        if first.1 is Some {
            first
        } else {
            let rest = get_lines_from(key_kind, value_kind, inputs, key, cap, i + 1);
            (first.0 + rest.0, rest.1)
        }
    }
}

/// Whether every index among `inputs` that loads has its keys in natural
/// order, as a search needs it.
pub open spec fn indexes_in_order(key_kind: MajorType, inputs: Seq<TableInputView>) -> bool {
    forall|i: int|
        0 <= i < inputs.len() && inputs[i].data is Some ==> match #[trigger] loaded_index(
            key_kind,
            inputs[i],
        ) {
            Some(entries) => crate::natural::entries_in_order(entries),
            None => true,
        }
}

/// Looks `key` up in each of `input_paths` in turn and writes what it finds
/// to `writer`, at most `n` values from each table where `n` is set.
///
/// Where the indexes that load have their keys in natural order, the lines
/// written are those of `get_lines_from`, and the lookup ends in the error
/// that it names, if it names one. Whatever the indexes, lines are only
/// added to `writer`.
pub fn get<K: Key, V: CborItem + ToText>(
    input_paths: Vec<TableInput>,
    key: K,
    n: Option<usize>,
    writer: &mut Terminal,
) -> (r: Result<(), Error>)
    ensures
        exists|added: Seq<Seq<char>>| final(writer)@ == old(writer)@ + added,
        indexes_in_order(K::kind(), inputs_of(input_paths@)) ==> ({
            let lines = get_lines_from(
                K::kind(),
                V::kind(),
                inputs_of(input_paths@),
                key.scalar(),
                cap_of(n),
                0,
            );
            &&& final(writer)@ == old(writer)@ + lines.0
            &&& match lines.1 {
                None => r is Ok,
                Some(e) => r is Err && r->Err_0.kind == e,
            }
        }),
{
    let ghost all = inputs_of(input_paths@);
    let ghost ordered = indexes_in_order(K::kind(), all);
    let ghost total = get_lines_from(K::kind(), V::kind(), all, key.scalar(), cap_of(n), 0);
    let mut inputs: Vec<TableInput> = input_paths;
    let mut i: usize = 0;
    let count: usize = inputs.len();
    let ghost mut done: Seq<Seq<char>> = Seq::empty();
    assert(writer@ + done =~= writer@);
    assert(inputs@.skip(0) =~= inputs@);
    assert(done + total.0 =~= total.0);
    while i < count
        invariant
            i <= count,
            count == all.len(),
            all == inputs_of(input_paths@),
            inputs@ == input_paths@.skip(i as int),
            ordered == indexes_in_order(K::kind(), all),
            total == get_lines_from(K::kind(), V::kind(), all, key.scalar(), cap_of(n), 0),
            writer@ == old(writer)@ + done,
            ordered ==> ({
                let rest = get_lines_from(K::kind(), V::kind(), all, key.scalar(), cap_of(n), i as int);
                &&& total.0 == done + rest.0
                &&& total.1 == rest.1
            }),
        decreases count - i,
    {
        let ghost input_view = all[i as int];
        let ghost before = writer@;
        let input: TableInput = inputs.remove(0);
        assert(input@ == input_view) by {
            assert(input == input_paths@[i as int]);
        }
        assert(inputs@ =~= input_paths@.skip(i + 1));
        let result: Result<(), Error> = lookup::<K, V>(input, &key, n, writer);
        proof {
            if ordered {
                let first = input_lines(K::kind(), V::kind(), input_view, key.scalar(), cap_of(n));
                let rest = get_lines_from(K::kind(), V::kind(), all, key.scalar(), cap_of(n), i + 1);
                assert(input_view.data is Some ==> match loaded_index(K::kind(), all[i as int]) {
                    Some(entries) => crate::natural::entries_in_order(entries),
                    None => true,
                });
                assert(writer@ == before + first.0);
                assert(before + first.0 =~= old(writer)@ + (done + first.0));
                if first.1 is None {
                    assert(done + (first.0 + rest.0) =~= (done + first.0) + rest.0);
                }
                done = done + first.0;
            } else {
                let added = choose|added: Seq<Seq<char>>| writer@ == before + added;
                assert(before + added =~= old(writer)@ + (done + added));
                done = done + added;
            }
        }
        match result {
            Ok(_) => {},
            Err(e) => {
                return Err(e);
            },
        }
        i += 1;
    }
    assert(done + Seq::<Seq<char>>::empty() =~= done);
    Ok(())
}

/// Looks `key` up in one table and writes what it finds to `writer`.
fn lookup<K: Key, V: CborItem + ToText>(
    input: TableInput,
    key: &K,
    n: Option<usize>,
    writer: &mut Terminal,
) -> (r: Result<(), Error>)
    ensures
        exists|added: Seq<Seq<char>>| final(writer)@ == old(writer)@ + added,
        (match loaded_index(K::kind(), input@) {
            Some(entries) => crate::natural::entries_in_order(entries),
            None => true,
        }) || input@.data is None ==> ({
            let lines = input_lines(K::kind(), V::kind(), input@, key.scalar(), cap_of(n));
            &&& final(writer)@ == old(writer)@ + lines.0
            &&& match lines.1 {
                None => r is Ok,
                Some(e) => r is Err && r->Err_0.kind == e,
            }
        }),
{
    let ghost view = input@;
    let data: Vec<u8> = match input.data {
        Some(data) => data,
        None => {
            let mut line: String = String::from_str("File does not exist: ");
            line.append(input.path.as_str());
            writer.write_line(line);
            assert(writer@ =~= old(writer)@ + seq![missing_line(input.path@)]);
            assert(input@.data is None);
            return Ok(());
        },
    };
    let mut sstable_reader: SSTableReader<(K, V)> = SSTableReader::from_bytes(data);
    let loaded: Option<SSTableIndex<K>> = match input.index {
        Some(bytes) => match SSTableIndex::<K>::from_bytes(bytes) {
            Ok(sstable_index) => Some(sstable_index),
            Err(_) => None,
        },
        None => None,
    };
    match loaded {
        Some(sstable_index) => {
            proof {
                crate::natural::lemma_entries_in_order::<K>(sstable_index.indices@);
            }
            let ghost entries = index_entries(sstable_index.indices@);
            assert(loaded_index(K::kind(), view) == Some(entries));
            match get_index_entry_by_key(&sstable_index, key) {
                Some(entry) => {
                    let moved: Result<u64, Error> = sstable_reader.seek(SeekFrom::Start(entry.1));
                    proof {
                        if crate::natural::entries_in_order(entries) {
                            let i = first_with_key(entries, key.scalar())->Some_0;
                            crate::natural::lemma_first_with_key_is_in_range(entries, key.scalar(), 0);
                            assert(entries[i].1 == sstable_index.indices@[i].1);
                            assert(sstable_reader@ == (CursorView {
                                bytes: view.data->Some_0,
                                pos: entries[i].1 as nat,
                            }));
                        }
                    }
                    write_next_n_with_key(&mut sstable_reader, entry.0, n, writer)
                },
                None => {
                    assert(writer@ =~= old(writer)@ + Seq::<Seq<char>>::empty());
                    Ok(())
                },
            }
        },
        None => {
            assert(sstable_reader@.remaining() =~= view.data->Some_0);
            get_kv_by_linear_search(&mut sstable_reader, key, n, writer)
        },
    }
}

} // verus!
